//! The dialect parser emulating the Python `dotenv-cli` tool.
//!
//! The whole byte stream is decoded first, then split into logical lines on
//! `\n`, `\r\n` or `\r`.  Per line: surrounding whitespace is trimmed,
//! `#`-comments and lines without `=` are skipped, the line is split on the
//! first `=`, an `export ` prefix is stripped from the key, and the value is
//! unquoted — double quotes run the escape decoder over the interior, single
//! quotes are verbatim.  Resolved pairs are delivered to the sink in file
//! order; in strict mode the first malformed escape aborts the parse with
//! its 1-based line number.

use vstd::prelude::*;

use crate::chars::trim;
use crate::chars::trim_vec;
use crate::chars::copy_range;
use crate::chars::chars_to_string;
use crate::env::apply_pairs;
use crate::env::env_step;
use crate::env::lemma_apply_pairs_snoc;
use crate::env::EnvMap;
use crate::escape::spec_unescape;
use crate::escape::unescape_value;
use crate::encoding::spec_decode;
use crate::Error;
use crate::Options;

verus! {

/// A line terminator character.
pub open spec fn is_line_break(c: char) -> bool {
    c == '\r' || c == '\n'
}

/// The position of the first line terminator, or the length when there is
/// none.
pub open spec fn find_break(s: Seq<char>) -> int
    decreases s.len(),
{
    if s.len() == 0 {
        0
    } else if is_line_break(s[0]) {
        0
    } else {
        1 + find_break(s.skip(1))
    }
}

/// The first line terminator is where `find_break` says, and nothing
/// before it is one.
pub proof fn lemma_find_break(s: Seq<char>)
    ensures
        0 <= find_break(s) <= s.len(),
        forall|j: int| 0 <= j < find_break(s) ==> !is_line_break(#[trigger] s[j]),
        find_break(s) < s.len() ==> is_line_break(s[find_break(s)]),
    decreases s.len(),
{
    if s.len() == 0 {
    } else if is_line_break(s[0]) {
    } else {
        lemma_find_break(s.skip(1));
        assert forall|j: int| 0 <= j < find_break(s) implies !is_line_break(#[trigger] s[j]) by {
            if j > 0 {
                assert(s.skip(1)[j - 1] == s[j]);
                assert(!is_line_break(s.skip(1)[j - 1]));
            }
        }
    }
}

/// The width of the terminator at `e`: two characters for `\r\n`, else
/// one.
pub open spec fn break_width(s: Seq<char>, e: int) -> int {
    if e + 1 < s.len() && s[e] == '\r' && s[e + 1] == '\n' {
        2
    } else {
        1
    }
}

/// The logical lines of the text: terminators `\n`, `\r\n` and `\r` end a
/// line, and a final line without a terminator still counts.
pub open spec fn split_lines(s: Seq<char>) -> Seq<Seq<char>>
    decreases s.len(),
    via split_lines_decreases
{
    let e = find_break(s);
    if e == s.len() {
        if s.len() == 0 {
            Seq::empty()
        } else {
            seq![s]
        }
    } else {
        seq![s.take(e)] + split_lines(s.skip(e + break_width(s, e)))
    }
}

#[via_fn]
proof fn split_lines_decreases(s: Seq<char>) {
    lemma_find_break(s);
}

/// There are never more lines than characters.
pub proof fn lemma_split_lines_len(s: Seq<char>)
    ensures
        split_lines(s).len() <= s.len(),
    decreases s.len(),
{
    lemma_find_break(s);
    let e = find_break(s);
    if e == s.len() {
    } else {
        lemma_split_lines_len(s.skip(e + break_width(s, e)));
    }
}

/// The position of the first occurrence of `c`, or the length when there
/// is none.
pub open spec fn find_char(s: Seq<char>, c: char) -> int
    decreases s.len(),
{
    if s.len() == 0 {
        0
    } else if s[0] == c {
        0
    } else {
        1 + find_char(s.skip(1), c)
    }
}

/// The first occurrence of `c` is where `find_char` says, and it does not
/// occur before that.
pub proof fn lemma_find_char(s: Seq<char>, c: char)
    ensures
        0 <= find_char(s, c) <= s.len(),
        forall|j: int| 0 <= j < find_char(s, c) ==> #[trigger] s[j] != c,
        find_char(s, c) < s.len() ==> s[find_char(s, c)] == c,
    decreases s.len(),
{
    if s.len() == 0 {
    } else if s[0] == c {
    } else {
        lemma_find_char(s.skip(1), c);
        assert forall|j: int| 0 <= j < find_char(s, c) implies #[trigger] s[j] != c by {
            if j > 0 {
                assert(s.skip(1)[j - 1] == s[j]);
                assert(s.skip(1)[j - 1] != c);
            }
        }
    }
}

/// A scan that stopped at `e` determines `find_char`.
pub proof fn lemma_find_char_of(s: Seq<char>, c: char, e: int)
    requires
        0 <= e <= s.len(),
        forall|j: int| 0 <= j < e ==> #[trigger] s[j] != c,
        e == s.len() || s[e] == c,
    ensures
        find_char(s, c) == e,
    decreases s.len(),
{
    if s.len() == 0 {
    } else if s[0] == c {
        assert(e == 0);
    } else {
        assert(e >= 1);
        lemma_find_char_of(s.skip(1), c, e - 1);
    }
}

/// The key with a literal `export ` prefix removed, if it has one.
pub open spec fn strip_export(k: Seq<char>) -> Seq<char> {
    if k.len() >= 7 && k.subrange(0, 7) == "export "@ {
        k.skip(7)
    } else {
        k
    }
}

/// What one logical line contributes: nothing, or one assignment of a raw
/// (not yet unquoted) value to a key.
pub enum LineAction {
    Skip,
    Assign { key: Seq<char>, raw_value: Seq<char> },
}

/// Tokenizes one logical line: trim, skip comments and lines without `=`,
/// split on the first `=`, strip `export `, trim key and value.  A line
/// whose key is empty after that contributes no assignment.
pub open spec fn line_action(line: Seq<char>) -> LineAction {
    let t = trim(line);
    if t.len() > 0 && t[0] == '#' {
        LineAction::Skip
    } else if find_char(t, '=') == t.len() {
        LineAction::Skip
    } else {
        let e = find_char(t, '=');
        let key = trim(strip_export(t.take(e)));
        let value = trim(t.skip(e + 1));
        if key.len() == 0 {
            LineAction::Skip
        } else {
            LineAction::Assign { key, raw_value: value }
        }
    }
}

/// Unquotes a raw value: a double-quoted value is unescaped, a
/// single-quoted value is taken verbatim, anything else is used as is.
/// `None` when a malformed escape is fatal under `strict`.
pub open spec fn resolve_value(v: Seq<char>, strict: bool) -> Option<Seq<char>> {
    if v.len() >= 2 && v[0] == '"' && v.last() == '"' {
        spec_unescape(v.subrange(1, v.len() - 1), strict)
    } else if v.len() >= 2 && v[0] == '\'' && v.last() == '\'' {
        Some(v.subrange(1, v.len() - 1))
    } else {
        Some(v)
    }
}

/// Runs the lines from index `i` on: the pairs delivered to the sink in
/// order, and the 1-based number of the first line whose value is
/// malformed under `strict`, if any.  Pairs before that line are still
/// delivered.
pub open spec fn run_from(lines: Seq<Seq<char>>, strict: bool, i: int) -> (
    Seq<(Seq<char>, Seq<char>)>,
    Option<int>,
)
    decreases lines.len() - i,
{
    if i < 0 || i >= lines.len() {
        (Seq::empty(), None)
    } else {
        match line_action(lines[i]) {
            LineAction::Skip => run_from(lines, strict, i + 1),
            LineAction::Assign { key, raw_value } => match resolve_value(raw_value, strict) {
                None => (Seq::empty(), Some(i + 1)),
                Some(v) => {
                    let rest = run_from(lines, strict, i + 1);
                    (seq![(key, v)] + rest.0, rest.1)
                },
            },
        }
    }
}

/// The outcome of parsing a whole decoded text: the pairs delivered in
/// file order and, in strict mode, the line number of the first malformed
/// value.
pub open spec fn spec_parse(text: Seq<char>, strict: bool) -> (
    Seq<(Seq<char>, Seq<char>)>,
    Option<int>,
) {
    run_from(split_lines(text), strict, 0)
}

/// A value wrapped in single quotes is passed through verbatim: embedded
/// backslashes undergo no escape processing, in strict and non-strict
/// mode alike.
pub proof fn lemma_single_quoted_verbatim(v: Seq<char>, strict: bool)
    requires
        v.len() >= 2,
        v[0] == '\'',
        v.last() == '\'',
    ensures
        resolve_value(v, strict) == Some(v.subrange(1, v.len() - 1)),
{
}

/// Whether a line carries an assignment whose value has a malformed or
/// truncated escape, which strict mode treats as fatal.
pub open spec fn line_malformed(line: Seq<char>) -> bool {
    match line_action(line) {
        LineAction::Skip => false,
        LineAction::Assign { key: _, raw_value } => resolve_value(raw_value, true) is None,
    }
}

/// A comment line, a line that is blank or has no `=`, and a line whose
/// key is empty contribute no assignment and are no error.
pub proof fn lemma_skip_line(line: Seq<char>)
    requires
        trim(line).len() == 0 || trim(line)[0] == '#' || find_char(trim(line), '=') == trim(
            line,
        ).len(),
    ensures
        line_action(line) == LineAction::Skip,
        !line_malformed(line),
{
    if trim(line).len() == 0 {
        lemma_find_char(trim(line), '=');
    }
}

/// A skipped line changes nothing about the run: the same pairs are
/// delivered and the same outcome is reached.
pub proof fn lemma_skip_contributes_nothing(lines: Seq<Seq<char>>, strict: bool, i: int)
    requires
        0 <= i < lines.len(),
        line_action(lines[i]) == LineAction::Skip,
    ensures
        run_from(lines, strict, i) == run_from(lines, strict, i + 1),
{
}

/// In strict mode the first line with a malformed escape aborts the whole
/// parse, and the reported line number is that line's, 1-based.
pub proof fn lemma_strict_error_line(lines: Seq<Seq<char>>, a: int, i: int)
    requires
        0 <= a <= i < lines.len(),
        line_malformed(lines[i]),
        forall|j: int| a <= j < i ==> !line_malformed(#[trigger] lines[j]),
    ensures
        run_from(lines, true, a).1 == Some(i + 1),
    decreases i - a,
{
    if a == i {
    } else {
        lemma_strict_error_line(lines, a + 1, i);
        match line_action(lines[a]) {
            LineAction::Skip => {},
            LineAction::Assign { key: _, raw_value } => {
                assert(resolve_value(raw_value, true) is Some);
            },
        }
    }
}

/// In non-strict mode the parse itself never fails: malformed escapes
/// degrade to literal text, and every line's value resolves.
pub proof fn lemma_non_strict_never_fails(lines: Seq<Seq<char>>, i: int)
    ensures
        run_from(lines, false, i).1 is None,
    decreases lines.len() - i,
{
    if 0 <= i < lines.len() {
        match line_action(lines[i]) {
            LineAction::Skip => {
                lemma_non_strict_never_fails(lines, i + 1);
            },
            LineAction::Assign { key: _, raw_value } => {
                let v = raw_value;
                if v.len() >= 2 && v[0] == '"' && v.last() == '"' {
                    crate::escape::lemma_unescape_non_strict_total(v.subrange(1, v.len() - 1));
                }
                assert(resolve_value(v, false) is Some);
                lemma_non_strict_never_fails(lines, i + 1);
            },
        }
    }
}

/// An `export ` prefix on the key makes no difference: `export KEY=value`
/// and `KEY=value` are the same assignment.  The line must already be
/// trimmed, not be a comment, carry an `=`, and not itself start with a
/// second `export ` prefix.
pub proof fn lemma_export_equivalent(l: Seq<char>)
    requires
        trim(l) == l,
        l.len() > 0,
        l[0] != '#',
        find_char(l, '=') < l.len(),
        !(find_char(l, '=') >= 7 && l.take(find_char(l, '=')).subrange(0, 7) == "export "@),
    ensures
        line_action("export "@ + l) == line_action(l),
{
    reveal_strlit("export ");
    let ex = "export "@;
    let l2 = ex + l;
    let fc = find_char(l, '=');
    lemma_find_char(l, '=');
    crate::chars::lemma_trim_fixed(l);
    // the combined line is already trimmed as well
    assert(!crate::chars::is_space(l2[0]));
    assert(l2.last() == l.last());
    crate::chars::lemma_ws_char(l2);
    assert(crate::chars::leading_ws(l2) == 0) by {
        if crate::chars::leading_ws(l2) > 0 {
            assert(crate::chars::is_space(l2[0]));
        }
    }
    assert(crate::chars::trailing_ws(l2) == 0) by {
        if crate::chars::trailing_ws(l2) > 0 {
            assert(crate::chars::is_space(l2[l2.len() - 1]));
        }
    }
    assert(trim(l2) =~= l2);
    // the first `=` of the combined line sits right after the prefix
    assert(find_char(l2, '=') == 7 + fc) by {
        assert forall|j: int| 0 <= j < 7 + fc implies #[trigger] l2[j] != '=' by {
            if j >= 7 {
                assert(l2[j] == l[j - 7]);
            }
        }
        assert(l2[7 + fc] == l[fc]);
        lemma_find_char_of(l2, '=', 7 + fc);
    }
    // the combined key strips down to the plain key
    let k2 = l2.take(7 + fc);
    assert(k2.subrange(0, 7) =~= ex);
    assert(k2.skip(7) =~= l.take(fc));
    assert(strip_export(k2) == l.take(fc));
    assert(strip_export(l.take(fc)) == l.take(fc));
    // the values agree
    assert(l2.skip(7 + fc + 1) =~= l.skip(fc + 1));
    // neither line is a comment
    assert(l2[0] == 'e');
    assert(trim(l) == l);
}

/// A scan that stopped at `e` determines `find_break`.
proof fn lemma_find_break_of(s: Seq<char>, e: int)
    requires
        0 <= e <= s.len(),
        forall|j: int| 0 <= j < e ==> !is_line_break(#[trigger] s[j]),
        e == s.len() || is_line_break(s[e]),
    ensures
        find_break(s) == e,
    decreases s.len(),
{
    if s.len() == 0 {
    } else if is_line_break(s[0]) {
        assert(e == 0);
    } else {
        assert(e >= 1);
        lemma_find_break_of(s.skip(1), e - 1);
    }
}

/// The position right after the current line's characters: the first line
/// terminator at or after `pos`, or the end of the text.
fn find_line_end(text: &Vec<char>, pos: usize) -> (e: usize)
    requires
        pos <= text@.len(),
    ensures
        pos <= e <= text@.len(),
        e - pos == find_break(text@.skip(pos as int)),
        e < text@.len() ==> is_line_break(text@[e as int]),
        forall|j: int| pos <= j < e ==> !is_line_break(#[trigger] text@[j]),
{
    let n = text.len();
    let mut e: usize = pos;
    while e < n && !(text[e] == '\r' || text[e] == '\n')
        invariant
            pos <= e <= n,
            n == text@.len(),
            forall|j: int| pos <= j < e ==> !is_line_break(#[trigger] text@[j]),
        decreases n - e,
    {
        e = e + 1;
    }
    proof {
        let rem = text@.skip(pos as int);
        assert(forall|k: int| 0 <= k < rem.len() ==> rem[k] == text@[pos + k]);
        assert forall|j: int| 0 <= j < e - pos implies !is_line_break(#[trigger] rem[j]) by {
            assert(rem[j] == text@[pos + j]);
        }
        if e < n {
            assert(rem[e - pos] == text@[e as int]);
        }
        lemma_find_break_of(rem, e - pos);
    }
    e
}

/// The position of the first `c` in `v`, or the length when there is none.
fn find_char_vec(v: &Vec<char>, c: char) -> (r: usize)
    ensures
        r == find_char(v@, c),
        r <= v@.len(),
{
    let n = v.len();
    let mut i: usize = 0;
    while i < n && v[i] != c
        invariant
            i <= n,
            n == v@.len(),
            forall|j: int| 0 <= j < i ==> #[trigger] v@[j] != c,
        decreases n - i,
    {
        i = i + 1;
    }
    proof {
        lemma_find_char_of(v@, c, i as int);
    }
    i
}

/// The key with a literal `export ` prefix removed, if it has one.
fn strip_export_vec(k: &Vec<char>) -> (r: Vec<char>)
    ensures
        r@ == strip_export(k@),
{
    proof {
        reveal_strlit("export ");
    }
    if k.len() >= 7 && k[0] == 'e' && k[1] == 'x' && k[2] == 'p' && k[3] == 'o' && k[4] == 'r'
        && k[5] == 't' && k[6] == ' ' {
        proof {
            assert(k@.subrange(0, 7) =~= "export "@);
        }
        copy_range(k, 7, k.len())
    } else {
        proof {
            if k@.len() >= 7 && k@.subrange(0, 7) == "export "@ {
                assert(k@[0] == k@.subrange(0, 7)[0]);
                assert(k@[1] == k@.subrange(0, 7)[1]);
                assert(k@[2] == k@.subrange(0, 7)[2]);
                assert(k@[3] == k@.subrange(0, 7)[3]);
                assert(k@[4] == k@.subrange(0, 7)[4]);
                assert(k@[5] == k@.subrange(0, 7)[5]);
                assert(k@[6] == k@.subrange(0, 7)[6]);
                assert(false);
            }
            assert(strip_export(k@) == k@);
        }
        copy_range(k, 0, k.len())
    }
}

/// Tokenizes one logical line and, when it carries an assignment, resolves
/// the value and delivers the pair to the sink; fails exactly when the
/// value is malformed under `strict`.
fn apply_line(line: &Vec<char>, env: &mut EnvMap, strict: bool, override_env: bool) -> (r: Result<
    (),
    (),
>)
    ensures
        match line_action(line@) {
            LineAction::Skip => r == Ok::<(), ()>(()) && final(env)@ == old(env)@,
            LineAction::Assign { key, raw_value } => match resolve_value(raw_value, strict) {
                Some(v) => r == Ok::<(), ()>(()) && final(env)@ == env_step(
                    old(env)@,
                    key,
                    v,
                    override_env,
                ),
                None => r == Err::<(), ()>(()) && final(env)@ == old(env)@,
            },
        },
        old(env).wf() ==> final(env).wf(),
{
    let t = trim_vec(line);
    if t.len() > 0 && t[0] == '#' {
        return Ok(());
    }
    let eq = find_char_vec(&t, '=');
    if eq == t.len() {
        return Ok(());
    }
    let rawkey = copy_range(&t, 0, eq);
    let rawval = copy_range(&t, eq + 1, t.len());
    proof {
        assert(rawkey@ =~= t@.take(eq as int));
        assert(rawval@ =~= t@.skip(eq + 1 as int));
    }
    let stripped = strip_export_vec(&rawkey);
    let keyv = trim_vec(&stripped);
    let valuev = trim_vec(&rawval);
    if keyv.len() == 0 {
        return Ok(());
    }
    let n = valuev.len();
    let resolved: Vec<char>;
    if n >= 2 && valuev[0] == '"' && valuev[n - 1] == '"' {
        let interior = copy_range(&valuev, 1, n - 1);
        match unescape_value(&interior, strict) {
            Some(v) => {
                resolved = v;
            },
            None => {
                return Err(());
            },
        }
    } else if n >= 2 && valuev[0] == '\'' && valuev[n - 1] == '\'' {
        resolved = copy_range(&valuev, 1, n - 1);
    } else {
        resolved = valuev;
    }
    let ks = chars_to_string(&keyv);
    let vs = chars_to_string(&resolved);
    env.set_var(ks.as_str(), vs.as_str(), override_env);
    Ok(())
}

/// Parses a whole byte buffer under the Python-CLI dialect and delivers
/// every resolved `(key, value)` pair to the sink in file order.  A byte
/// sequence that does not match the declared encoding is fatal; in strict
/// mode the first malformed escape aborts the parse with its 1-based line
/// number (pairs from earlier lines are already delivered); in non-strict
/// mode malformed escapes degrade to literal text and the parse succeeds.
pub fn config_python_dotenv_cli(bytes: &[u8], env: &mut EnvMap, options: &Options) -> (r: Result<
    (),
    Error,
>)
    ensures
        old(env).wf() ==> final(env).wf(),
        match spec_decode(options.encoding, bytes@) {
            None => r == Err::<(), Error>(Error::InvalidData) && final(env)@ == old(env)@,
            Some(text) => {
                let pr = spec_parse(text, options.strict);
                &&& final(env)@ == apply_pairs(old(env)@, pr.0, options.override_env)
                &&& (match pr.1 {
                    None => r == Ok::<(), Error>(()),
                    Some(l) => r == Err::<(), Error>(
                        Error::Syntax { line: l as usize, column: 1 },
                    ),
                })
            },
        },
{
    let strict = options.strict;
    let override_env = options.override_env;
    let text = match options.encoding.decode(bytes) {
        Ok(v) => v,
        Err(e) => {
            return Err(e);
        },
    };
    let ghost tseq = text@;
    let ghost lines = split_lines(tseq);
    let n = text.len();
    let mut pos: usize = 0;
    let mut li: usize = 0;
    let ghost mut delivered: Seq<(Seq<char>, Seq<char>)> = Seq::empty();
    proof {
        lemma_split_lines_len(tseq);
        assert(tseq.skip(0) =~= tseq);
        assert(lines.subrange(0, lines.len() as int) =~= lines);
        assert(Seq::<(Seq<char>, Seq<char>)>::empty() + run_from(lines, strict, 0).0 =~= run_from(
            lines,
            strict,
            0,
        ).0);
    }
    while pos < n
        invariant
            pos <= n,
            n == text@.len(),
            text@ == tseq,
            strict == options.strict,
            override_env == options.override_env,
            spec_decode(options.encoding, bytes@) == Some(tseq),
            lines == split_lines(tseq),
            li <= lines.len(),
            li <= pos,
            lines.subrange(li as int, lines.len() as int) == split_lines(tseq.skip(pos as int)),
            run_from(lines, strict, 0).0 == delivered + run_from(lines, strict, li as int).0,
            run_from(lines, strict, 0).1 == run_from(lines, strict, li as int).1,
            env@ == apply_pairs(old(env)@, delivered, override_env),
            old(env).wf() ==> env.wf(),
        decreases n - pos,
    {
        let ghost rem = tseq.skip(pos as int);
        let e = find_line_end(&text, pos);
        let line = copy_range(&text, pos, e);
        let nextpos: usize;
        if e == n {
            nextpos = n;
        } else if text[e] == '\r' && e + 1 < n && text[e + 1] == '\n' {
            nextpos = e + 2;
        } else {
            nextpos = e + 1;
        }
        proof {
            assert(forall|k: int| 0 <= k < rem.len() ==> rem[k] == tseq[pos + k]);
            assert(rem.len() == n - pos);
            assert(find_break(rem) == e - pos);
            if e == n {
                assert(split_lines(rem) == seq![rem]);
                assert(line@ =~= rem);
                assert(split_lines(tseq.skip(nextpos as int)) =~= Seq::<Seq<char>>::empty());
                assert(seq![rem] + Seq::<Seq<char>>::empty() =~= seq![rem]);
                assert(split_lines(rem) =~= seq![line@] + split_lines(tseq.skip(nextpos as int)));
            } else {
                assert(rem[e - pos] == tseq[e as int]);
                if e + 1 < n {
                    assert(rem[e - pos + 1] == tseq[e + 1]);
                }
                assert(break_width(rem, e - pos) == nextpos - e);
                assert(split_lines(rem) == seq![rem.take(e - pos)] + split_lines(
                    rem.skip(nextpos - pos),
                ));
                assert(rem.take(e - pos) =~= line@);
                assert(rem.skip(nextpos - pos) =~= tseq.skip(nextpos as int));
            }
            assert(split_lines(rem) == seq![line@] + split_lines(tseq.skip(nextpos as int)));
            assert(li < lines.len()) by {
                assert(lines.subrange(li as int, lines.len() as int).len() >= 1);
            }
            assert(lines[li as int] == line@) by {
                assert(lines.subrange(li as int, lines.len() as int)[0] == lines[li as int]);
            }
            assert(lines.subrange(li + 1 as int, lines.len() as int) =~= split_lines(
                tseq.skip(nextpos as int),
            )) by {
                let tail = lines.subrange(li as int, lines.len() as int);
                assert forall|k: int|
                    0 <= k < lines.len() - li - 1 implies lines.subrange(
                    li + 1 as int,
                    lines.len() as int,
                )[k] == split_lines(tseq.skip(nextpos as int))[k] by {
                    assert(tail[k + 1] == lines[li + 1 + k]);
                }
            }
        }
        let ghost env_before = env@;
        match apply_line(&line, env, strict, override_env) {
            Ok(()) => {
                proof {
                    match line_action(line@) {
                        LineAction::Skip => {
                            assert(run_from(lines, strict, li as int) == run_from(
                                lines,
                                strict,
                                li + 1 as int,
                            ));
                        },
                        LineAction::Assign { key, raw_value } => {
                            match resolve_value(raw_value, strict) {
                                Some(v) => {
                                    assert(run_from(lines, strict, li as int).0 == seq![(key, v)]
                                        + run_from(lines, strict, li + 1 as int).0);
                                    assert(run_from(lines, strict, li as int).1 == run_from(
                                        lines,
                                        strict,
                                        li + 1 as int,
                                    ).1);
                                    lemma_apply_pairs_snoc(
                                        old(env)@,
                                        delivered,
                                        key,
                                        v,
                                        override_env,
                                    );
                                    let delivered_old = delivered;
                                    delivered = delivered.push((key, v));
                                    assert(delivered_old + (seq![(key, v)] + run_from(
                                        lines,
                                        strict,
                                        li + 1 as int,
                                    ).0) =~= delivered + run_from(lines, strict, li + 1 as int).0);
                                },
                                None => {
                                    assert(false);
                                },
                            }
                        },
                    }
                }
            },
            Err(()) => {
                proof {
                    assert(run_from(lines, strict, li as int).0 =~= Seq::<
                        (Seq<char>, Seq<char>),
                    >::empty());
                    assert(run_from(lines, strict, li as int).1 == Some(li + 1 as int));
                    assert(delivered + Seq::<(Seq<char>, Seq<char>)>::empty() =~= delivered);
                }
                return Err(Error::Syntax { line: li + 1, column: 1 });
            },
        }
        li = li + 1;
        pos = nextpos;
    }
    proof {
        assert(tseq.skip(pos as int).len() == 0);
        assert(split_lines(tseq.skip(pos as int)) =~= Seq::<Seq<char>>::empty());
        assert(lines.subrange(li as int, lines.len() as int).len() == 0);
        assert(li == lines.len());
        assert(run_from(lines, strict, li as int).0 =~= Seq::<(Seq<char>, Seq<char>)>::empty());
        assert(run_from(lines, strict, li as int).1 is None);
        assert(delivered + Seq::<(Seq<char>, Seq<char>)>::empty() =~= delivered);
    }
    Ok(())
}

} // verus!
