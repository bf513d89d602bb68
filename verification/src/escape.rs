//! The shared escape decoder: turns backslash sequences inside a
//! double-quoted value into literal characters.
//!
//! The rule table is the one of the Python-CLI dialect: simple C-style
//! escapes, line continuation, octal (1-3 digits), `\x` + 2 hex digits,
//! `\u` + 4 hex digits, and `\U` + 8 hex digits.  Every malformed sequence
//! is fatal in strict mode; otherwise the backslash is kept literally and
//! scanning resumes right after it.

use vstd::prelude::*;
use vstd::utf8::is_scalar;

verus! {

/// An octal digit.
pub open spec fn is_octal_digit(c: char) -> bool {
    '0' <= c && c <= '7'
}

/// A hexadecimal digit, either case.
pub open spec fn is_hex_digit(c: char) -> bool {
    ('0' <= c && c <= '9') || ('a' <= c && c <= 'f') || ('A' <= c && c <= 'F')
}

/// The value of one octal digit.
pub open spec fn octal_digit_val(c: char) -> u32
    recommends
        is_octal_digit(c),
{
    (c as u32 - 0x30) as u32
}

/// The value of one hexadecimal digit.
pub open spec fn hex_digit_val(c: char) -> u32
    recommends
        is_hex_digit(c),
{
    if '0' <= c && c <= '9' {
        (c as u32 - 0x30) as u32
    } else if 'a' <= c && c <= 'f' {
        (c as u32 - 0x57) as u32
    } else {
        (c as u32 - 0x37) as u32
    }
}

/// Whether the `m` characters from `i` on are all hexadecimal digits.
pub open spec fn all_hex(s: Seq<char>, i: int, m: int) -> bool {
    forall|j: int| i <= j < i + m ==> is_hex_digit(s[j])
}

/// The value of the `m` hexadecimal digits from `i` on.
pub open spec fn hex_value(s: Seq<char>, i: int, m: int) -> int
    decreases m,
{
    if m <= 0 {
        0
    } else {
        hex_value(s, i, m - 1) * 16 + hex_digit_val(s[i + m - 1])
    }
}

/// Sixteen to the `m`-th power.
pub open spec fn pow16(m: int) -> int
    decreases m,
{
    if m <= 0 {
        1
    } else {
        16 * pow16(m - 1)
    }
}

/// A run of hexadecimal digits is bounded by the corresponding power of
/// sixteen.
pub proof fn lemma_hex_value_bound(s: Seq<char>, i: int, m: int)
    requires
        m >= 0,
        all_hex(s, i, m),
    ensures
        0 <= hex_value(s, i, m) < pow16(m),
    decreases m,
{
    if m == 0 {
    } else {
        lemma_hex_value_bound(s, i, m - 1);
        assert(is_hex_digit(s[i + m - 1]));
        assert(hex_digit_val(s[i + m - 1]) < 16);
        assert(hex_value(s, i, m) == hex_value(s, i, m - 1) * 16 + hex_digit_val(s[i + m - 1]));
        assert(hex_value(s, i, m) < pow16(m)) by (nonlinear_arith)
            requires
                0 <= hex_value(s, i, m - 1) < pow16(m - 1),
                hex_value(s, i, m) == hex_value(s, i, m - 1) * 16 + hex_digit_val(s[i + m - 1]),
                hex_digit_val(s[i + m - 1]) < 16,
                pow16(m) == 16 * pow16(m - 1),
        ;
    }
}

/// The length of the octal-digit run right after the backslash: one to
/// three digits, stopping at the first character that is not an octal
/// digit.  `s` starts at the backslash and `s[1]` is an octal digit.
pub open spec fn octal_run(s: Seq<char>) -> int
    recommends
        s.len() >= 2,
        is_octal_digit(s[1]),
{
    if s.len() > 2 && is_octal_digit(s[2]) {
        if s.len() > 3 && is_octal_digit(s[3]) {
            3
        } else {
            2
        }
    } else {
        1
    }
}

/// The value of the octal-digit run of length `k` right after the
/// backslash.
pub open spec fn octal_value(s: Seq<char>, k: int) -> int {
    if k == 1 {
        octal_digit_val(s[1]) as int
    } else if k == 2 {
        octal_digit_val(s[1]) * 8 + octal_digit_val(s[2])
    } else {
        octal_digit_val(s[1]) * 64 + octal_digit_val(s[2]) * 8 + octal_digit_val(s[3])
    }
}

/// What one escape sequence does.  `Truncated` is a lone backslash at the
/// end of the value; `Emit` is a recognized sequence with the characters
/// it produces and the count of characters it consumes (backslash
/// included); `Malformed` is everything else.
pub enum EscStep {
    Truncated,
    Emit { chars: Seq<char>, used: int },
    Malformed,
}

/// Classifies the escape sequence at the start of `s`, which begins with
/// the backslash.
pub open spec fn escape_step(s: Seq<char>) -> EscStep
    recommends
        s.len() >= 1,
        s[0] == '\\',
{
    if s.len() < 2 {
        EscStep::Truncated
    } else {
        let c = s[1];
        if c == '\n' {
            // line continuation: backslash and newline are both dropped
            EscStep::Emit { chars: Seq::empty(), used: 2 }
        } else if c == '\\' || c == '\'' || c == '"' {
            EscStep::Emit { chars: seq![c], used: 2 }
        } else if c == 'a' {
            EscStep::Emit { chars: seq!['\u{7}'], used: 2 }
        } else if c == 'b' {
            EscStep::Emit { chars: seq!['\u{8}'], used: 2 }
        } else if c == 'f' {
            EscStep::Emit { chars: seq!['\u{c}'], used: 2 }
        } else if c == 'n' {
            EscStep::Emit { chars: seq!['\n'], used: 2 }
        } else if c == 'r' {
            EscStep::Emit { chars: seq!['\r'], used: 2 }
        } else if c == 't' {
            EscStep::Emit { chars: seq!['\t'], used: 2 }
        } else if c == 'v' {
            EscStep::Emit { chars: seq!['\u{b}'], used: 2 }
        } else if is_octal_digit(c) {
            let k = octal_run(s);
            let v = octal_value(s, k);
            if v <= 255 {
                EscStep::Emit { chars: seq![((v as u32) as char)], used: 1 + k }
            } else {
                EscStep::Malformed
            }
        } else if c == 'x' {
            if s.len() < 4 || !all_hex(s, 2, 2) {
                EscStep::Malformed
            } else {
                EscStep::Emit { chars: seq![((hex_value(s, 2, 2) as u32) as char)], used: 4 }
            }
        } else if c == 'u' {
            if s.len() < 6 || !all_hex(s, 2, 4) {
                EscStep::Malformed
            } else {
                let v = hex_value(s, 2, 4) as u32;
                if is_scalar(v) {
                    EscStep::Emit { chars: seq![v as char], used: 6 }
                } else {
                    EscStep::Malformed
                }
            }
        } else if c == 'U' {
            if s.len() < 10 || !all_hex(s, 2, 8) {
                EscStep::Malformed
            } else {
                let v = hex_value(s, 2, 8) as u32;
                if is_scalar(v) {
                    EscStep::Emit { chars: seq![v as char], used: 10 }
                } else {
                    EscStep::Malformed
                }
            }
        } else {
            EscStep::Malformed
        }
    }
}

/// The unescaped form of `s`, or `None` when a malformed or truncated
/// sequence is fatal under `strict`.  In non-strict mode a malformed
/// sequence keeps its backslash literally and scanning resumes after it; a
/// trailing lone backslash is likewise kept: recovery never drops
/// characters.
pub open spec fn spec_unescape(s: Seq<char>, strict: bool) -> Option<Seq<char>>
    decreases s.len(),
{
    if s.len() == 0 {
        Some(Seq::empty())
    } else if s[0] != '\\' {
        match spec_unescape(s.skip(1), strict) {
            Some(t) => Some(seq![s[0]] + t),
            None => None,
        }
    } else {
        match escape_step(s) {
            EscStep::Truncated => if strict {
                None
            } else {
                Some(seq!['\\'])
            },
            EscStep::Emit { chars, used } => match spec_unescape(s.skip(used), strict) {
                Some(t) => Some(chars + t),
                None => None,
            },
            EscStep::Malformed => if strict {
                None
            } else {
                match spec_unescape(s.skip(1), strict) {
                    Some(t) => Some(seq!['\\'] + t),
                    None => None,
                }
            },
        }
    }
}

/// Sixteen to the `m`-th power is positive.
proof fn lemma_pow16_pos(m: int)
    ensures
        pow16(m) >= 1,
    decreases m,
{
    if m > 0 {
        lemma_pow16_pos(m - 1);
    }
}

/// Sixteen to the `m`-th power is monotone in `m`.
proof fn lemma_pow16_mono(a: int, b: int)
    requires
        0 <= a <= b,
    ensures
        pow16(a) <= pow16(b),
    decreases b,
{
    if a < b {
        lemma_pow16_mono(a, b - 1);
        lemma_pow16_pos(b - 1);
        assert(pow16(b) == 16 * pow16(b - 1));
    }
}

/// The first powers of sixteen.
proof fn lemma_pow16_vals()
    ensures
        pow16(2) == 0x100,
        pow16(7) == 0x10000000,
        pow16(8) == 0x100000000,
{
    assert(pow16(0) == 1);
    assert(pow16(1) == 0x10);
    assert(pow16(2) == 0x100);
    assert(pow16(3) == 0x1000);
    assert(pow16(4) == 0x10000);
    assert(pow16(5) == 0x100000);
    assert(pow16(6) == 0x1000000);
    assert(pow16(7) == 0x10000000);
    assert(pow16(8) == 0x100000000);
}

/// Runs of hexadecimal digits at corresponding positions of two sequences
/// have the same value.
proof fn lemma_hex_value_shift(a: Seq<char>, b: Seq<char>, ia: int, ib: int, m: int)
    requires
        m >= 0,
        forall|j: int| 0 <= j < m ==> #[trigger] a[ia + j] == b[ib + j],
    ensures
        hex_value(a, ia, m) == hex_value(b, ib, m),
        all_hex(a, ia, m) == all_hex(b, ib, m),
    decreases m,
{
    if m > 0 {
        lemma_hex_value_shift(a, b, ia, ib, m - 1);
        assert(a[ia + (m - 1)] == b[ib + (m - 1)]);
    }
    if all_hex(a, ia, m) {
        assert forall|j: int| ib <= j < ib + m implies is_hex_digit(b[j]) by {
            assert(a[ia + (j - ib)] == b[ib + (j - ib)]);
            assert(is_hex_digit(a[ia + (j - ib)]));
        }
    }
    if all_hex(b, ib, m) {
        assert forall|j: int| ia <= j < ia + m implies is_hex_digit(a[j]) by {
            assert(a[ia + (j - ia)] == b[ib + (j - ia)]);
            assert(is_hex_digit(b[ib + (j - ia)]));
        }
    }
}

/// Whether `c` is an octal digit.
fn is_octal_char(c: char) -> (r: bool)
    ensures
        r == is_octal_digit(c),
{
    '0' <= c && c <= '7'
}

/// The value of one octal digit.
fn octal_char_val(c: char) -> (r: u32)
    requires
        is_octal_digit(c),
    ensures
        r == octal_digit_val(c),
        r <= 7,
{
    c as u32 - 0x30
}

/// Whether `c` is a hexadecimal digit.
fn is_hex_char(c: char) -> (r: bool)
    ensures
        r == is_hex_digit(c),
{
    ('0' <= c && c <= '9') || ('a' <= c && c <= 'f') || ('A' <= c && c <= 'F')
}

/// The value of one hexadecimal digit.
fn hex_char_val(c: char) -> (r: u32)
    requires
        is_hex_digit(c),
    ensures
        r == hex_digit_val(c),
        r <= 15,
{
    if '0' <= c && c <= '9' {
        c as u32 - 0x30
    } else if 'a' <= c && c <= 'f' {
        c as u32 - 0x57
    } else {
        c as u32 - 0x37
    }
}

/// Reads `m` hexadecimal digits starting at `start`; `None` when one of
/// the characters is not a digit.
fn read_hex(s: &Vec<char>, start: usize, m: usize) -> (r: Option<u32>)
    requires
        start + m <= s@.len(),
        m <= 8,
    ensures
        all_hex(s@, start as int, m as int) ==> r == Some(
            (hex_value(s@, start as int, m as int) as u32),
        ),
        !all_hex(s@, start as int, m as int) ==> r is None,
{
    let nlen = s.len();
    let mut acc: u32 = 0;
    let mut j: usize = 0;
    while j < m
        invariant
            j <= m,
            m <= 8,
            nlen == s@.len(),
            start + m <= nlen,
            forall|k: int| start <= k < start + j ==> is_hex_digit(s@[k]),
            acc == hex_value(s@, start as int, j as int),
        decreases m - j,
    {
        let c = s[start + j];
        if !is_hex_char(c) {
            proof {
                assert(!all_hex(s@, start as int, m as int)) by {
                    assert(!is_hex_digit(s@[start + j]));
                }
            }
            return None;
        }
        proof {
            assert(all_hex(s@, start as int, j as int));
            lemma_hex_value_bound(s@, start as int, j as int);
            lemma_pow16_mono(j as int, 7);
            lemma_pow16_vals();
            assert(acc < 0x10000000);
        }
        let d = hex_char_val(c);
        acc = acc * 16 + d;
        j = j + 1;
    }
    proof {
        assert(all_hex(s@, start as int, m as int));
        lemma_hex_value_bound(s@, start as int, m as int);
        lemma_pow16_mono(m as int, 8);
        lemma_pow16_vals();
        assert(hex_value(s@, start as int, m as int) < 0x100000000);
    }
    Some(acc)
}

/// Prefixing the glued output onto one decoding step.
proof fn lemma_glue(whole: Seq<char>, i: int, used: int, out_old: Seq<char>, emitted: Seq<char>, strict: bool)
    requires
        0 <= i,
        1 <= used,
        i + used <= whole.len(),
        spec_unescape(whole, strict) == crate::encoding::prepend_chars(
            out_old,
            spec_unescape(whole.skip(i), strict),
        ),
        spec_unescape(whole.skip(i), strict) == crate::encoding::prepend_chars(
            emitted,
            spec_unescape(whole.skip(i).skip(used as int), strict),
        ),
    ensures
        spec_unescape(whole, strict) == crate::encoding::prepend_chars(
            out_old + emitted,
            spec_unescape(whole.skip(i + used), strict),
        ),
{
    assert(whole.skip(i).skip(used as int) =~= whole.skip(i + used));
    match spec_unescape(whole.skip(i + used), strict) {
        Some(t) => {
            assert(out_old + (emitted + t) =~= (out_old + emitted) + t);
        },
        None => {},
    }
}

/// Resolves the backslash escapes of a double-quoted value; `None` when a
/// malformed or truncated sequence is fatal under `strict`.
#[verifier::rlimit(100)]
pub fn unescape_value(s: &Vec<char>, strict: bool) -> (r: Option<Vec<char>>)
    ensures
        match spec_unescape(s@, strict) {
            Some(cs) => r matches Some(v) && v@ == cs,
            None => r is None,
        },
{
    let n = s.len();
    let mut out: Vec<char> = Vec::new();
    let mut i: usize = 0;
    proof {
        assert(s@.skip(0) =~= s@);
        match spec_unescape(s@, strict) {
            Some(t) => {
                assert(Seq::<char>::empty() + t =~= t);
            },
            None => {},
        }
    }
    while i < n
        invariant
            i <= n,
            n == s@.len(),
            spec_unescape(s@, strict) == crate::encoding::prepend_chars(
                out@,
                spec_unescape(s@.skip(i as int), strict),
            ),
        decreases n - i,
    {
        let ghost rem = s@.skip(i as int);
        let ghost out_old = out@;
        proof {
            assert(rem.len() == n - i);
            assert(forall|k: int| 0 <= k < rem.len() ==> rem[k] == s@[i + k]);
        }
        let c = s[i];
        if c != '\\' {
            out.push(c);
            proof {
                lemma_glue(s@, i as int, 1, out_old, seq![c], strict);
                assert(out@ =~= out_old + seq![c]);
            }
            i = i + 1;
        } else if n - i < 2 {
            // a lone backslash at the end of the value is kept literally
            proof {
                assert(escape_step(rem) is Truncated);
            }
            if strict {
                return None;
            }
            out.push('\\');
            proof {
                assert(spec_unescape(rem, strict) == Some(seq!['\\']));
                assert(out_old + seq!['\\'] =~= out@);
            }
            return Some(out);
        } else {
            let c1 = s[i + 1];
            let mut emit: Option<char> = None;
            let mut used: usize = 0;
            let mut bad: bool = false;
            let ghost mut emitted: Seq<char> = Seq::empty();
            if c1 == '\n' {
                emit = None;
                used = 2;
                proof {
                    emitted = Seq::empty();
                    assert(escape_step(rem) == (EscStep::Emit { chars: emitted, used: 2int }));
                }
            } else if c1 == '\\' || c1 == '\'' || c1 == '"' {
                emit = Some(c1);
                used = 2;
                proof {
                    emitted = seq![c1];
                    assert(escape_step(rem) == (EscStep::Emit { chars: emitted, used: 2int }));
                }
            } else if c1 == 'a' {
                emit = Some('\u{7}');
                used = 2;
                proof {
                    emitted = seq!['\u{7}'];
                    assert(escape_step(rem) == (EscStep::Emit { chars: emitted, used: 2int }));
                }
            } else if c1 == 'b' {
                emit = Some('\u{8}');
                used = 2;
                proof {
                    emitted = seq!['\u{8}'];
                    assert(escape_step(rem) == (EscStep::Emit { chars: emitted, used: 2int }));
                }
            } else if c1 == 'f' {
                emit = Some('\u{c}');
                used = 2;
                proof {
                    emitted = seq!['\u{c}'];
                    assert(escape_step(rem) == (EscStep::Emit { chars: emitted, used: 2int }));
                }
            } else if c1 == 'n' {
                emit = Some('\n');
                used = 2;
                proof {
                    emitted = seq!['\n'];
                    assert(escape_step(rem) == (EscStep::Emit { chars: emitted, used: 2int }));
                }
            } else if c1 == 'r' {
                emit = Some('\r');
                used = 2;
                proof {
                    emitted = seq!['\r'];
                    assert(escape_step(rem) == (EscStep::Emit { chars: emitted, used: 2int }));
                }
            } else if c1 == 't' {
                emit = Some('\t');
                used = 2;
                proof {
                    emitted = seq!['\t'];
                    assert(escape_step(rem) == (EscStep::Emit { chars: emitted, used: 2int }));
                }
            } else if c1 == 'v' {
                emit = Some('\u{b}');
                used = 2;
                proof {
                    emitted = seq!['\u{b}'];
                    assert(escape_step(rem) == (EscStep::Emit { chars: emitted, used: 2int }));
                }
            } else if is_octal_char(c1) {
                let mut k: usize = 1;
                if n - i > 2 && is_octal_char(s[i + 2]) {
                    k = 2;
                    if n - i > 3 && is_octal_char(s[i + 3]) {
                        k = 3;
                    }
                }
                proof {
                    assert(octal_run(rem) == k as int);
                }
                let v: u32;
                if k == 3 {
                    v = octal_char_val(c1) * 64 + octal_char_val(s[i + 2]) * 8 + octal_char_val(
                        s[i + 3],
                    );
                } else if k == 2 {
                    v = octal_char_val(c1) * 8 + octal_char_val(s[i + 2]);
                } else {
                    v = octal_char_val(c1);
                }
                proof {
                    assert(v == octal_value(rem, k as int));
                }
                if v > 255 {
                    bad = true;
                    proof {
                        assert(escape_step(rem) is Malformed);
                    }
                } else {
                    proof {
                        assert(is_scalar(v));
                    }
                    let ch = match char::from_u32(v) {
                        Some(ch) => ch,
                        None => {
                            proof {
                                assert(false);
                            }
                            ' '
                        },
                    };
                    emit = Some(ch);
                    used = 1 + k;
                    proof {
                        emitted = seq![ch];
                        assert(escape_step(rem) == (EscStep::Emit {
                            chars: emitted,
                            used: 1 + k as int,
                        }));
                    }
                }
            } else if c1 == 'x' {
                if n - i < 4 {
                    bad = true;
                    proof {
                        assert(escape_step(rem) is Malformed);
                    }
                } else {
                    proof {
                        lemma_hex_value_shift(rem, s@, 2, i + 2, 2);
                    }
                    match read_hex(s, i + 2, 2) {
                        Some(v) => {
                            proof {
                                assert(all_hex(rem, 2, 2));
                                lemma_hex_value_bound(rem, 2, 2);
                                lemma_pow16_vals();
                                assert(hex_value(rem, 2, 2) < 0x100);
                                assert(v == (hex_value(rem, 2, 2) as u32));
                                assert(v <= 255);
                                assert(is_scalar(v));
                            }
                            let ch = match char::from_u32(v) {
                                Some(ch) => ch,
                                None => {
                                    proof {
                                        assert(false);
                                    }
                                    ' '
                                },
                            };
                            emit = Some(ch);
                            used = 4;
                            proof {
                                emitted = seq![ch];
                                assert(escape_step(rem) == (EscStep::Emit {
                                    chars: emitted,
                                    used: 4int,
                                }));
                            }
                        },
                        None => {
                            bad = true;
                            proof {
                                assert(!all_hex(rem, 2, 2));
                                assert(escape_step(rem) is Malformed);
                            }
                        },
                    }
                }
            } else if c1 == 'u' {
                if n - i < 6 {
                    bad = true;
                    proof {
                        assert(escape_step(rem) is Malformed);
                    }
                } else {
                    proof {
                        lemma_hex_value_shift(rem, s@, 2, i + 2, 4);
                    }
                    match read_hex(s, i + 2, 4) {
                        Some(v) => {
                            proof {
                                assert(all_hex(rem, 2, 4));
                                lemma_hex_value_bound(rem, 2, 4);
                                lemma_pow16_mono(4, 8);
                                lemma_pow16_vals();
                                assert(v == (hex_value(rem, 2, 4) as u32));
                            }
                            match char::from_u32(v) {
                                Some(ch) => {
                                    emit = Some(ch);
                                    used = 6;
                                    proof {
                                        assert(is_scalar(v));
                                        emitted = seq![ch];
                                        assert(escape_step(rem) == (EscStep::Emit {
                                            chars: emitted,
                                            used: 6int,
                                        }));
                                    }
                                },
                                None => {
                                    bad = true;
                                    proof {
                                        assert(!is_scalar(v));
                                        assert(escape_step(rem) is Malformed);
                                    }
                                },
                            }
                        },
                        None => {
                            bad = true;
                            proof {
                                assert(!all_hex(rem, 2, 4));
                                assert(escape_step(rem) is Malformed);
                            }
                        },
                    }
                }
            } else if c1 == 'U' {
                if n - i < 10 {
                    bad = true;
                    proof {
                        assert(escape_step(rem) is Malformed);
                    }
                } else {
                    proof {
                        lemma_hex_value_shift(rem, s@, 2, i + 2, 8);
                    }
                    match read_hex(s, i + 2, 8) {
                        Some(v) => {
                            proof {
                                assert(all_hex(rem, 2, 8));
                                lemma_hex_value_bound(rem, 2, 8);
                                lemma_pow16_vals();
                                assert(v == (hex_value(rem, 2, 8) as u32));
                            }
                            match char::from_u32(v) {
                                Some(ch) => {
                                    emit = Some(ch);
                                    used = 10;
                                    proof {
                                        assert(is_scalar(v));
                                        emitted = seq![ch];
                                        assert(escape_step(rem) == (EscStep::Emit {
                                            chars: emitted,
                                            used: 10int,
                                        }));
                                    }
                                },
                                None => {
                                    bad = true;
                                    proof {
                                        assert(!is_scalar(v));
                                        assert(escape_step(rem) is Malformed);
                                    }
                                },
                            }
                        },
                        None => {
                            bad = true;
                            proof {
                                assert(!all_hex(rem, 2, 8));
                                assert(escape_step(rem) is Malformed);
                            }
                        },
                    }
                }
            } else {
                bad = true;
                proof {
                    assert(escape_step(rem) is Malformed);
                }
            }
            if bad {
                if strict {
                    proof {
                        assert(spec_unescape(rem, strict) is None);
                    }
                    return None;
                }
                out.push('\\');
                proof {
                    lemma_glue(s@, i as int, 1, out_old, seq!['\\'], strict);
                    assert(out@ =~= out_old + seq!['\\']);
                }
                i = i + 1;
            } else {
                match emit {
                    Some(ch) => {
                        out.push(ch);
                        proof {
                            assert(out@ =~= out_old + emitted);
                        }
                    },
                    None => {
                        proof {
                            assert(out@ =~= out_old + emitted);
                        }
                    },
                }
                proof {
                    lemma_glue(s@, i as int, used as int, out_old, emitted, strict);
                }
                i = i + used;
            }
        }
    }
    proof {
        assert(s@.skip(i as int).len() == 0);
        assert(spec_unescape(s@.skip(i as int), strict) == Some(Seq::<char>::empty()));
        assert(out@ + Seq::<char>::empty() =~= out@);
    }
    Some(out)
}

/// In non-strict mode the escape decoder never fails: every malformed
/// sequence degrades to literal text.
pub proof fn lemma_unescape_non_strict_total(s: Seq<char>)
    ensures
        spec_unescape(s, false) is Some,
    decreases s.len(),
{
    if s.len() == 0 {
    } else if s[0] != '\\' {
        lemma_unescape_non_strict_total(s.skip(1));
    } else {
        match escape_step(s) {
            EscStep::Truncated => {},
            EscStep::Emit { chars, used } => {
                lemma_unescape_non_strict_total(s.skip(used));
            },
            EscStep::Malformed => {
                lemma_unescape_non_strict_total(s.skip(1));
            },
        }
    }
}

/// Truncated and malformed escapes in non-strict mode fall back to the
/// literal backslash, and scanning continues right after it.
pub proof fn lemma_unescape_malformed_fallback(s: Seq<char>)
    requires
        s.len() >= 1,
        s[0] == '\\',
        escape_step(s) is Malformed,
    ensures
        spec_unescape(s, false) == Some(
            seq!['\\'] + spec_unescape(s.skip(1), false).unwrap(),
        ),
        spec_unescape(s, false).unwrap()[0] == '\\',
{
    lemma_unescape_non_strict_total(s.skip(1));
}

} // verus!
