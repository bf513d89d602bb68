//! Variable sinks and sources: the in-memory variable map the parser fills,
//! the empty source, the handle for the process environment, and parsing of
//! boolean configuration values.

use vstd::prelude::*;

use crate::chars::seq_eq_ignore_ascii_case;
use crate::chars::str_eq;
use crate::chars::str_eq_ignore_ascii_case;
use crate::encoding::spec_encoding_of_name;
use crate::encoding::Encoding;
use crate::Error;

verus! {

/// The value stored under a key: the value of the first entry whose key
/// matches, if any.
pub open spec fn env_lookup(s: Seq<(Seq<char>, Seq<char>)>, k: Seq<char>) -> Option<Seq<char>>
    decreases s.len(),
{
    if s.len() == 0 {
        None
    } else if s[0].0 == k {
        Some(s[0].1)
    } else {
        env_lookup(s.skip(1), k)
    }
}

/// Storing a pair: the first entry with the same key is replaced, or the
/// pair is appended.
pub open spec fn env_set(
    s: Seq<(Seq<char>, Seq<char>)>,
    k: Seq<char>,
    v: Seq<char>,
) -> Seq<(Seq<char>, Seq<char>)>
    decreases s.len(),
{
    if s.len() == 0 {
        seq![(k, v)]
    } else if s[0].0 == k {
        seq![(k, v)] + s.skip(1)
    } else {
        seq![s[0]] + env_set(s.skip(1), k, v)
    }
}

/// One delivery to the sink: the pair is stored unless the key is already
/// present and overriding is off.
pub open spec fn env_step(
    s: Seq<(Seq<char>, Seq<char>)>,
    k: Seq<char>,
    v: Seq<char>,
    override_env: bool,
) -> Seq<(Seq<char>, Seq<char>)> {
    if override_env || env_lookup(s, k) is None {
        env_set(s, k, v)
    } else {
        s
    }
}

/// Delivering a whole stream of pairs to the sink, in order.
pub open spec fn apply_pairs(
    s: Seq<(Seq<char>, Seq<char>)>,
    pairs: Seq<(Seq<char>, Seq<char>)>,
    override_env: bool,
) -> Seq<(Seq<char>, Seq<char>)>
    decreases pairs.len(),
{
    if pairs.len() == 0 {
        s
    } else {
        apply_pairs(env_step(s, pairs[0].0, pairs[0].1, override_env), pairs.skip(1), override_env)
    }
}

/// Delivering one more pair continues from the state the earlier pairs
/// produced.
pub proof fn lemma_apply_pairs_snoc(
    s: Seq<(Seq<char>, Seq<char>)>,
    pairs: Seq<(Seq<char>, Seq<char>)>,
    k: Seq<char>,
    v: Seq<char>,
    override_env: bool,
)
    ensures
        apply_pairs(s, pairs.push((k, v)), override_env) == env_step(
            apply_pairs(s, pairs, override_env),
            k,
            v,
            override_env,
        ),
    decreases pairs.len(),
{
    let pushed = pairs.push((k, v));
    if pairs.len() == 0 {
        assert(pushed.skip(1) =~= Seq::<(Seq<char>, Seq<char>)>::empty());
        assert(pushed[0] == (k, v));
        assert(apply_pairs(s, pushed, override_env) == apply_pairs(
            env_step(s, k, v, override_env),
            pushed.skip(1),
            override_env,
        ));
        assert(apply_pairs(env_step(s, k, v, override_env), pushed.skip(1), override_env)
            == env_step(s, k, v, override_env));
        assert(apply_pairs(s, pairs, override_env) == s);
    } else {
        assert(pushed.skip(1) =~= pairs.skip(1).push((k, v)));
        assert(pushed[0] == pairs[0]);
        let s1 = env_step(s, pairs[0].0, pairs[0].1, override_env);
        assert(apply_pairs(s, pushed, override_env) == apply_pairs(
            s1,
            pairs.skip(1).push((k, v)),
            override_env,
        ));
        lemma_apply_pairs_snoc(s1, pairs.skip(1), k, v, override_env);
        assert(apply_pairs(s, pairs, override_env) == apply_pairs(
            s1,
            pairs.skip(1),
            override_env,
        ));
    }
}

/// The boolean read from a configuration value: `true`/`1` and `false`/`0`,
/// case-insensitively; anything else is unrecognized.
pub open spec fn spec_parse_bool(s: Seq<char>) -> Option<bool> {
    if seq_eq_ignore_ascii_case(s, "true"@) || s == "1"@ {
        Some(true)
    } else if seq_eq_ignore_ascii_case(s, "false"@) || s == "0"@ {
        Some(false)
    } else {
        None
    }
}

/// Reads a boolean configuration value.
pub fn parse_bool(value: &str) -> (r: Option<bool>)
    ensures
        r == spec_parse_bool(value@),
{
    if str_eq_ignore_ascii_case(value, "true") || str_eq(value, "1") {
        Some(true)
    } else if str_eq_ignore_ascii_case(value, "false") || str_eq(value, "0") {
        Some(false)
    } else {
        None
    }
}

/// A variable source that holds nothing.
#[derive(Clone, Copy, Debug, PartialEq, Eq, Structural)]
pub struct EmptyEnv();

impl EmptyEnv {
    pub fn new() -> (r: Self)
        ensures
            r == (EmptyEnv()),
    {
        EmptyEnv()
    }

    /// No key is ever present.
    pub fn get(&self, key: &str) -> (r: Option<String>)
        ensures
            r is None,
    {
        None
    }
}

/// A handle for the variable store of the operating process.  Reading and
/// writing that store is left to the host application; the library only
/// passes the handle through.
#[derive(Clone, Copy, Debug, PartialEq, Eq, Structural)]
pub struct SystemEnv();

impl SystemEnv {
    pub fn new() -> (r: Self)
        ensures
            r == (SystemEnv()),
    {
        SystemEnv()
    }
}

/// An in-memory variable map, the sink the parser fills: entries in
/// insertion order, keys unique.
pub struct EnvMap {
    entries: Vec<(String, String)>,
}

impl View for EnvMap {
    type V = Seq<(Seq<char>, Seq<char>)>;

    closed spec fn view(&self) -> Seq<(Seq<char>, Seq<char>)> {
        self.entries@.map_values(|p: (String, String)| (p.0@, p.1@))
    }
}

/// First match at `i`: looking a key up finds that entry's value.
proof fn lemma_env_lookup_at(s: Seq<(Seq<char>, Seq<char>)>, k: Seq<char>, i: int)
    requires
        0 <= i < s.len(),
        s[i].0 == k,
        forall|j: int| 0 <= j < i ==> (#[trigger] s[j]).0 != k,
    ensures
        env_lookup(s, k) == Some(s[i].1),
    decreases i,
{
    if i == 0 {
    } else {
        assert(s[0].0 != k);
        lemma_env_lookup_at(s.skip(1), k, i - 1);
        assert(s.skip(1)[i - 1] == s[i]);
    }
}

/// No match anywhere: looking the key up finds nothing.
proof fn lemma_env_lookup_none(s: Seq<(Seq<char>, Seq<char>)>, k: Seq<char>)
    requires
        forall|j: int| 0 <= j < s.len() ==> (#[trigger] s[j]).0 != k,
    ensures
        env_lookup(s, k) is None,
    decreases s.len(),
{
    if s.len() > 0 {
        lemma_env_lookup_none(s.skip(1), k);
    }
}

/// First match at `i`: storing the key updates that entry in place.
proof fn lemma_env_set_update(s: Seq<(Seq<char>, Seq<char>)>, k: Seq<char>, v: Seq<char>, i: int)
    requires
        0 <= i < s.len(),
        s[i].0 == k,
        forall|j: int| 0 <= j < i ==> (#[trigger] s[j]).0 != k,
    ensures
        env_set(s, k, v) == s.update(i, (k, v)),
    decreases i,
{
    if i == 0 {
        assert(seq![(k, v)] + s.skip(1) =~= s.update(0, (k, v)));
    } else {
        assert(s[0].0 != k);
        lemma_env_set_update(s.skip(1), k, v, i - 1);
        assert(s.skip(1)[i - 1] == s[i]);
        assert(seq![s[0]] + s.skip(1).update(i - 1, (k, v)) =~= s.update(i, (k, v)));
    }
}

/// No match anywhere: storing the key appends a new entry.
proof fn lemma_env_set_append(s: Seq<(Seq<char>, Seq<char>)>, k: Seq<char>, v: Seq<char>)
    requires
        forall|j: int| 0 <= j < s.len() ==> (#[trigger] s[j]).0 != k,
    ensures
        env_set(s, k, v) == s.push((k, v)),
    decreases s.len(),
{
    if s.len() == 0 {
        assert(seq![(k, v)] =~= s.push((k, v)));
    } else {
        lemma_env_set_append(s.skip(1), k, v);
        assert(seq![s[0]] + s.skip(1).push((k, v)) =~= s.push((k, v)));
    }
}

impl EnvMap {
    /// Keys are pairwise distinct.
    pub open spec fn wf(&self) -> bool {
        forall|a: int, b: int|
            0 <= a < b < self@.len() ==> (#[trigger] self@[a]).0 != (#[trigger] self@[b]).0
    }

    /// An empty map.
    pub fn new() -> (r: Self)
        ensures
            r@ == Seq::<(Seq<char>, Seq<char>)>::empty(),
            r.wf(),
    {
        let r = EnvMap { entries: Vec::new() };
        proof {
            assert(r@ =~= Seq::<(Seq<char>, Seq<char>)>::empty());
        }
        r
    }

    /// The count of entries.
    pub fn len(&self) -> (r: usize)
        ensures
            r == self@.len(),
    {
        self.entries.len()
    }

    /// The key and value at one position, in insertion order.
    pub fn entry_at(&self, i: usize) -> (r: (String, String))
        requires
            i < self@.len(),
        ensures
            (r.0@, r.1@) == self@[i as int],
    {
        let p = &self.entries[i];
        (p.0.clone(), p.1.clone())
    }

    /// The position of the entry holding `key`, if any.
    fn find_key(&self, key: &str) -> (r: Option<usize>)
        ensures
            match r {
                Some(i) => i < self@.len() && self@[i as int].0 == key@ && forall|j: int|
                    0 <= j < i ==> (#[trigger] self@[j]).0 != key@,
                None => forall|j: int| 0 <= j < self@.len() ==> (#[trigger] self@[j]).0 != key@,
            },
    {
        let n = self.entries.len();
        let mut i: usize = 0;
        while i < n
            invariant
                i <= n,
                n == self@.len(),
                forall|j: int| 0 <= j < i ==> (#[trigger] self@[j]).0 != key@,
            decreases n - i,
        {
            if str_eq(self.entries[i].0.as_str(), key) {
                return Some(i);
            }
            i = i + 1;
        }
        None
    }

    /// The value stored under `key`, if any.
    pub fn get(&self, key: &str) -> (r: Option<String>)
        ensures
            match env_lookup(self@, key@) {
                Some(v) => r matches Some(s) && s@ == v,
                None => r is None,
            },
    {
        match self.find_key(key) {
            Some(i) => {
                proof {
                    lemma_env_lookup_at(self@, key@, i as int);
                }
                Some(self.entries[i].1.clone())
            },
            None => {
                proof {
                    lemma_env_lookup_none(self@, key@);
                }
                None
            },
        }
    }

    /// Stores a pair: replaces the value of an existing key in place, else
    /// appends the pair.
    pub fn set(&mut self, key: &str, value: &str)
        ensures
            final(self)@ == env_set(old(self)@, key@, value@),
            old(self).wf() ==> final(self).wf(),
    {
        let ks = String::from_str(key);
        let vs = String::from_str(value);
        match self.find_key(key) {
            Some(i) => {
                proof {
                    lemma_env_set_update(self@, key@, value@, i as int);
                }
                self.entries.set(i, (ks, vs));
                proof {
                    assert(self@ =~= old(self)@.update(i as int, (key@, value@)));
                }
            },
            None => {
                proof {
                    lemma_env_set_append(self@, key@, value@);
                }
                self.entries.push((ks, vs));
                proof {
                    assert(self@ =~= old(self)@.push((key@, value@)));
                }
            },
        }
    }

    /// Delivers one pair under the override policy: an existing key keeps
    /// its value unless overriding is on.
    pub fn set_var(&mut self, key: &str, value: &str, override_env: bool)
        ensures
            final(self)@ == env_step(old(self)@, key@, value@, override_env),
            old(self).wf() ==> final(self).wf(),
    {
        if override_env {
            self.set(key, value);
        } else {
            match self.find_key(key) {
                Some(i) => {
                    proof {
                        lemma_env_lookup_at(self@, key@, i as int);
                    }
                },
                None => {
                    proof {
                        lemma_env_lookup_none(self@, key@);
                    }
                    self.set(key, value);
                },
            }
        }
    }

    /// Reads a boolean configuration value stored under `key`: absent or
    /// empty means the default; `true`/`1` and `false`/`0` are recognized
    /// case-insensitively; anything else is a configuration error.
    pub fn get_bool(&self, key: &str, default_value: bool) -> (r: Result<bool, Error>)
        ensures
            match env_lookup(self@, key@) {
                None => r == Ok::<bool, Error>(default_value),
                Some(v) => {
                    if v.len() == 0 {
                        r == Ok::<bool, Error>(default_value)
                    } else {
                        match spec_parse_bool(v) {
                            Some(b) => r == Ok::<bool, Error>(b),
                            None => r == Err::<bool, Error>(Error::OptionsParse),
                        }
                    }
                },
            },
    {
        match self.get(key) {
            Some(value) => {
                if value.as_str().is_empty() {
                    return Ok(default_value);
                }
                match parse_bool(value.as_str()) {
                    Some(b) => Ok(b),
                    None => Err(Error::OptionsParse),
                }
            },
            None => Ok(default_value),
        }
    }

    /// Whether resolved pairs may replace existing values; off by default.
    pub fn get_override_env(&self) -> (r: Result<bool, Error>)
        ensures
            match env_lookup(self@, "DOTENV_CONFIG_OVERRIDE"@) {
                None => r == Ok::<bool, Error>(false),
                Some(v) => {
                    if v.len() == 0 {
                        r == Ok::<bool, Error>(false)
                    } else {
                        match spec_parse_bool(v) {
                            Some(b) => r == Ok::<bool, Error>(b),
                            None => r == Err::<bool, Error>(Error::OptionsParse),
                        }
                    }
                },
            },
    {
        self.get_bool("DOTENV_CONFIG_OVERRIDE", false)
    }

    /// Whether malformed input aborts the parse; on by default.
    pub fn get_strict(&self) -> (r: Result<bool, Error>)
        ensures
            match env_lookup(self@, "DOTENV_CONFIG_STRICT"@) {
                None => r == Ok::<bool, Error>(true),
                Some(v) => {
                    if v.len() == 0 {
                        r == Ok::<bool, Error>(true)
                    } else {
                        match spec_parse_bool(v) {
                            Some(b) => r == Ok::<bool, Error>(b),
                            None => r == Err::<bool, Error>(Error::OptionsParse),
                        }
                    }
                },
            },
    {
        self.get_bool("DOTENV_CONFIG_STRICT", true)
    }

    /// The declared encoding of the byte stream; UTF-8 by default.
    pub fn get_encoding(&self) -> (r: Result<Encoding, Error>)
        ensures
            match env_lookup(self@, "DOTENV_CONFIG_ENCODING"@) {
                None => r == Ok::<Encoding, Error>(Encoding::UTF8),
                Some(v) => match spec_encoding_of_name(v) {
                    Some(e) => r == Ok::<Encoding, Error>(e),
                    None => r == Err::<Encoding, Error>(Error::OptionsParse),
                },
            },
    {
        match self.get("DOTENV_CONFIG_ENCODING") {
            Some(value) => match Encoding::from_name(value.as_str()) {
                Ok(e) => Ok(e),
                Err(_) => Err(Error::OptionsParse),
            },
            None => Ok(Encoding::UTF8),
        }
    }

    /// The configured path of the file to load, `.env` by default.
    pub fn get_config_path(&self) -> (r: String)
        ensures
            match env_lookup(self@, "DOTENV_CONFIG_PATH"@) {
                Some(v) => r@ == if v.len() == 0 {
                    ".env"@
                } else {
                    v
                },
                None => r@ == ".env"@,
            },
    {
        match self.get("DOTENV_CONFIG_PATH") {
            Some(value) => {
                if value.as_str().is_empty() {
                    String::from_str(".env")
                } else {
                    value
                }
            },
            None => String::from_str(".env"),
        }
    }
}

} // verus!
