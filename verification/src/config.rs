//! Formatting configuration: ordered priority key lists and the key order
//! they induce.
use vstd::prelude::*;
use crate::text::lex_lt;
use crate::text::lex_lt_exec;
use crate::text::bytes_eq;

verus! {

/// The configuration as read by the caller: two ordered priority lists
/// (keys for ordinary tables, keys for inline tables) and the string-array
/// sorting switch.
#[derive(Debug, Clone)]
pub struct Config {
    pub keys: Vec<Vec<u8>>,
    pub inline_keys: Vec<Vec<u8>>,
    pub sort_string_arrays: bool,
}

impl Default for Config {
    /// Empty priority lists; string arrays keep their order.
    fn default() -> (r: Config)
        ensures
            r@.keys == Seq::<Seq<u8>>::empty(),
            r@.inline_keys == Seq::<Seq<u8>>::empty(),
            !r@.sort_string_arrays,
    {
        let r = Config { keys: Vec::new(), inline_keys: Vec::new(), sort_string_arrays: false };
        proof {
            assert(r@.keys =~= Seq::<Seq<u8>>::empty());
            assert(r@.inline_keys =~= Seq::<Seq<u8>>::empty());
        }
        r
    }
}

pub struct ConfigView {
    pub keys: Seq<Seq<u8>>,
    pub inline_keys: Seq<Seq<u8>>,
    pub sort_string_arrays: bool,
}

pub open spec fn names_view(s: Seq<Vec<u8>>) -> Seq<Seq<u8>> {
    s.map_values(|x: Vec<u8>| x@)
}

impl View for Config {
    type V = ConfigView;

    open spec fn view(&self) -> ConfigView {
        ConfigView {
            keys: names_view(self.keys@),
            inline_keys: names_view(self.inline_keys@),
            sort_string_arrays: self.sort_string_arrays,
        }
    }
}

/// Rank of `key` in an ordered priority list: the index of its first
/// occurrence, if any. When a name appears twice, the first occurrence wins.
pub open spec fn rank_of(names: Seq<Seq<u8>>, key: Seq<u8>) -> Option<int>
    decreases names.len(),
{
    if names.len() == 0 {
        None
    } else if names[0] == key {
        Some(0int)
    } else {
        match rank_of(names.subrange(1, names.len() as int), key) {
            None => None,
            Some(r) => Some(r + 1),
        }
    }
}

proof fn lemma_rank_skip(names: Seq<Seq<u8>>, key: Seq<u8>, i: int)
    requires
        0 <= i <= names.len(),
        forall|k: int| 0 <= k < i ==> names[k] != key,
    ensures
        rank_of(names, key) == match rank_of(names.subrange(i, names.len() as int), key) {
            None => None::<int>,
            Some(r) => Some(r + i),
        },
    decreases i,
{
    if i == 0 {
        assert(names.subrange(0, names.len() as int) =~= names);
    }
    if i > 0 {
        assert(names[0] != key);
        let t = names.subrange(1, names.len() as int);
        assert(forall|k: int| 0 <= k < i - 1 ==> t[k] == names[k + 1]);
        lemma_rank_skip(t, key, i - 1);
        assert(t.subrange(i - 1, t.len() as int) =~= names.subrange(i, names.len() as int));
        assert(rank_of(names, key) == match rank_of(t, key) {
            None => None::<int>,
            Some(r) => Some(r + 1),
        });
    }
}

/// A key-name to rank lookup built from one ordered priority list.
#[derive(Debug, Clone)]
pub struct KeyPriorityIndex {
    pub names: Vec<Vec<u8>>,
}

impl View for KeyPriorityIndex {
    type V = Seq<Seq<u8>>;

    open spec fn view(&self) -> Seq<Seq<u8>> {
        names_view(self.names@)
    }
}

impl KeyPriorityIndex {
    /// The configured rank of `key`, if the key is in the priority list.
    pub fn rank(&self, key: &Vec<u8>) -> (r: Option<usize>)
        ensures
            match r {
                Some(i) => rank_of(self@, key@) == Some(i as int),
                None => rank_of(self@, key@) is None,
            },
    {
        let mut i: usize = 0;
        while i < self.names.len()
            invariant
                0 <= i <= self.names@.len(),
                forall|k: int| 0 <= k < i ==> names_view(self.names@)[k] != key@,
            decreases self.names@.len() - i,
        {
            if bytes_eq(&self.names[i], key) {
                proof {
                    lemma_rank_skip(self@, key@, i as int);
                    let t = self@.subrange(i as int, self@.len() as int);
                    assert(t[0] == key@);
                }
                return Some(i);
            }
            i = i + 1;
        }
        proof {
            lemma_rank_skip(self@, key@, i as int);
            assert(self@.subrange(i as int, self@.len() as int).len() == 0);
        }
        None
    }
}

/// Build a rank lookup from an ordered list of key names.
pub fn build_priority_index(names: Vec<Vec<u8>>) -> (r: KeyPriorityIndex)
    ensures
        r@ == names_view(names@),
{
    KeyPriorityIndex { names }
}

/// The key order a priority list induces: priority keys first in rank
/// order, then the rest in byte-lexicographic order.
pub open spec fn key_lt(names: Seq<Seq<u8>>, a: Seq<u8>, b: Seq<u8>) -> bool {
    match (rank_of(names, a), rank_of(names, b)) {
        (Some(i), Some(j)) => i < j,
        (Some(i), None) => true,
        (None, Some(j)) => false,
        (None, None) => lex_lt(a, b),
    }
}

/// The processed configuration handed to every formatting call.
#[derive(Debug, Clone)]
pub struct ProcessedConfig {
    pub keys: KeyPriorityIndex,
    pub inline_keys: KeyPriorityIndex,
    pub sort_string_arrays: bool,
}

impl View for ProcessedConfig {
    type V = ConfigView;

    open spec fn view(&self) -> ConfigView {
        ConfigView {
            keys: self.keys@,
            inline_keys: self.inline_keys@,
            sort_string_arrays: self.sort_string_arrays,
        }
    }
}

impl From<Config> for ProcessedConfig {
    fn from(x: Config) -> (r: ProcessedConfig) {
        ProcessedConfig {
            keys: KeyPriorityIndex { names: x.keys },
            inline_keys: KeyPriorityIndex { names: x.inline_keys },
            sort_string_arrays: x.sort_string_arrays,
        }
    }
}

impl vstd::std_specs::convert::FromSpecImpl<Config> for ProcessedConfig {
    open spec fn obeys_from_spec() -> bool {
        true
    }

    open spec fn from_spec(t: Config) -> ProcessedConfig {
        ProcessedConfig {
            keys: KeyPriorityIndex { names: t.keys },
            inline_keys: KeyPriorityIndex { names: t.inline_keys },
            sort_string_arrays: t.sort_string_arrays,
        }
    }
}

impl ProcessedConfig {
    /// Compare two keys under the ordinary-table priority list.
    pub fn key_lt_table(&self, a: &Vec<u8>, b: &Vec<u8>) -> (r: bool)
        ensures
            r == key_lt(self@.keys, a@, b@),
    {
        match (self.keys.rank(a), self.keys.rank(b)) {
            (Some(i), Some(j)) => i < j,
            (Some(_), None) => true,
            (None, Some(_)) => false,
            (None, None) => lex_lt_exec(a, b),
        }
    }

    /// Compare two keys under the inline-table priority list.
    pub fn key_lt_inline(&self, a: &Vec<u8>, b: &Vec<u8>) -> (r: bool)
        ensures
            r == key_lt(self@.inline_keys, a@, b@),
    {
        match (self.inline_keys.rank(a), self.inline_keys.rank(b)) {
            (Some(i), Some(j)) => i < j,
            (Some(_), None) => true,
            (None, Some(_)) => false,
            (None, None) => lex_lt_exec(a, b),
        }
    }
}

} // verus!
