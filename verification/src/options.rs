//! The options of one playlist entry: an ordered map from option key to
//! option value. A key occurs once; a new key goes to the end, and a new
//! value for a known key takes the place of the old one.

use vstd::prelude::*;

verus! {

/// No key occurs at two places.
pub open spec fn distinct_keys(opts: Seq<(Seq<char>, Seq<char>)>) -> bool {
    forall|i: int, j: int| 0 <= i < j < opts.len() ==> opts[i].0 != opts[j].0
}

/// `i` is the first place at which `key` occurs.
pub open spec fn is_position(opts: Seq<(Seq<char>, Seq<char>)>, key: Seq<char>, i: int) -> bool {
    &&& 0 <= i < opts.len()
    &&& opts[i].0 == key
    &&& forall|j: int| 0 <= j < i ==> opts[j].0 != key
}

/// The first place at which `key` occurs, if it occurs.
pub open spec fn position(opts: Seq<(Seq<char>, Seq<char>)>, key: Seq<char>) -> Option<int> {
    if exists|i: int| is_position(opts, key, i) {
        Some(choose|i: int| is_position(opts, key, i))
    } else {
        None
    }
}

/// The value that `key` has, if it has one.
pub open spec fn value_of(opts: Seq<(Seq<char>, Seq<char>)>, key: Seq<char>) -> Option<Seq<char>> {
    match position(opts, key) {
        Some(i) => Some(opts[i].1),
        None => None,
    }
}

/// The options after `key` is given `value`: in place where the key is
/// known, at the end where it is new.
pub open spec fn put(opts: Seq<(Seq<char>, Seq<char>)>, key: Seq<char>, value: Seq<char>) -> Seq<
    (Seq<char>, Seq<char>),
> {
    match position(opts, key) {
        Some(i) => opts.update(i, (key, value)),
        None => opts.push((key, value)),
    }
}

/// The options as a map, without their order.
pub open spec fn as_map(opts: Seq<(Seq<char>, Seq<char>)>) -> Map<Seq<char>, Seq<char>> {
    Map::new(|k: Seq<char>| position(opts, k) is Some, |k: Seq<char>| value_of(opts, k)->0)
}

/// The views of a vector of pairs of strings.
pub open spec fn pairs(v: Seq<(String, String)>) -> Seq<(Seq<char>, Seq<char>)> {
    Seq::new(v.len(), |i: int| (v[i].0@, v[i].1@))
}

/// A place with the properties of the first one is the first one.
pub proof fn lemma_position_is(opts: Seq<(Seq<char>, Seq<char>)>, key: Seq<char>, i: int)
    requires
        is_position(opts, key, i),
    ensures
        position(opts, key) == Some(i),
{
    let k = choose|k: int| is_position(opts, key, k);
    assert(is_position(opts, key, k));
    if k < i {
        assert(opts[k].0 != key);
    } else if i < k {
        assert(opts[i].0 != key);
    }
}

/// A key that occurs nowhere has no place.
pub proof fn lemma_position_none(opts: Seq<(Seq<char>, Seq<char>)>, key: Seq<char>)
    requires
        forall|j: int| 0 <= j < opts.len() ==> opts[j].0 != key,
    ensures
        position(opts, key) is None,
{
}

/// Giving a key a value keeps the keys distinct.
pub proof fn lemma_put_distinct(opts: Seq<(Seq<char>, Seq<char>)>, key: Seq<char>, value: Seq<char>)
    requires
        distinct_keys(opts),
    ensures
        distinct_keys(put(opts, key, value)),
{
    let after = put(opts, key, value);
    match position(opts, key) {
        Some(i) => {
            assert(is_position(opts, key, i));
            assert forall|a: int, b: int| 0 <= a < b < after.len() implies after[a].0
                != after[b].0 by {
                assert(opts[a].0 != opts[b].0);
            }
        },
        None => {
            assert forall|a: int, b: int| 0 <= a < b < after.len() implies after[a].0
                != after[b].0 by {
                if b < opts.len() {
                    assert(opts[a].0 != opts[b].0);
                } else if after[a].0 == key {
                    lemma_has_position(opts, key, a);
                }
            }
        },
    }
}

/// A key that occurs somewhere has a first place.
pub proof fn lemma_has_position(opts: Seq<(Seq<char>, Seq<char>)>, key: Seq<char>, j: int)
    requires
        0 <= j < opts.len(),
        opts[j].0 == key,
    ensures
        position(opts, key) is Some,
    decreases j,
{
    if exists|k: int| 0 <= k < j && opts[k].0 == key {
        let k = choose|k: int| 0 <= k < j && opts[k].0 == key;
        lemma_has_position(opts, key, k);
    } else {
        assert(is_position(opts, key, j));
    }
}

/// As a map, giving a key a value is the map's own insertion.
pub proof fn lemma_put_is_insert(
    opts: Seq<(Seq<char>, Seq<char>)>,
    key: Seq<char>,
    value: Seq<char>,
)
    ensures
        as_map(put(opts, key, value)) == as_map(opts).insert(key, value),
{
    let after = put(opts, key, value);
    assert forall|k: Seq<char>| position(after, k) is Some <==> (k == key || position(
        opts,
        k,
    ) is Some) by {
        lemma_put_position(opts, key, value, k);
    }
    assert forall|k: Seq<char>| position(after, k) is Some implies value_of(after, k) == Some(
        if k == key {
            value
        } else {
            value_of(opts, k)->0
        },
    ) by {
        lemma_put_position(opts, key, value, k);
    }
    assert(as_map(after) =~= as_map(opts).insert(key, value));
}

/// Where a key stands after another key, or the same, was given a value.
proof fn lemma_put_position(
    opts: Seq<(Seq<char>, Seq<char>)>,
    key: Seq<char>,
    value: Seq<char>,
    k: Seq<char>,
)
    ensures
        position(put(opts, key, value), k) is Some <==> (k == key || position(opts, k) is Some),
        k == key ==> value_of(put(opts, key, value), k) == Some(value),
        k != key ==> value_of(put(opts, key, value), k) == value_of(opts, k),
{
    let after = put(opts, key, value);
    match position(opts, key) {
        Some(i) => {
            assert(is_position(opts, key, i));
            if k == key {
                assert(is_position(after, k, i));
                lemma_position_is(after, k, i);
            } else {
                match position(opts, k) {
                    Some(j) => {
                        assert(is_position(opts, k, j));
                        assert(is_position(after, k, j));
                        lemma_position_is(after, k, j);
                    },
                    None => {
                        assert forall|j: int| 0 <= j < after.len() implies after[j].0 != k by {
                            if after[j].0 == k {
                                lemma_has_position(opts, k, j);
                            }
                        }
                        lemma_position_none(after, k);
                    },
                }
            }
        },
        None => {
            assert forall|j: int| 0 <= j < opts.len() implies opts[j].0 != key by {
                if opts[j].0 == key {
                    lemma_has_position(opts, key, j);
                }
            }
            if k == key {
                assert(is_position(after, k, opts.len() as int));
                lemma_position_is(after, k, opts.len() as int);
            } else {
                match position(opts, k) {
                    Some(j) => {
                        assert(is_position(opts, k, j));
                        assert(is_position(after, k, j));
                        lemma_position_is(after, k, j);
                    },
                    None => {
                        assert forall|j: int| 0 <= j < after.len() implies after[j].0 != k by {
                            if j < opts.len() && opts[j].0 == k {
                                lemma_has_position(opts, k, j);
                            }
                        }
                        lemma_position_none(after, k);
                    },
                }
            }
        },
    }
}

/// The options of an entry, in the order in which their keys were first set.
#[derive(Debug)]
pub struct VlcOptions {
    entries: Vec<(String, String)>,
}

impl View for VlcOptions {
    type V = Seq<(Seq<char>, Seq<char>)>;

    closed spec fn view(&self) -> Seq<(Seq<char>, Seq<char>)> {
        pairs(self.entries@)
    }
}

impl VlcOptions {
    #[verifier::type_invariant]
    spec fn keys_are_distinct(self) -> bool {
        distinct_keys(pairs(self.entries@))
    }

    /// No options.
    pub fn new() -> (r: Self)
        ensures
            r@ == Seq::<(Seq<char>, Seq<char>)>::empty(),
    {
        let r = VlcOptions { entries: Vec::new() };
        assert(r@ =~= Seq::<(Seq<char>, Seq<char>)>::empty());
        r
    }

    /// The number of options.
    pub fn len(&self) -> (n: usize)
        ensures
            n == self@.len(),
    {
        self.entries.len()
    }

    /// Whether there is no option.
    pub fn is_empty(&self) -> (r: bool)
        ensures
            r == (self@.len() == 0),
    {
        self.entries.len() == 0
    }

    /// The options in order, each a key and its value.
    pub fn entries(&self) -> (r: &Vec<(String, String)>)
        ensures
            pairs(r@) == self@,
            distinct_keys(self@),
    {
        proof {
            use_type_invariant(self);
        }
        &self.entries
    }

    /// The value of `key`, if the key is set.
    pub fn get(&self, key: &str) -> (r: Option<&String>)
        ensures
            match r {
                Some(v) => value_of(self@, key@) == Some(v@),
                None => value_of(self@, key@) is None,
            },
    {
        let wanted = key.to_owned();
        let mut i: usize = 0;
        while i < self.entries.len()
            invariant
                i <= self.entries.len(),
                wanted@ == key@,
                forall|j: int| 0 <= j < i ==> pairs(self.entries@)[j].0 != key@,
            decreases self.entries.len() - i,
        {
            if self.entries[i].0 == wanted {
                proof {
                    lemma_position_is(self@, key@, i as int);
                }
                return Some(&self.entries[i].1);
            }
            i += 1;
        }
        proof {
            lemma_position_none(self@, key@);
        }
        None
    }

    /// Gives `key` the value `value`, and returns the value it had.
    #[verifier::loop_isolation(false)]
    pub fn insert(&mut self, key: String, value: String) -> (r: Option<String>)
        ensures
            final(self)@ == put(old(self)@, key@, value@),
            match r {
                Some(v) => value_of(old(self)@, key@) == Some(v@),
                None => value_of(old(self)@, key@) is None,
            },
    {
        proof {
            use_type_invariant(&*self);
            lemma_put_distinct(self@, key@, value@);
        }
        let mut entries: Vec<(String, String)> = Vec::new();
        std::mem::swap(&mut entries, &mut self.entries);
        let ghost before = pairs(entries@);
        let mut i: usize = 0;
        while i < entries.len()
            invariant
                i <= entries.len(),
                pairs(entries@) == before,
                forall|j: int| 0 <= j < i ==> before[j].0 != key@,
            decreases entries.len() - i,
        {
            if entries[i].0 == key {
                proof {
                    lemma_position_is(before, key@, i as int);
                }
                let previous = entries.remove(i);
                entries.insert(i, (key, value));
                assert(pairs(entries@) =~= put(before, key@, value@));
                self.entries = entries;
                return Some(previous.1);
            }
            i += 1;
        }
        proof {
            lemma_position_none(before, key@);
        }
        entries.push((key, value));
        assert(pairs(entries@) =~= put(before, key@, value@));
        self.entries = entries;
        None
    }
}

impl Clone for VlcOptions {
    fn clone(&self) -> (r: Self)
        ensures
            r@ == self@,
    {
        proof {
            use_type_invariant(self);
        }
        let mut entries: Vec<(String, String)> = Vec::new();
        let mut i: usize = 0;
        while i < self.entries.len()
            invariant
                i <= self.entries.len(),
                entries@ == self.entries@.take(i as int),
            decreases self.entries.len() - i,
        {
            entries.push((self.entries[i].0.clone(), self.entries[i].1.clone()));
            i += 1;
        }
        assert(entries@ =~= self.entries@);
        VlcOptions { entries }
    }
}

impl Default for VlcOptions {
    fn default() -> (r: Self)
        ensures
            r@ == Seq::<(Seq<char>, Seq<char>)>::empty(),
    {
        VlcOptions::new()
    }
}

} // verus!
