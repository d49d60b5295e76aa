//! The header collection: an ordered list of name/value pairs with unique
//! names, standing in for an unordered map in the wire text.

use vstd::prelude::*;

verus! {

/// Look up `key` among `pairs`, returning the value of its first occurrence.
pub open spec fn header_lookup(
    pairs: Seq<(Seq<char>, Seq<char>)>,
    key: Seq<char>,
) -> Option<Seq<char>>
    decreases pairs.len(),
{
    if pairs.len() == 0 {
        None
    } else if pairs[0].0 == key {
        Some(pairs[0].1)
    } else {
        header_lookup(pairs.drop_first(), key)
    }
}

/// Replace the value of the first pair named `key`, or append a new pair.
pub open spec fn header_insert(
    pairs: Seq<(Seq<char>, Seq<char>)>,
    key: Seq<char>,
    value: Seq<char>,
) -> Seq<(Seq<char>, Seq<char>)>
    decreases pairs.len(),
{
    if pairs.len() == 0 {
        seq![(key, value)]
    } else if pairs[0].0 == key {
        seq![(key, value)] + pairs.drop_first()
    } else {
        seq![pairs[0]] + header_insert(pairs.drop_first(), key, value)
    }
}

/// No two pairs share a name.
pub open spec fn unique_keys(pairs: Seq<(Seq<char>, Seq<char>)>) -> bool {
    forall|i: int, j: int| 0 <= i < j < pairs.len() ==> pairs[i].0 != pairs[j].0
}

/// A map from header names to values.
///
/// Names are unique; the order of first insertion is kept, so serialization
/// is deterministic, but nothing semantic hangs on it.
#[derive(Debug, Clone)]
pub struct Headers {
    entries: Vec<(String, String)>,
}

impl View for Headers {
    type V = Seq<(Seq<char>, Seq<char>)>;

    closed spec fn view(&self) -> Seq<(Seq<char>, Seq<char>)> {
        Seq::new(self.entries@.len(), |i: int| (self.entries@[i].0@, self.entries@[i].1@))
    }
}

impl Headers {
    /// An empty collection.
    pub fn new() -> (r: Headers)
        ensures
            r@ == Seq::<(Seq<char>, Seq<char>)>::empty(),
    {
        let r = Headers { entries: Vec::new() };
        proof {
            assert(r@ =~= Seq::<(Seq<char>, Seq<char>)>::empty());
        }
        r
    }

    /// How many headers are stored.
    pub fn len(&self) -> (n: usize)
        ensures
            n == self@.len(),
    {
        self.entries.len()
    }

    /// The name and value of the header at position `i`.
    pub fn entry(&self, i: usize) -> (r: (&String, &String))
        requires
            i < self@.len(),
        ensures
            r.0@ == self@[i as int].0,
            r.1@ == self@[i as int].1,
    {
        let e = &self.entries[i];
        (&e.0, &e.1)
    }

    /// The value stored under `key`, if any.
    pub fn get(&self, key: &str) -> (r: Option<&String>)
        ensures
            match r {
                Some(v) => header_lookup(self@, key@) == Some(v@),
                None => header_lookup(self@, key@) is None,
            },
    {
        let n = self.entries.len();
        let mut i: usize = 0;
        proof {
            assert(self@.skip(0) =~= self@);
        }
        while i < n
            invariant
                n == self@.len(),
                n == self.entries@.len(),
                i <= n,
                header_lookup(self@, key@) == header_lookup(self@.skip(i as int), key@),
            decreases n - i,
        {
            proof {
                assert(self@.skip(i as int)[0] == self@[i as int]);
                assert(self@.skip(i as int).drop_first() =~= self@.skip(i as int + 1));
            }
            if crate::text::str_eq(self.entries[i].0.as_str(), key) {
                return Some(&self.entries[i].1);
            }
            i += 1;
        }
        proof {
            assert(self@.skip(n as int).len() == 0);
        }
        None
    }

    /// Store `value` under `key`, replacing any earlier value.
    ///
    /// Keeps the names unique: an inserted pair never duplicates a name.
    pub fn insert(&mut self, key: &str, value: &str)
        ensures
            final(self)@ == header_insert(old(self)@, key@, value@),
            unique_keys(old(self)@) ==> unique_keys(final(self)@),
    {
        let ghost orig = self@;
        let n = self.entries.len();
        let mut i: usize = 0;
        while i < n
            invariant
                n == self@.len(),
                n == self.entries@.len(),
                i <= n,
                self@ == orig,
                old(self)@ == orig,
                forall|j: int| 0 <= j < i ==> orig[j].0 != key@,
            decreases n - i,
        {
            if crate::text::str_eq(self.entries[i].0.as_str(), key) {
                let pair = (String::from_str(key), String::from_str(value));
                self.entries.set(i, pair);
                proof {
                    assert(self@ =~= orig.update(i as int, (key@, value@)));
                    lemma_insert_found(orig, key@, value@, i as int);
                    if unique_keys(orig) {
                        assert forall|p: int, q: int| 0 <= p < q < self@.len() implies self@[p].0
                            != self@[q].0 by {
                            assert(orig[i as int].0 == key@);
                        }
                    }
                }
                return ;
            }
            i += 1;
        }
        let pair = (String::from_str(key), String::from_str(value));
        self.entries.push(pair);
        proof {
            assert(self@ =~= orig.push((key@, value@)));
            lemma_insert_missing(orig, key@, value@);
            if unique_keys(orig) {
                assert(unique_keys(self@));
            }
        }
    }
}

/// When `key` is absent from `pairs`, inserting appends the new pair.
pub proof fn lemma_insert_missing(pairs: Seq<(Seq<char>, Seq<char>)>, key: Seq<char>, value: Seq<char>)
    requires
        forall|j: int| 0 <= j < pairs.len() ==> pairs[j].0 != key,
    ensures
        header_insert(pairs, key, value) =~= pairs.push((key, value)),
    decreases pairs.len(),
{
    if pairs.len() > 0 {
        assert(forall|j: int|
            0 <= j < pairs.drop_first().len() ==> pairs.drop_first()[j] == pairs[j + 1]);
        lemma_insert_missing(pairs.drop_first(), key, value);
    }
}

/// When position `i` holds the first occurrence of `key`, inserting updates it.
proof fn lemma_insert_found(
    pairs: Seq<(Seq<char>, Seq<char>)>,
    key: Seq<char>,
    value: Seq<char>,
    i: int,
)
    requires
        0 <= i < pairs.len(),
        pairs[i].0 == key,
        forall|j: int| 0 <= j < i ==> pairs[j].0 != key,
    ensures
        header_insert(pairs, key, value) =~= pairs.update(i, (key, value)),
    decreases pairs.len(),
{
    if i == 0 {
        assert(header_insert(pairs, key, value) =~= pairs.update(0, (key, value)));
    } else {
        assert(forall|j: int|
            0 <= j < pairs.drop_first().len() ==> pairs.drop_first()[j] == pairs[j + 1]);
        lemma_insert_found(pairs.drop_first(), key, value, i - 1);
        assert(header_insert(pairs, key, value) =~= seq![pairs[0]] + pairs.drop_first().update(
            i - 1,
            (key, value),
        ));
    }
}

} // verus!
