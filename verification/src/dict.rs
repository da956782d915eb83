//! Dictionaries: maps from string keys to values, kept in key order.
//!
//! Keys are ordered as Rust orders strings, by their UTF-8 bytes.

use vstd::prelude::*;
use vstd::string::*;
use vstd::utf8::{encode_utf8, encode_utf8_decode_utf8};
use crate::value::{Data, Dict, Value, entry_views, views};

verus! {

/// Lexicographic order of byte sequences.
pub open spec fn bytes_lt(a: Seq<u8>, b: Seq<u8>) -> bool
    decreases a.len(),
{
    if b.len() == 0 {
        false
    } else if a.len() == 0 {
        true
    } else if a[0] != b[0] {
        a[0] < b[0]
    } else {
        bytes_lt(a.skip(1), b.skip(1))
    }
}

/// The order of keys.
pub open spec fn key_lt(a: Seq<char>, b: Seq<char>) -> bool {
    bytes_lt(encode_utf8(a), encode_utf8(b))
}

/// Whether each key is smaller than all that follow it.
pub open spec fn sorted_keys(pairs: Seq<(Seq<char>, Data)>) -> bool {
    forall|i: int, j: int| 0 <= i < j < pairs.len() ==> key_lt(#[trigger] pairs[i].0, #[trigger] pairs[j].0)
}

/// The value of the first entry with the given key.
pub open spec fn lookup(pairs: Seq<(Seq<char>, Data)>, key: Seq<char>) -> Option<Data>
    decreases pairs.len(),
{
    if pairs.len() == 0 {
        None
    } else if pairs[0].0 == key {
        Some(pairs[0].1)
    } else {
        lookup(pairs.skip(1), key)
    }
}

/// The entries after `key` has been bound to `value`: the entry with that
/// key is replaced, or a new entry is put in before the first larger key.
pub open spec fn put(pairs: Seq<(Seq<char>, Data)>, key: Seq<char>, value: Data) -> Seq<
    (Seq<char>, Data),
>
    decreases pairs.len(),
{
    if pairs.len() == 0 {
        seq![(key, value)]
    } else if pairs[0].0 == key {
        pairs.update(0, (key, value))
    } else if key_lt(key, pairs[0].0) {
        seq![(key, value)] + pairs
    } else {
        seq![pairs[0]] + put(pairs.skip(1), key, value)
    }
}

/// The keys of the entries, each as a string value.
pub open spec fn key_values(pairs: Seq<(Seq<char>, Data)>) -> Seq<Data> {
    Seq::new(pairs.len(), |i: int| Data::Str(pairs[i].0))
}

/// The values of the entries.
pub open spec fn entry_values(pairs: Seq<(Seq<char>, Data)>) -> Seq<Data> {
    Seq::new(pairs.len(), |i: int| pairs[i].1)
}

pub proof fn lemma_bytes_lt_irreflexive(a: Seq<u8>)
    ensures
        !bytes_lt(a, a),
    decreases a.len(),
{
    if a.len() > 0 {
        lemma_bytes_lt_irreflexive(a.skip(1));
    }
}

pub proof fn lemma_bytes_lt_transitive(a: Seq<u8>, b: Seq<u8>, c: Seq<u8>)
    requires
        bytes_lt(a, b),
        bytes_lt(b, c),
    ensures
        bytes_lt(a, c),
    decreases a.len(),
{
    if a.len() > 0 && a[0] == b[0] && b[0] == c[0] {
        lemma_bytes_lt_transitive(a.skip(1), b.skip(1), c.skip(1));
    }
}

pub proof fn lemma_bytes_lt_total(a: Seq<u8>, b: Seq<u8>)
    ensures
        bytes_lt(a, b) || a == b || bytes_lt(b, a),
    decreases a.len(),
{
    if a.len() > 0 && b.len() > 0 && a[0] == b[0] {
        lemma_bytes_lt_total(a.skip(1), b.skip(1));
        if a.skip(1) == b.skip(1) {
            assert(a =~= seq![a[0]] + a.skip(1));
            assert(b =~= seq![b[0]] + b.skip(1));
        }
    } else if a.len() == 0 && b.len() == 0 {
        assert(a =~= b);
    }
}

/// Of two keys, exactly one holds: the first is smaller, they are equal,
/// or the second is smaller.
pub proof fn lemma_key_order(a: Seq<char>, b: Seq<char>)
    ensures
        key_lt(a, b) || a == b || key_lt(b, a),
        !(key_lt(a, b) && a == b),
        !(key_lt(b, a) && a == b),
        !(key_lt(a, b) && key_lt(b, a)),
{
    let x = encode_utf8(a);
    let y = encode_utf8(b);
    lemma_bytes_lt_total(x, y);
    lemma_bytes_lt_irreflexive(x);
    encode_utf8_decode_utf8(a);
    encode_utf8_decode_utf8(b);
    if bytes_lt(x, y) && bytes_lt(y, x) {
        lemma_bytes_lt_transitive(x, y, x);
    }
}

pub proof fn lemma_key_lt_transitive(a: Seq<char>, b: Seq<char>, c: Seq<char>)
    requires
        key_lt(a, b),
        key_lt(b, c),
    ensures
        key_lt(a, c),
{
    lemma_bytes_lt_transitive(encode_utf8(a), encode_utf8(b), encode_utf8(c));
}

/// How two keys compare: negative when the first is smaller, zero when
/// they are equal, positive when the second is smaller.
pub fn compare_keys(a: &str, b: &str) -> (r: i8)
    ensures
        r < 0 <==> key_lt(a@, b@),
        r == 0 <==> a@ == b@,
        r > 0 <==> key_lt(b@, a@),
{
    let x = a.as_bytes();
    let y = b.as_bytes();
    proof {
        lemma_key_order(a@, b@);
        assert(x@.skip(0) =~= x@);
        assert(y@.skip(0) =~= y@);
    }
    let mut i: usize = 0;
    while i < x.len() && i < y.len()
        invariant
            i <= x@.len(),
            i <= y@.len(),
            x@ == encode_utf8(a@),
            y@ == encode_utf8(b@),
            bytes_lt(x@, y@) == bytes_lt(x@.skip(i as int), y@.skip(i as int)),
            bytes_lt(y@, x@) == bytes_lt(y@.skip(i as int), x@.skip(i as int)),
        decreases x@.len() - i,
    {
        proof {
            assert(x@.skip(i as int).skip(1) =~= x@.skip(i + 1));
            assert(y@.skip(i as int).skip(1) =~= y@.skip(i + 1));
            assert(x@.skip(i as int)[0] == x@[i as int]);
            assert(y@.skip(i as int)[0] == y@[i as int]);
        }
        if x[i] != y[i] {
            if x[i] < y[i] {
                return -1;
            } else {
                return 1;
            }
        }
        i += 1;
    }
    if x.len() < y.len() {
        -1
    } else if x.len() > y.len() {
        1
    } else {
        0
    }
}

/// Whether two texts are the same.
pub fn same_text(a: &str, b: &str) -> (r: bool)
    ensures
        r == (a@ == b@),
{
    compare_keys(a, b) == 0
}

pub proof fn lemma_lookup_skip(pairs: Seq<(Seq<char>, Data)>, key: Seq<char>, i: int)
    requires
        0 <= i < pairs.len(),
        pairs[i].0 != key,
        lookup(pairs, key) == lookup(pairs.skip(i), key),
    ensures
        lookup(pairs, key) == lookup(pairs.skip(i + 1), key),
{
    assert(pairs.skip(i).skip(1) =~= pairs.skip(i + 1));
}

/// After `key` has been bound, looking it up gives the new value, and
/// every other key gives what it gave before.
pub proof fn lemma_lookup_put(
    pairs: Seq<(Seq<char>, Data)>,
    key: Seq<char>,
    value: Data,
    other: Seq<char>,
)
    ensures
        lookup(put(pairs, key, value), key) == Some(value),
        other != key ==> lookup(put(pairs, key, value), other) == lookup(pairs, other),
    decreases pairs.len(),
{
    let after = put(pairs, key, value);
    if pairs.len() == 0 {
        assert(after.skip(1) =~= pairs);
    } else if pairs[0].0 == key {
        assert(after.skip(1) =~= pairs.skip(1));
    } else if key_lt(key, pairs[0].0) {
        assert(after.skip(1) =~= pairs);
    } else {
        lemma_lookup_put(pairs.skip(1), key, value, other);
        assert(after.skip(1) =~= put(pairs.skip(1), key, value));
    }
}

/// Binding a key keeps the keys in order, and adds at most one entry.
pub proof fn lemma_put_sorted(pairs: Seq<(Seq<char>, Data)>, key: Seq<char>, value: Data)
    requires
        sorted_keys(pairs),
    ensures
        sorted_keys(put(pairs, key, value)),
        put(pairs, key, value).len() == pairs.len() + (if lookup(pairs, key) is Some {
            0int
        } else {
            1int
        }),
        forall|i: int|
            0 <= i < put(pairs, key, value).len() ==> #[trigger] put(pairs, key, value)[i].0 == key
                || exists|j: int|
                0 <= j < pairs.len() && pairs[j].0 == put(pairs, key, value)[i].0,
    decreases pairs.len(),
{
    let after = put(pairs, key, value);
    if pairs.len() == 0 {
    } else if pairs[0].0 == key {
        assert forall|i: int| 0 <= i < after.len() implies #[trigger] after[i].0 == key
            || exists|j: int| 0 <= j < pairs.len() && pairs[j].0 == after[i].0 by {
            if i > 0 {
                assert(pairs[i].0 == after[i].0);
            }
        }
    } else if key_lt(key, pairs[0].0) {
        assert forall|i: int, j: int| 0 <= i < j < after.len() implies key_lt(
            #[trigger] after[i].0,
            #[trigger] after[j].0,
        ) by {
            if i == 0 {
                if j > 1 {
                    assert(key_lt(pairs[0].0, pairs[j - 1].0));
                    lemma_key_lt_transitive(key, pairs[0].0, pairs[j - 1].0);
                }
            } else {
                assert(key_lt(pairs[i - 1].0, pairs[j - 1].0));
            }
        }
        assert forall|i: int| 0 <= i < after.len() implies #[trigger] after[i].0 == key
            || exists|j: int| 0 <= j < pairs.len() && pairs[j].0 == after[i].0 by {
            if i > 0 {
                assert(pairs[i - 1].0 == after[i].0);
            }
        }
        lemma_lookup_absent_before(pairs, key);
    } else {
        let rest = pairs.skip(1);
        let inner = put(rest, key, value);
        assert(sorted_keys(rest)) by {
            assert forall|i: int, j: int| 0 <= i < j < rest.len() implies key_lt(
                #[trigger] rest[i].0,
                #[trigger] rest[j].0,
            ) by {
                assert(key_lt(pairs[i + 1].0, pairs[j + 1].0));
            }
        }
        lemma_put_sorted(rest, key, value);
        lemma_key_order(key, pairs[0].0);
        assert forall|i: int, j: int| 0 <= i < j < after.len() implies key_lt(
            #[trigger] after[i].0,
            #[trigger] after[j].0,
        ) by {
            if i == 0 {
                let k = inner[j - 1].0;
                assert(after[j] == inner[j - 1]);
                if k != key {
                    let t = choose|t: int| 0 <= t < rest.len() && rest[t].0 == k;
                    assert(key_lt(pairs[0].0, pairs[t + 1].0));
                }
            } else {
                assert(after[i] == inner[i - 1]);
                assert(after[j] == inner[j - 1]);
            }
        }
        assert forall|i: int| 0 <= i < after.len() implies #[trigger] after[i].0 == key
            || exists|j: int| 0 <= j < pairs.len() && pairs[j].0 == after[i].0 by {
            if i == 0 {
                assert(pairs[0].0 == after[0].0);
            } else {
                assert(after[i] == inner[i - 1]);
                if inner[i - 1].0 != key {
                    let t = choose|t: int| 0 <= t < rest.len() && rest[t].0 == inner[i - 1].0;
                    assert(pairs[t + 1].0 == after[i].0);
                }
            }
        }
    }
}

/// A key below the first key of sorted entries is not among them.
pub proof fn lemma_lookup_absent_before(pairs: Seq<(Seq<char>, Data)>, key: Seq<char>)
    requires
        sorted_keys(pairs),
        pairs.len() > 0,
        key_lt(key, pairs[0].0),
    ensures
        lookup(pairs, key) is None,
    decreases pairs.len(),
{
    lemma_key_order(key, pairs[0].0);
    let rest = pairs.skip(1);
    if rest.len() > 0 {
        assert(key_lt(pairs[0].0, pairs[1].0));
        lemma_key_lt_transitive(key, pairs[0].0, pairs[1].0);
        assert(sorted_keys(rest)) by {
            assert forall|i: int, j: int| 0 <= i < j < rest.len() implies key_lt(
                #[trigger] rest[i].0,
                #[trigger] rest[j].0,
            ) by {
                assert(key_lt(pairs[i + 1].0, pairs[j + 1].0));
            }
        }
        assert(rest[0] == pairs[1]);
        lemma_lookup_absent_before(rest, key);
    } else {
        assert(lookup(rest, key) is None);
    }
}

impl Dict {
    /// The invariant of the type: the entries stand in the order of
    /// their keys, each key once.
    #[verifier::type_invariant]
    pub open spec fn ordered(&self) -> bool {
        sorted_keys(self@)
    }

    /// The empty dictionary.
    pub fn new() -> (d: Dict)
        ensures
            d@ == Seq::<(Seq<char>, Data)>::empty(),
            sorted_keys(d@),
    {
        let d = Dict { entries: Vec::new() };
        assert(d@ =~= Seq::<(Seq<char>, Data)>::empty());
        d
    }

    pub fn len(&self) -> (n: usize)
        ensures
            n == self@.len(),
    {
        self.entries.len()
    }

    /// The index of the entry with the given key.
    fn position(&self, key: &str) -> (r: Option<usize>)
        ensures
            match r {
                Some(i) => i < self@.len() && self@[i as int].0 == key@ && lookup(self@, key@)
                    == Some(self@[i as int].1),
                None => lookup(self@, key@) is None,
            },
    {
        let mut i: usize = 0;
        proof {
            assert(self@.skip(0) =~= self@);
        }
        while i < self.entries.len()
            invariant
                i <= self.entries.len(),
                lookup(self@, key@) == lookup(self@.skip(i as int), key@),
            decreases self.entries.len() - i,
        {
            let found = compare_keys(self.entries[i].0.as_str(), key) == 0;
            assert(self@[i as int] == (self.entries@[i as int].0@, self.entries@[i as int].1@));
            if found {
                assert(self@.skip(i as int)[0] == self@[i as int]);
                return Some(i);
            }
            proof {
                lemma_lookup_skip(self@, key@, i as int);
            }
            i += 1;
        }
        None
    }

    /// The value bound to `key`, if there is one.
    pub fn get(&self, key: &str) -> (r: Option<&Value>)
        ensures
            match r {
                Some(v) => lookup(self@, key@) == Some(v@),
                None => lookup(self@, key@) is None,
            },
    {
        match self.position(key) {
            Some(i) => Some(&self.entries[i].1),
            None => None,
        }
    }

    pub fn contains_key(&self, key: &str) -> (b: bool)
        ensures
            b == lookup(self@, key@).is_some(),
    {
        self.position(key).is_some()
    }

    /// Binds `key` to `value`: the entry with that key is replaced, or a
    /// new entry takes its place among the keys.
    pub fn insert(&mut self, key: String, value: Value)
        ensures
            final(self)@ == put(old(self)@, key@, value@),
            sorted_keys(final(self)@),
    {
        let ghost before = self@;
        proof {
            use_type_invariant(&*self);
            lemma_put_sorted(before, key@, value@);
            assert(before.skip(0) =~= before);
            assert(before.take(0) + put(before, key@, value@) =~= put(before, key@, value@));
        }
        let mut entries: Vec<(String, Value)> = Vec::new();
        std::mem::swap(&mut entries, &mut self.entries);
        let mut i: usize = 0;
        while i < entries.len()
            invariant
                i <= entries.len(),
                entry_views(entries@) == before,
                before == old(self)@,
                sorted_keys(put(before, key@, value@)),
                put(before, key@, value@) == before.take(i as int) + put(
                    before.skip(i as int),
                    key@,
                    value@,
                ),
            decreases entries.len() - i,
        {
            let c = compare_keys(key.as_str(), entries[i].0.as_str());
            let ghost tail = before.skip(i as int);
            proof {
                assert(tail[0] == before[i as int]);
                assert(tail.skip(1) =~= before.skip(i + 1));
                assert(before[i as int] == (entries@[i as int].0@, entries@[i as int].1@));
            }
            if c == 0 {
                entries.set(i, (key, value));
                proof {
                    assert(put(tail, key@, value@) == tail.update(0, (key@, value@)));
                    assert(entry_views(entries@) =~= before.take(i as int) + tail.update(
                        0,
                        (key@, value@),
                    ));
                    assert(entry_views(entries@) == put(before, key@, value@));
                }
                self.entries = entries;
                return ;
            } else if c < 0 {
                entries.insert(i, (key, value));
                proof {
                    assert(put(tail, key@, value@) == seq![(key@, value@)] + tail);
                    assert(entry_views(entries@) =~= before.take(i as int) + (seq![(key@, value@)]
                        + tail));
                    assert(entry_views(entries@) == put(before, key@, value@));
                }
                self.entries = entries;
                return ;
            }
            proof {
                assert(before.take(i + 1) + put(before.skip(i + 1), key@, value@)
                    =~= before.take(i as int) + (seq![tail[0]] + put(
                    tail.skip(1),
                    key@,
                    value@,
                )));
            }
            i += 1;
        }
        entries.push((key, value));
        proof {
            assert(before.skip(i as int) =~= Seq::<(Seq<char>, Data)>::empty());
            assert(entry_views(entries@) =~= before.take(i as int) + seq![(key@, value@)]);
        }
        self.entries = entries;
    }

    /// The keys, each as a string value, in their order: each is
    /// smaller than those that follow it.
    pub fn keys(&self) -> (out: Vec<Value>)
        ensures
            views(out@) == key_values(self@),
            sorted_keys(self@),
    {
        proof {
            use_type_invariant(self);
        }
        let mut out: Vec<Value> = Vec::new();
        let mut i: usize = 0;
        while i < self.entries.len()
            invariant
                i <= self.entries.len(),
                out@.len() == i,
                forall|j: int| 0 <= j < i ==> (#[trigger] out@[j])@ == Data::Str(self@[j].0),
            decreases self.entries.len() - i,
        {
            out.push(Value::Str(self.entries[i].0.clone()));
            i += 1;
        }
        assert(views(out@) =~= key_values(self@));
        out
    }

    /// The values, in the order of their keys.
    pub fn values(&self) -> (out: Vec<Value>)
        ensures
            views(out@) == entry_values(self@),
            sorted_keys(self@),
    {
        proof {
            use_type_invariant(self);
        }
        let mut out: Vec<Value> = Vec::new();
        let mut i: usize = 0;
        while i < self.entries.len()
            invariant
                i <= self.entries.len(),
                out@.len() == i,
                forall|j: int| 0 <= j < i ==> (#[trigger] out@[j])@ == self@[j].1,
            decreases self.entries.len() - i,
        {
            out.push(self.entries[i].1.copy());
            i += 1;
        }
        assert(views(out@) =~= entry_values(self@));
        out
    }

    /// A copy of the dictionary, with all that it holds.
    pub fn copy(&self) -> (d: Dict)
        ensures
            d@ == self@,
            sorted_keys(d@),
    {
        proof {
            use_type_invariant(self);
        }
        let mut out: Vec<(String, Value)> = Vec::new();
        let mut i: usize = 0;
        while i < self.entries.len()
            invariant
                i <= self.entries.len(),
                out@.len() == i,
                forall|j: int| 0 <= j < i ==> entry_views(out@)[j] == self@[j],
            decreases self.entries.len() - i,
        {
            out.push((self.entries[i].0.clone(), self.entries[i].1.copy()));
            i += 1;
        }
        proof {
            assert(entry_views(out@) =~= self@);
        }
        Dict { entries: out }
    }
}

} // verus!
