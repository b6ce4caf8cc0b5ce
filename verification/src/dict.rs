//! Dictionaries: the objects of a document under byte-string keys.

use crate::bytestring::ByteString;
use crate::object::BenObject;
use crate::value::BenValue;
use vstd::prelude::*;
use vstd::set_lib::lemma_subset_equality;
use vstd::std_specs::cmp::PartialEqSpecImpl;
use vstd::std_specs::vec::axiom_vec_index_decreases;

verus! {

/// A dictionary: byte-string keys, each with one object.
///
/// Every key occurs once. The order in which the entries are held has no
/// meaning: the view of a dictionary is a map.
#[derive(Debug)]
pub struct BenDict {
    entries: Vec<(ByteString, BenObject)>,
}

/// The map that a sequence of entries stands for: each entry in turn is
/// written into the map, so of two entries with one key the later one stays.
pub open spec fn entries_view(entries: Seq<(ByteString, BenObject)>) -> Map<Seq<u8>, BenValue>
    decreases entries,
{
    if entries.len() == 0 {
        Map::empty()
    } else {
        entries_view(entries.drop_last()).insert(entries.last().0@, entries.last().1@)
    }
}

/// No two entries have the same key.
pub open spec fn distinct_keys(entries: Seq<(ByteString, BenObject)>) -> bool {
    forall|i: int, j: int|
        0 <= i < j < entries.len() ==> (#[trigger] entries[i]).0@ != (#[trigger] entries[j]).0@
}

/// Whether some entry has the key `key`.
pub open spec fn has_key(entries: Seq<(ByteString, BenObject)>, key: Seq<u8>) -> bool {
    exists|i: int| 0 <= i < entries.len() && (#[trigger] entries[i]).0@ == key
}

impl View for BenDict {
    type V = Map<Seq<u8>, BenValue>;

    closed spec fn view(&self) -> Map<Seq<u8>, BenValue>
        decreases self,
    {
        entries_view(self.entries@)
    }
}

/// What `entries_view` says of entries that are not empty.
proof fn lemma_entries_view_unfold(entries: Seq<(ByteString, BenObject)>)
    requires
        entries.len() > 0,
    ensures
        entries_view(entries) == entries_view(entries.drop_last()).insert(
            entries.last().0@,
            entries.last().1@,
        ),
{
}

/// An entry written at the end is written into the map.
pub proof fn lemma_entries_view_push(
    entries: Seq<(ByteString, BenObject)>,
    entry: (ByteString, BenObject),
)
    ensures
        entries_view(entries.push(entry)) == entries_view(entries).insert(entry.0@, entry.1@),
{
    assert(entries.push(entry).drop_last() =~= entries);
}

/// The keys of the map are the keys of the entries.
pub proof fn lemma_entries_view_keys(entries: Seq<(ByteString, BenObject)>)
    ensures
        forall|key: Seq<u8>| #[trigger]
            entries_view(entries).contains_key(key) <==> has_key(entries, key),
    decreases entries.len(),
{
    if entries.len() > 0 {
        let front = entries.drop_last();
        let last = entries.last();
        lemma_entries_view_keys(front);
        lemma_entries_view_unfold(entries);
        assert forall|key: Seq<u8>| #[trigger]
            entries_view(entries).contains_key(key) <==> has_key(entries, key) by {
            if has_key(entries, key) {
                let i = choose|i: int| 0 <= i < entries.len() && (#[trigger] entries[i]).0@ == key;
                if i < front.len() {
                    assert(front[i].0@ == key);
                    assert(has_key(front, key));
                }
            }
            if has_key(front, key) {
                let i = choose|i: int| 0 <= i < front.len() && (#[trigger] front[i]).0@ == key;
                assert(entries[i].0@ == key);
            }
            if key == last.0@ {
                assert(entries[entries.len() - 1].0@ == key);
            }
        }
    }
}

/// Where no key occurs twice, each entry's key is mapped to that entry's
/// object.
pub proof fn lemma_entries_view_value(entries: Seq<(ByteString, BenObject)>, i: int)
    requires
        distinct_keys(entries),
        0 <= i < entries.len(),
    ensures
        entries_view(entries).contains_key(entries[i].0@),
        entries_view(entries)[entries[i].0@] == entries[i].1@,
    decreases entries.len(),
{
    let front = entries.drop_last();
    lemma_entries_view_unfold(entries);
    if i < front.len() {
        assert(distinct_keys(front)) by {
            assert forall|a: int, b: int| 0 <= a < b < front.len() implies (#[trigger] front[a]).0@
                != (#[trigger] front[b]).0@ by {
                assert(entries[a].0@ != entries[b].0@);
            }
        }
        lemma_entries_view_value(front, i);
        assert(entries[i].0@ != entries[entries.len() - 1].0@);
    }
}

/// Where no key occurs twice, the map has as many keys as there are entries.
pub proof fn lemma_entries_view_size(entries: Seq<(ByteString, BenObject)>)
    requires
        distinct_keys(entries),
    ensures
        entries_view(entries).dom().finite(),
        entries_view(entries).dom().len() == entries.len(),
    decreases entries.len(),
{
    if entries.len() > 0 {
        let front = entries.drop_last();
        let last = entries.last();
        assert(distinct_keys(front)) by {
            assert forall|a: int, b: int| 0 <= a < b < front.len() implies (#[trigger] front[a]).0@
                != (#[trigger] front[b]).0@ by {
                assert(entries[a].0@ != entries[b].0@);
            }
        }
        lemma_entries_view_size(front);
        lemma_entries_view_keys(front);
        lemma_entries_view_unfold(entries);
        assert(!entries_view(front).contains_key(last.0@)) by {
            if has_key(front, last.0@) {
                let i = choose|i: int| 0 <= i < front.len() && (#[trigger] front[i]).0@ == last.0@;
                assert(entries[i].0@ != entries[entries.len() - 1].0@);
            }
        }
        assert(entries_view(entries).dom() =~= entries_view(front).dom().insert(last.0@));
    } else {
        assert(entries_view(entries).dom() =~= Set::<Seq<u8>>::empty());
    }
}

/// Taking an entry out of entries with distinct keys takes its key out of
/// the map, and leaves the keys distinct.
pub proof fn lemma_entries_view_remove(entries: Seq<(ByteString, BenObject)>, i: int)
    requires
        distinct_keys(entries),
        0 <= i < entries.len(),
    ensures
        distinct_keys(entries.remove(i)),
        entries_view(entries.remove(i)) == entries_view(entries).remove(entries[i].0@),
{
    let fewer = entries.remove(i);
    let gone = entries[i].0@;
    assert forall|a: int, b: int| 0 <= a < b < fewer.len() implies (#[trigger] fewer[a]).0@ != (
    #[trigger] fewer[b]).0@ by {
        let a0 = if a < i { a } else { a + 1 };
        let b0 = if b < i { b } else { b + 1 };
        assert(entries[a0].0@ != entries[b0].0@);
    }
    lemma_entries_view_keys(entries);
    lemma_entries_view_keys(fewer);
    assert forall|key: Seq<u8>| #[trigger]
        entries_view(fewer).contains_key(key) <==> (entries_view(entries).contains_key(key) && key
            != gone) by {
        if has_key(fewer, key) {
            let a = choose|a: int| 0 <= a < fewer.len() && (#[trigger] fewer[a]).0@ == key;
            let a0 = if a < i { a } else { a + 1 };
            assert(entries[a0].0@ == key);
            if a0 < i {
                assert(entries[a0].0@ != entries[i].0@);
            } else {
                assert(entries[i].0@ != entries[a0].0@);
            }
        }
        if has_key(entries, key) && key != gone {
            let a0 = choose|a0: int| 0 <= a0 < entries.len() && (#[trigger] entries[a0]).0@ == key;
            let a = if a0 < i { a0 } else { a0 - 1 };
            assert(fewer[a].0@ == key);
        }
    }
    assert forall|key: Seq<u8>| #[trigger] entries_view(fewer).contains_key(key) implies entries_view(
        fewer,
    )[key] == entries_view(entries)[key] by {
        let a = choose|a: int| 0 <= a < fewer.len() && (#[trigger] fewer[a]).0@ == key;
        let a0 = if a < i { a } else { a + 1 };
        lemma_entries_view_value(fewer, a);
        lemma_entries_view_value(entries, a0);
    }
    assert(entries_view(fewer) =~= entries_view(entries).remove(gone));
}

impl BenDict {
    /// No key occurs twice.
    #[verifier::type_invariant]
    spec fn keys_occur_once(self) -> bool {
        distinct_keys(self.entries@)
    }

    /// A dictionary without entries.
    pub fn new() -> (dict: BenDict)
        ensures
            dict@ == Map::<Seq<u8>, BenValue>::empty(),
    {
        BenDict { entries: Vec::new() }
    }

    /// The number of keys.
    pub fn len(&self) -> (count: usize)
        ensures
            self@.dom().finite(),
            count == self@.dom().len(),
    {
        proof {
            use_type_invariant(self);
            lemma_entries_view_size(self.entries@);
        }
        self.entries.len()
    }

    /// Whether the dictionary has no key.
    pub fn is_empty(&self) -> (empty: bool)
        ensures
            empty == (self@ == Map::<Seq<u8>, BenValue>::empty()),
    {
        proof {
            use_type_invariant(self);
            lemma_entries_view_size(self.entries@);
            if self.entries@.len() == 0 {
                assert(self@ =~= Map::<Seq<u8>, BenValue>::empty());
            } else {
                assert(Map::<Seq<u8>, BenValue>::empty().dom().len() == 0);
            }
        }
        self.entries.len() == 0
    }

    /// The entries, each key once, in no order that means anything.
    pub fn entries(&self) -> (all: &Vec<(ByteString, BenObject)>)
        ensures
            distinct_keys(all@),
            entries_view(all@) == self@,
    {
        proof {
            use_type_invariant(self);
        }
        &self.entries
    }

    /// Where the entry with the key `key` is held, if there is one.
    fn position(&self, key: &ByteString) -> (at: Option<usize>)
        ensures
            match at {
                Some(i) => i < self.entries.len() && self.entries[i as int].0@ == key@,
                None => !has_key(self.entries@, key@),
            },
    {
        let mut i: usize = 0;
        while i < self.entries.len()
            invariant
                i <= self.entries.len(),
                forall|j: int| 0 <= j < i ==> (#[trigger] self.entries[j]).0@ != key@,
            decreases self.entries.len() - i,
        {
            if self.entries[i].0 == *key {
                return Some(i);
            }
            i = i + 1;
        }
        None
    }

    /// The object under the key `key`, if the dictionary has that key.
    pub fn get(&self, key: &ByteString) -> (found: Option<&BenObject>)
        ensures
            match found {
                Some(object) => self@.contains_key(key@) && object@ == self@[key@],
                None => !self@.contains_key(key@),
            },
    {
        proof {
            use_type_invariant(self);
            lemma_entries_view_keys(self.entries@);
        }
        match self.position(key) {
            Some(i) => {
                let entry = &self.entries[i];
                proof {
                    lemma_entries_view_value(self.entries@, i as int);
                    assert(entry.0@ == key@);
                    assert(self@[key@] == entry.1@);
                }
                Some(&entry.1)
            },
            None => {
                assert(!entries_view(self.entries@).contains_key(key@));
                None
            },
        }
    }

    /// Puts `value` under the key `key`, in place of what the key had, and
    /// returns what it had.
    pub fn insert(&mut self, key: ByteString, value: BenObject) -> (previous: Option<BenObject>)
        ensures
            final(self)@ == old(self)@.insert(key@, value@),
            match previous {
                Some(object) => old(self)@.contains_key(key@) && object@ == old(self)@[key@],
                None => !old(self)@.contains_key(key@),
            },
    {
        proof {
            use_type_invariant(&*self);
            lemma_entries_view_keys(self.entries@);
        }
        let ghost before = self.entries@;
        let at = self.position(&key);
        let mut entries: Vec<(ByteString, BenObject)> = Vec::new();
        std::mem::swap(&mut self.entries, &mut entries);
        let previous = match at {
            Some(i) => {
                proof {
                    lemma_entries_view_value(before, i as int);
                    lemma_entries_view_remove(before, i as int);
                }
                let entry = entries.remove(i);
                Some(entry.1)
            },
            None => None,
        };
        let ghost between = entries@;
        proof {
            lemma_entries_view_keys(between);
            lemma_entries_view_push(between, (key, value));
            assert(!has_key(between, key@));
            assert(distinct_keys(between.push((key, value)))) by {
                assert forall|a: int, b: int| 0 <= a < b < between.len() + 1 implies (
                #[trigger] between.push((key, value))[a]).0@ != (#[trigger] between.push(
                    (key, value),
                )[b]).0@ by {
                    if b == between.len() {
                        assert(between[a].0@ != key@);
                    } else {
                        assert(between[a].0@ != between[b].0@);
                    }
                }
            }
            assert(entries_view(before).remove(key@).insert(key@, value@) =~= entries_view(
                before,
            ).insert(key@, value@));
        }
        entries.push((key, value));
        self.entries = entries;
        previous
    }

    /// Whether two dictionaries stand for the same map: the same keys, and
    /// under each key objects that stand for the same value.
    pub(crate) fn same_as(&self, other: &BenDict) -> (same: bool)
        ensures
            same == (self@ == other@),
        decreases self,
    {
        broadcast use axiom_vec_index_decreases;

        proof {
            use_type_invariant(self);
            use_type_invariant(other);
            lemma_entries_view_size(self.entries@);
            lemma_entries_view_size(other.entries@);
            lemma_entries_view_keys(self.entries@);
        }
        if self.entries.len() != other.entries.len() {
            return false;
        }
        let mut i: usize = 0;
        while i < self.entries.len()
            invariant
                i <= self.entries.len(),
                distinct_keys(self.entries@),
                forall|j: int|
                    0 <= j < i ==> other@.contains_key((#[trigger] self.entries[j]).0@)
                        && other@[self.entries[j].0@] == self.entries[j].1@,
            decreases self.entries.len() - i,
        {
            let entry = &self.entries[i];
            proof {
                lemma_entries_view_value(self.entries@, i as int);
            }
            match other.get(&entry.0) {
                None => {
                    return false;
                },
                Some(theirs) => {
                    if !entry.1.same_as(theirs) {
                        return false;
                    }
                },
            }
            i = i + 1;
        }
        proof {
            assert forall|key: Seq<u8>| self@.dom().contains(key) implies other@.dom().contains(
                key,
            ) && self@[key] == other@[key] by {
                let j = choose|j: int|
                    0 <= j < self.entries.len() && (#[trigger] self.entries[j]).0@ == key;
                lemma_entries_view_value(self.entries@, j);
            }
            lemma_subset_equality(self@.dom(), other@.dom());
            assert(self@ =~= other@);
        }
        true
    }
}

impl PartialEq for BenDict {
    /// Two dictionaries are equal when they stand for the same map, in
    /// whatever order each holds its entries.
    fn eq(&self, other: &BenDict) -> (same: bool) {
        self.same_as(other)
    }
}

impl PartialEqSpecImpl for BenDict {
    open spec fn obeys_eq_spec() -> bool {
        true
    }

    open spec fn eq_spec(&self, other: &BenDict) -> bool {
        self@ == other@
    }
}

} // verus!
