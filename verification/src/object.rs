//! The document tree.

use crate::bytestring::ByteString;
use crate::dict::BenDict;
use crate::value::BenValue;
use vstd::prelude::*;
use vstd::std_specs::cmp::PartialEqSpecImpl;
use vstd::std_specs::vec::axiom_vec_index_decreases;

verus! {

/// A decoded object: an integer, a byte string, a list or a dictionary.
///
/// A list or dictionary owns its children, so a value of this type is a
/// finite tree. Its view is the [`BenValue`] that the tree stands for.
#[derive(Debug)]
pub enum BenObject {
    I(i64),
    S(ByteString),
    L(Vec<BenObject>),
    D(BenDict),
}

/// The values that a sequence of objects stands for, in the same order.
pub open spec fn list_view(items: Seq<BenObject>) -> Seq<BenValue>
    decreases items,
{
    Seq::new(
        items.len(),
        |i: int|
            if 0 <= i < items.len() {
                items[i]@
            } else {
                BenValue::Integer(0)
            },
    )
}

impl View for BenObject {
    type V = BenValue;

    open spec fn view(&self) -> BenValue
        decreases self,
    {
        match self {
            BenObject::I(n) => BenValue::Integer(*n as int),
            BenObject::S(s) => BenValue::Bytes(s@),
            BenObject::L(items) => BenValue::List(list_view(items@)),
            BenObject::D(dict) => BenValue::Dict(dict@),
        }
    }
}

impl BenObject {
    /// The integer, if this object is one.
    pub fn as_int(&self) -> (out: Option<i64>)
        ensures
            out == (match *self {
                BenObject::I(n) => Some(n),
                _ => None,
            }),
    {
        match *self {
            BenObject::I(n) => Some(n),
            _ => None,
        }
    }

    /// The byte string, if this object is one.
    pub fn as_str(&self) -> (out: Option<&ByteString>)
        ensures
            out == (match self {
                BenObject::S(s) => Some(s),
                _ => None,
            }),
    {
        match self {
            BenObject::S(s) => Some(s),
            _ => None,
        }
    }

    /// The items, if this object is a list.
    pub fn as_list(&self) -> (out: Option<&Vec<BenObject>>)
        ensures
            out == (match self {
                BenObject::L(items) => Some(items),
                _ => None,
            }),
    {
        match self {
            BenObject::L(items) => Some(items),
            _ => None,
        }
    }

    /// The dictionary, if this object is one.
    pub fn as_dict(&self) -> (out: Option<&BenDict>)
        ensures
            out == (match self {
                BenObject::D(dict) => Some(dict),
                _ => None,
            }),
    {
        match self {
            BenObject::D(dict) => Some(dict),
            _ => None,
        }
    }

    /// Whether two objects stand for the same value.
    pub(crate) fn same_as(&self, other: &BenObject) -> (same: bool)
        ensures
            same == (self@ == other@),
        decreases self,
    {
        match (self, other) {
            (BenObject::I(mine), BenObject::I(theirs)) => *mine == *theirs,
            (BenObject::S(mine), BenObject::S(theirs)) => *mine == *theirs,
            (BenObject::L(mine), BenObject::L(theirs)) => all_same(mine, theirs),
            (BenObject::D(mine), BenObject::D(theirs)) => mine.same_as(theirs),
            _ => false,
        }
    }
}

/// Whether two sequences of objects stand for the same values in the same
/// order.
fn all_same(mine: &Vec<BenObject>, theirs: &Vec<BenObject>) -> (same: bool)
    ensures
        same == (list_view(mine@) == list_view(theirs@)),
    decreases mine,
{
    broadcast use axiom_vec_index_decreases;

    if mine.len() != theirs.len() {
        return false;
    }
    let mut i: usize = 0;
    while i < mine.len()
        invariant
            i <= mine.len(),
            mine.len() == theirs.len(),
            forall|j: int| 0 <= j < i ==> (#[trigger] mine[j])@ == theirs[j]@,
        decreases mine.len() - i,
    {
        if !mine[i].same_as(&theirs[i]) {
            assert(list_view(mine@)[i as int] != list_view(theirs@)[i as int]);
            return false;
        }
        i = i + 1;
    }
    assert(list_view(mine@) =~= list_view(theirs@));
    true
}

impl PartialEq for BenObject {
    /// Two objects are equal when they stand for the same value: the same
    /// integer, the same bytes, equal items in the same order, or equal
    /// objects under the same keys.
    fn eq(&self, other: &BenObject) -> (same: bool) {
        self.same_as(other)
    }
}

impl PartialEqSpecImpl for BenObject {
    open spec fn obeys_eq_spec() -> bool {
        true
    }

    open spec fn eq_spec(&self, other: &BenObject) -> bool {
        self@ == other@
    }
}

} // verus!
