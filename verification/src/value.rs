//! The mathematical model of a decoded document.

use vstd::prelude::*;

verus! {

/// What a bencode object is, apart from how it is held in memory.
///
/// Contracts speak of these values: an integer without a width, a string as
/// the sequence of its bytes, a list as the sequence of its items in order,
/// a dictionary as a map from key bytes to values, in which every key occurs
/// once and no order exists.
pub enum BenValue {
    Integer(int),
    Bytes(Seq<u8>),
    List(Seq<BenValue>),
    Dict(Map<Seq<u8>, BenValue>),
}

} // verus!
