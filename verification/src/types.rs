//! Shared vocabulary of the engine: items, families, and the status a
//! catalog assigns an item after restriction.

use vstd::prelude::*;

verus! {

/// An item identifier. Every item belongs to exactly one family.
pub type Item = String;

/// A family identifier: a partition class of items.
pub type Family = String;

/// How an item stands relative to a restricted catalog: chosen by the
/// caller, impossible, forced, or still open.
#[derive(Debug, Clone, PartialEq, Eq, PartialOrd, Ord, Hash)]
pub enum ItemStatus<T> {
    Required(T),
    Excluded(T),
    Available(T),
    Selected(T),
}

impl<T: View> View for ItemStatus<T> {
    type V = ItemStatus<T::V>;

    open spec fn view(&self) -> ItemStatus<T::V> {
        match self {
            ItemStatus::Required(t) => ItemStatus::Required(t@),
            ItemStatus::Excluded(t) => ItemStatus::Excluded(t@),
            ItemStatus::Available(t) => ItemStatus::Available(t@),
            ItemStatus::Selected(t) => ItemStatus::Selected(t@),
        }
    }
}

} // verus!
