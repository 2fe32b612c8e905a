use vstd::prelude::*;

verus! {

/// The entries that an arena holds, in the order of their positions.
pub trait Arena<V> {
    spec fn view(&self) -> Seq<V>;
}

} // verus!
