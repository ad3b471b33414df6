//! The join-semilattice abstraction the schema lattice instantiates.

use crate::json_type::{wf, JsonType};
use vstd::prelude::*;

verus! {

/// A join-semilattice: a bottom element and a binary join.
///
/// `inv` is the well-formedness that `bot` establishes and `join`
/// preserves.  The algebraic laws (identity, idempotence,
/// commutativity) are stated and proved on the implementing type's
/// model; see the lattice module.
pub trait JoinSemilattice: Sized {
    spec fn inv(&self) -> bool;

    fn bot() -> (out: Self)
        ensures
            out.inv(),
    ;

    fn join(a: &Self, b: &Self) -> (out: Self)
        requires
            a.inv(),
            b.inv(),
        ensures
            out.inv(),
    ;
}

impl JoinSemilattice for JsonType {
    /// A schema is a lattice element when it is in canonical form.
    open spec fn inv(&self) -> bool {
        wf(self@)
    }

    fn bot() -> (out: Self) {
        JsonType::bot()
    }

    fn join(a: &Self, b: &Self) -> (out: Self) {
        JsonType::join(a, b)
    }
}

} // verus!
