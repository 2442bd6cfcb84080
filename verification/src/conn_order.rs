//! The order of connections: by how busy they are.
use crate::conn::HttpConn;
use vstd::prelude::*;
use vstd::std_specs::cmp::{PartialEqSpec, PartialOrdSpec};

verus! {

impl<S, T> vstd::std_specs::cmp::PartialEqSpecImpl for HttpConn<S, T> {
    open spec fn obeys_eq_spec() -> bool {
        true
    }

    open spec fn eq_spec(&self, other: &Self) -> bool {
        self@.inflight.len() == other@.inflight.len()
    }
}

/// Connections compare by how busy they are.
impl<S, T> PartialEq for HttpConn<S, T> {
    fn eq(&self, other: &Self) -> (r: bool) {
        self.load() == other.load()
    }
}

impl<S, T> vstd::std_specs::cmp::PartialOrdSpecImpl for HttpConn<S, T> {
    open spec fn obeys_partial_cmp_spec() -> bool {
        true
    }

    open spec fn partial_cmp_spec(&self, other: &Self) -> Option<core::cmp::Ordering> {
        let (a, b) = (self@.inflight.len(), other@.inflight.len());
        Some(
            if a == b {
                core::cmp::Ordering::Equal
            } else if a > b {
                core::cmp::Ordering::Less
            } else {
                core::cmp::Ordering::Greater
            },
        )
    }
}

/// The busier of two connections is the lesser.
impl<S, T> PartialOrd for HttpConn<S, T> {
    fn partial_cmp(&self, other: &Self) -> (r: Option<core::cmp::Ordering>) {
        let (a, b) = (self.load(), other.load());
        Some(
            if a == b {
                core::cmp::Ordering::Equal
            } else if a > b {
                core::cmp::Ordering::Less
            } else {
                core::cmp::Ordering::Greater
            },
        )
    }
}

/// Of two connections the busier is the lesser, and those that are as busy are equal: the least
/// busy come last.
pub proof fn law_least_busy_come_last<S, T>(a: HttpConn<S, T>, b: HttpConn<S, T>)
    ensures
        a.eq_spec(&b) <==> a@.inflight.len() == b@.inflight.len(),
        a.partial_cmp_spec(&b) == Some(core::cmp::Ordering::Equal) <==> a@.inflight.len()
            == b@.inflight.len(),
        a.partial_cmp_spec(&b) == Some(core::cmp::Ordering::Less) <==> a@.inflight.len()
            > b@.inflight.len(),
        a.partial_cmp_spec(&b) == Some(core::cmp::Ordering::Greater) <==> a@.inflight.len()
            < b@.inflight.len(),
{
}

} // verus!
