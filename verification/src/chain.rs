//! What a chain of node handles, written first to last, demands of the links
//! that the nodes and the list handle store.

use vstd::prelude::*;

verus! {

/// The `next` link that the node at position `i` of `order` must hold.
pub open spec fn link_after(order: Seq<usize>, i: int) -> Option<usize> {
    if 0 <= i && i + 1 < order.len() {
        Some(order[i + 1])
    } else {
        None
    }
}

/// The `previous` link that the node at position `i` of `order` must hold.
pub open spec fn link_before(order: Seq<usize>, i: int) -> Option<usize> {
    if 0 < i <= order.len() {
        Some(order[i - 1])
    } else {
        None
    }
}

/// The handle that a list whose nodes are `order` keeps as its head.
pub open spec fn first_handle(order: Seq<usize>) -> Option<usize> {
    if order.len() == 0 {
        None
    } else {
        Some(order.first())
    }
}

/// The handle that a list whose nodes are `order` keeps as its tail.
pub open spec fn last_handle(order: Seq<usize>) -> Option<usize> {
    if order.len() == 0 {
        None
    } else {
        Some(order.last())
    }
}

} // verus!
