//! Positions in sequences that model linked lists: what follows and what
//! precedes an element, and the ends of a list.

use vstd::prelude::*;

verus! {

/// The successor of position `k` in the list `l`.
pub open spec fn next_in(l: Seq<usize>, k: int) -> Option<usize> {
    if k + 1 < l.len() { Some(l[k + 1]) } else { None }
}

/// The predecessor of position `k` in the list `l`.
pub open spec fn prev_in(l: Seq<usize>, k: int) -> Option<usize> {
    if k > 0 { Some(l[k - 1]) } else { None }
}

/// The first element of a list, if any.
pub open spec fn first_of(l: Seq<usize>) -> Option<usize> {
    if l.len() > 0 { Some(l[0]) } else { None }
}

/// The last element of a list, if any.
pub open spec fn last_of(l: Seq<usize>) -> Option<usize> {
    if l.len() > 0 { Some(l[l.len() - 1]) } else { None }
}

/// `o` is absent or names an element of `l`.
pub open spec fn in_list(o: Option<usize>, l: Seq<usize>) -> bool {
    o matches Some(x) ==> l.contains(x)
}

} // verus!
