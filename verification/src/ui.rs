//! Placement of the overlay window.
use vstd::prelude::*;
use crate::text::{eq_str, to_chars};

verus! {

/// The screen edges the overlay is anchored to.
#[derive(Clone, Copy, Debug, PartialEq, Eq, Structural)]
pub struct Anchors {
    pub top: bool,
    pub right: bool,
    pub bottom: bool,
    pub left: bool,
}

/// The anchors for a configured position: a side panel for `right` and `left`, a bar for
/// `top` and `bottom`, and a free-floating window for `center` and any other value.
pub open spec fn anchors_of(position: Seq<char>) -> Anchors {
    if position == "right"@ {
        Anchors { top: true, right: true, bottom: true, left: false }
    } else if position == "left"@ {
        Anchors { top: true, right: false, bottom: true, left: true }
    } else if position == "top"@ {
        Anchors { top: true, right: true, bottom: false, left: true }
    } else if position == "bottom"@ {
        Anchors { top: false, right: true, bottom: true, left: true }
    } else {
        Anchors { top: false, right: false, bottom: false, left: false }
    }
}

/// The edges the overlay is anchored to for the configured position.
pub fn anchors_for_position(position: &str) -> (a: Anchors)
    ensures
        a == anchors_of(position@),
{
    let p = to_chars(position);
    if eq_str(&p, "right") {
        Anchors { top: true, right: true, bottom: true, left: false }
    } else if eq_str(&p, "left") {
        Anchors { top: true, right: false, bottom: true, left: true }
    } else if eq_str(&p, "top") {
        Anchors { top: true, right: true, bottom: false, left: true }
    } else if eq_str(&p, "bottom") {
        Anchors { top: false, right: true, bottom: true, left: true }
    } else {
        Anchors { top: false, right: false, bottom: false, left: false }
    }
}

} // verus!
