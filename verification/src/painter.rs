//! Plain drawing configuration consumed by the renderer.

use vstd::prelude::*;

verus! {

/// How a ring is drawn: outlined or filled, and in which style.
pub struct RingConfig {
    pub stroke: bool,
    pub style: String,
}

} // verus!
