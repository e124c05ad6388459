use vstd::prelude::*;

verus! {

/// An event in flight: a topic and its opaque payload text. Transient,
/// never persisted — only ever forwarded.
#[derive(Debug, Clone, PartialEq, Eq)]
pub struct Event {
    pub topic: String,
    pub message: String,
}

} // verus!
