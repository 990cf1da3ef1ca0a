use vstd::prelude::*;

verus! {

/// One of the three ways a child's standard stream can be connected.
///
/// Unlike the native stream-configuration primitive, this is a plain
/// comparable, hashable value with no lifecycle beyond construction.
#[derive(Clone, Copy, Debug, PartialEq, Eq, Hash, Structural)]
pub enum Stdio {
    /// A new pipe connects the parent and the child process.
    Piped,
    /// The child shares the parent's corresponding stream.
    Inherit,
    /// The stream is attached to a discard (null) device.
    Null,
}

} // verus!
