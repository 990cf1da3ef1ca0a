//! A serializable, cloneable, structurally comparable description of a
//! child-process invocation, decoupled from the native process builder,
//! together with a verified conversion from that description into the
//! settings a native process launcher expects.
//!
//! The description itself is a pure value: it can be stored, copied,
//! compared and mutated independently of any live execution. The
//! conversion — in particular the three-state handling of environment
//! variables (inherit, explicitly remove, explicitly set) — is pure and
//! fully specified, so it can be exercised against a simulated parent
//! environment without launching anything.

pub mod stdio;
pub mod command;
pub mod convert;
pub mod codec;

pub use codec::Token;
pub use command::Command;
pub use convert::LaunchConfig;
pub use convert::LaunchKind;
pub use stdio::Stdio;
