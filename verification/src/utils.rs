use vstd::prelude::*;

verus! {

/// The native error classes of the scripting runtime.
#[derive(Clone, Copy, Debug, PartialEq, Eq, Structural)]
pub enum Error {
    Eval,
    Range,
    Reference,
    Syntax,
    Type,
    URI,
    Internal,
    Aggregate,
    /// Number of different native error classes.
    NativeErrorCount,
}

} // verus!
