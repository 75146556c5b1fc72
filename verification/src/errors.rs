use vstd::prelude::*;

verus! {

/// Why an operation of the compiler or of the evaluator failed.
#[derive(Debug, Clone, Copy, PartialEq, Eq, Structural)]
pub enum Error {
    /// The source text or a definition form is malformed.
    Parse,
    /// A symbol is already bound in the scope.
    DuplicateSymbol,
    /// A constraint of that name is already declared in the scope.
    DuplicateConstraint,
    /// A function is already bound in the scope.
    DuplicateFunction,
    /// No symbol of that name is reachable.
    UnknownSymbol,
    /// A dotted path names a module that does not exist.
    UnknownModule,
    /// No function of that name is reachable.
    UnknownFunction,
    /// A chain of aliases loops back on itself.
    CircularDefinition,
    /// A function received the wrong number of arguments.
    ArityMismatch,
    /// A function received an argument of the wrong type.
    TypeMismatch,
    /// An array column was accessed outside of its index set.
    IndexOutOfRange,
    /// A non-constant symbol was used inside a pure function.
    ImpureUse,
    /// An integer has no representative in the prime field.
    NotInField,
    /// A column already has a computation that produces it.
    DuplicateTarget,
    /// A derived column has no computation that produces it.
    ComputationMissing,
    /// Columns that must share a length do not.
    IncoherentLengths,
    /// There are more rows than can be counted.
    TooLong,
    /// The head of an applied list is not a function name.
    NotAFunction,
    /// An expression stands where only declarations are expected.
    UnexpectedForm,
    /// An expression that must be a compile-time constant is not.
    NotConstant,
    /// A handle does not name a column of the column set.
    UnknownColumn,
    /// A column was read before its value was computed.
    NotComputed,
    /// User-defined functions are nested deeper than the reducer allows.
    DepthExceeded,
    /// A value read from a trace is not a boolean where one is expected.
    NotBoolean,
}

} // verus!
