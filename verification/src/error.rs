use vstd::prelude::*;

verus! {

/// The ways in which a schema definition or its code generation is rejected.
#[derive(PartialEq, Eq, Structural, Clone, Copy, Debug)]
pub enum SchemaError {
    /// An id is already used in the scope or one of the scopes it can escape to.
    IdTaken,
    /// A name can't be used as a Rust identifier.
    InvalidIdent,
    /// A type given for a custom node isn't a Rust type path.
    InvalidRustType,
    /// The excess bits of a length are a byte or more (they must be below 8).
    ExcessBitsTooLarge,
    /// A subrange consumes more than the range has available.
    RangeTooSmall,
    /// A range has no space left.
    RangeExhausted,
    /// Fixed bytes must start on a byte boundary.
    NotByteAligned,
    /// Fixed bytes must be a whole number of bytes long.
    NotWholeBytes,
    /// Integers wider than 64 bits have no Rust type.
    IntTooWide,
    /// A bit field crosses a byte boundary.
    BitFieldCrossesByte,
    /// A multi-byte integer doesn't start on a byte boundary.
    IntNotByteAligned,
    /// A multi-byte integer has a partial byte.
    IntPartialByte,
    /// The range is already used by a node in another scope.
    RangeUsedElsewhere,
    /// The range is already split by an enum that isn't an ancestor.
    RangeUsedByOtherEnum,
    /// An alignment must be at least 1.
    ZeroAlignment,
    /// Floats must be 4 or 8 bytes wide.
    UnsupportedFloatWidth,
    /// The scope already has a rust root.
    RustRootAlreadyDefined,
    /// The scope has no rust root.
    NoRustRoot,
    /// A serial-side dependency isn't from any containing scope.
    NotInContainingScope,
    /// The rust end of a node is already connected to another node.
    RustAlreadyConnected,
    /// The enum already has a default variant.
    DefaultVariantAlreadySet,
    /// Top level scope prefixes must be unique.
    PrefixNotUnique,
    /// Definitions of the same enum or object disagree.
    InconsistentDefinitions,
    /// The node given isn't of a kind this operation accepts.
    WrongNodeKind,
    /// A handle doesn't refer to anything in the schema.
    UnknownHandle,
    /// A value's Rust type can't be determined: the node has no value, or its
    /// type leads back to itself.
    UnknownType,
}

} // verus!
