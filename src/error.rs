use vstd::prelude::*;

verus! {

/// Everything that can go wrong while building a store or reconciling.
#[derive(Debug, Clone, Copy, PartialEq, Eq, Structural)]
pub enum Error {
    /// A bound was given an id prefix longer than 32 bytes.
    IdTooBig,
    /// The id size is outside `8..=32`, or an added id does not have it.
    InvalidIdSize,
    /// A frame size limit between 1 and 4095.
    FrameSizeLimitTooSmall,
    /// Reconciliation was asked of a store that is still open.
    NotSealed,
    /// The store was sealed already.
    AlreadySealed,
    /// The initiator was asked to answer as the non-initiator.
    Initiator,
    /// The non-initiator was asked for have/need ids.
    NonInitiator,
    /// The peer speaks the withdrawn earlier protocol.
    DeprecatedProtocol,
    /// A mode tag outside `0..=4`.
    UnexpectedMode(u64),
    /// A length-prefixed field runs past the end of the message.
    ParseEndsPrematurely,
    /// The message ends inside a varint.
    PrematureEndOfVarInt,
}

} // verus!
