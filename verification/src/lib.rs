//! Typed Fiat-Shamir transcript layer for a composed set-membership proof.
//!
//! The library turns domain-specific values (arbitrary-precision integers,
//! unknown-order-group elements, curve scalars, curve points) into canonical
//! transcript bytes with domain-separation labels, and derives integer
//! challenges of controlled bit length from the transcript state. The
//! canonical encodings are proved injective, and every transcript operation
//! is specified against a model of the backend's state as the ordered history
//! of labeled operations, so order and label sensitivity are part of the
//! contracts.

pub mod codec;
pub mod curve;
pub mod transcript;

pub use transcript::fresh_transcript;
pub use transcript::TranscriptChannelError;
pub use transcript::TranscriptProtocolChallenge;
pub use transcript::TranscriptProtocolCurve;
pub use transcript::TranscriptProtocolInteger;
pub use transcript::TranscriptProtocolMembershipPrime;
pub use transcript::TranscriptProtocolModEq;
pub use transcript::TranscriptProtocolRange;
pub use transcript::TranscriptProtocolRoot;
