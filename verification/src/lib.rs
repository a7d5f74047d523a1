//! Endorsement policies: a small algebra of AND / OR / M-of-N combinators over
//! named principals, its order-insensitive equality, and the codec between a
//! policy expression and the tag-free rule tree carried on the wire.

pub mod decoder;
pub mod encoder;
pub mod endorsement;
pub mod equivalence;
pub mod expression;
pub mod relation;
pub mod round_trip;
pub mod wire;

pub use decoder::read_policy;
pub use encoder::{match_expr, policy_rule};
pub use endorsement::StateBasedEndorsement;
pub use equivalence::iters_equal_anyorder;
pub use expression::{Expression, ROLE};
pub use wire::{WirePrincipal, WireRole, WireRule};
