//! Review grades. The schedule they drive works in floating point and is
//! computed by the application.
use vstd::prelude::*;

verus! {

/// How well a card was recalled.
#[derive(Debug, Clone, Copy, PartialEq, Eq, Structural)]
pub enum Rating {
    Again,
    Hard,
    Good,
    Easy,
}

/// The seconds until an `Again` card is due again.
pub const AGAIN_DELAY_SECONDS: i64 = 600;

} // verus!
