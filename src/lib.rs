//! A turn-based fleet combat simulator: ships grouped into fleets attack
//! until fewer than two remain. The turn engine works on an in-memory store
//! of ships, fleets and attacks; loading and saving that store is left to
//! the caller.
pub mod combat;
pub mod game;
pub mod random;
pub mod status;
