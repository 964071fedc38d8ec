//! Coordination core of a multi-player card draft: card model, booster pack
//! generation, the per-lobby draft state machine and the lobby actor's
//! decision logic.

pub mod cards;
pub mod packs;
pub mod game;
pub mod messages;
pub mod lobby;
pub mod ingest;
pub mod launch;
