//! Verified core of a Koikatsu card de-duplicator and organizer.

pub mod text;
pub mod paths;
pub mod msgpack;
pub mod dedup;
pub mod card;
pub mod organize;
pub mod cli;
