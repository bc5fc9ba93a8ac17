//! Omakeel, the data hub of a boat: it reads the instruments and serves one
//! live stream to every app on board.

pub mod ais;
pub mod cli;
pub mod clock;
pub mod double;
pub mod fix;
pub mod hub;
pub mod nmea;
pub mod number;
pub mod protocol;
pub mod receiver;
pub mod recording;
pub mod source;
pub mod targets;
pub mod text;
pub mod transponder;
pub mod watch;
