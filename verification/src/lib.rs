//! Library side of a media wall player: configuration parsing, media feeding
//! and selection, pointer-combo input resolution and player command routing.
pub mod text;
pub mod sys;
pub mod helpers;
pub mod input;
pub mod feeder;
pub mod player;
