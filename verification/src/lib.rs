//! A verified codec for the `.osr` replay format: a binary header with
//! length-prefixed strings, a compressed delta-encoded event log, and a
//! trailing identifier.

pub mod compress;
pub mod decimal;
pub mod error;
pub mod events;
pub mod lifebar;
pub mod packer;
pub mod replay;
pub mod timestamp;
pub mod types;
pub mod unpacker;

pub use error::ReplayError;
pub use packer::Packer;
pub use replay::Replay;
pub use timestamp::UtcTime;
pub use types::{
    FloatText,
    GameMode,
    Key,
    KeyMania,
    KeyTaiko,
    LifeBarState,
    Mod,
    ReplayEvent,
    ReplayEventCatch,
    ReplayEventMania,
    ReplayEventOsu,
    ReplayEventTaiko,
};
pub use unpacker::Unpacker;

use vstd::prelude::*;

verus! {

use crate::events::events_view;

/// Decodes the event payload of an API response; see
/// `replay::parse_replay_data`.
pub fn parse_replay_data(
    data_string: &[u8],
    decoded: bool,
    decompressed: bool,
    mode: GameMode,
) -> (r: Result<Vec<ReplayEvent>, ReplayError>)
    ensures
        match replay::spec_parse_payload(data_string@, decoded, decompressed, mode) {
            replay::PayloadSpec::Val(evs) => r matches Ok(v) && events_view(v@) == evs,
            replay::PayloadSpec::B64 => r matches Err(e) && e is Parse,
            replay::PayloadSpec::Lzma => r matches Err(e) && e is Lzma,
            replay::PayloadSpec::BadUtf8 => r matches Err(e) && e is Utf8,
            replay::PayloadSpec::Parse => r matches Err(e) && e is Parse,
        },
{
    replay::parse_replay_data(data_string, decoded, decompressed, mode)
}

} // verus!
