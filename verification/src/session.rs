//! What a viewing session knows of its players and of the replay it
//! plays back.

use vstd::prelude::*;
use vstd::string::*;

verus! {

/// A player of a streamed session.
pub struct PlayerInfo {
    pub name: String,
    pub steam_id: String,
}

impl Clone for PlayerInfo {
    fn clone(&self) -> (res: Self)
        ensures
            res.name@ == self.name@,
            res.steam_id@ == self.steam_id@,
    {
        PlayerInfo { name: self.name.clone(), steam_id: self.steam_id.clone() }
    }
}

impl Default for PlayerInfo {
    /// The player shown before any information arrives.
    fn default() -> (res: Self)
        ensures
            res.name@ == "arte"@,
            res.steam_id@ == "1234"@,
    {
        PlayerInfo { name: String::from_str("arte"), steam_id: String::from_str("1234") }
    }
}

/// How a replay is played.
#[derive(Clone, Copy, PartialEq, Eq, Structural, Debug)]
pub enum ReplayPlaybackMode {
    /// One discrete replay frame for every tick, from the given frame.
    Immediate(usize),
    /// The replay frame interpolated for the current time, like a video.
    RealTime,
}

/// A replay being played: its ghost data and how it is played.
pub struct Replay<G> {
    pub ghost_data: G,
    pub playback_mode: ReplayPlaybackMode,
}

impl<G> Replay<G> {
    /// A replay of `ghost` played in real time.
    pub fn real_time(ghost_data: G) -> (res: Self)
        ensures
            res.ghost_data == ghost_data,
            res.playback_mode == ReplayPlaybackMode::RealTime,
    {
        Replay { ghost_data, playback_mode: ReplayPlaybackMode::RealTime }
    }
}

} // verus!
