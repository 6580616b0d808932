//! Shared vocabulary of the race relay: messages, room phases, limits and the clock.
use vstd::prelude::*;

use crate::content::{MistakeMode, TypingContent};
use crate::session::SessionMode;

verus! {

pub const MAX_PLAYERS: usize = 8;

pub const COUNTDOWN_MS: u64 = 3000;

/// Bit pattern of the `f64` value `0.0`: the speed of a player who has not typed yet.
pub const START_WPM_BITS: u64 = 0;

/// Bit pattern of the `f64` value `1.0`: the accuracy of a player who has not typed yet.
pub const START_ACCURACY_BITS: u64 = 0x3ff0_0000_0000_0000;

/// What a client asks of the relay. Speeds and accuracies travel as the
/// bit patterns of finite, clamped `f64` values; the relay stores and
/// forwards them unchanged.
#[derive(Debug, Clone)]
pub enum ClientMessage {
    Create {
        name: String,
        content: TypingContent,
        mode: SessionMode,
        mistake_mode: MistakeMode,
        autopairs: bool,
    },
    Join { code: String, name: String, resume_token: Option<String> },
    SetReady { ready: bool },
    Start,
    Progress {
        cursor: usize,
        wpm_bits: u64,
        accuracy_bits: u64,
        mistakes: u32,
        finished: bool,
        elapsed_ms: u64,
    },
    Ping { nonce: u64 },
}

/// What the relay sends to a client.
#[derive(Debug, Clone)]
pub enum ServerMessage {
    Welcome { player_id: String, resume_token: String, room: RoomSnapshot },
    Snapshot { room: RoomSnapshot },
    Pong { nonce: u64, server_time_ms: u64 },
    Error { message: String, fatal: bool },
}

/// The shared view of a room, with its players in the order they joined.
#[derive(Debug, Clone)]
pub struct RoomSnapshot {
    pub code: String,
    pub host_id: String,
    pub content: TypingContent,
    pub mode: SessionMode,
    pub mistake_mode: MistakeMode,
    pub autopairs: bool,
    pub phase: RoomPhase,
    pub players: Vec<PlayerSnapshot>,
}

/// One player as the room shows it.
#[derive(Debug, Clone)]
pub struct PlayerSnapshot {
    pub id: String,
    pub name: String,
    pub ready: bool,
    pub connected: bool,
    pub cursor: usize,
    pub wpm_bits: u64,
    pub accuracy_bits: u64,
    pub mistakes: u32,
    pub finished: bool,
    pub elapsed_ms: Option<u64>,
}

impl PlayerSnapshot {
    /// A field-by-field copy.
    pub fn duplicate(&self) -> (r: PlayerSnapshot)
        ensures
            r == *self,
    {
        PlayerSnapshot {
            id: self.id.clone(),
            name: self.name.clone(),
            ready: self.ready,
            connected: self.connected,
            cursor: self.cursor,
            wpm_bits: self.wpm_bits,
            accuracy_bits: self.accuracy_bits,
            mistakes: self.mistakes,
            finished: self.finished,
            elapsed_ms: self.elapsed_ms,
        }
    }
}

/// Where a race room stands.
#[derive(Debug, Clone, Copy, PartialEq, Eq, Structural)]
pub enum RoomPhase {
    Lobby,
    Countdown { starts_at_ms: u64 },
    Racing { starts_at_ms: u64 },
    Finished { starts_at_ms: u64 },
}

pub open spec fn spec_starts_at(phase: RoomPhase) -> Option<u64> {
    match phase {
        RoomPhase::Lobby => None,
        RoomPhase::Countdown { starts_at_ms } => Some(starts_at_ms),
        RoomPhase::Racing { starts_at_ms } => Some(starts_at_ms),
        RoomPhase::Finished { starts_at_ms } => Some(starts_at_ms),
    }
}

impl RoomPhase {
    /// The moment the race starts, once one is scheduled.
    pub fn starts_at_ms(self) -> (r: Option<u64>)
        ensures
            r == spec_starts_at(self),
    {
        match self {
            RoomPhase::Lobby => None,
            RoomPhase::Countdown { starts_at_ms } => Some(starts_at_ms),
            RoomPhase::Racing { starts_at_ms } => Some(starts_at_ms),
            RoomPhase::Finished { starts_at_ms } => Some(starts_at_ms),
        }
    }
}

/// Milliseconds since the Unix epoch by the system clock (`SystemTime::now`),
/// or 0 when the clock reads earlier than the epoch. The reading depends on
/// the time of the call, so nothing is promised of it.
#[verifier::external_body]
pub fn now_ms() -> u64 {
    std::time::SystemTime::now().duration_since(std::time::UNIX_EPOCH).unwrap_or_default().as_millis() as u64
}


/// State of a client's connection to the relay.
#[derive(Debug, Clone, Copy, PartialEq, Eq, Structural)]
pub enum ConnectionStatus {
    Connecting,
    Connected,
    Reconnecting,
}

/// What a client shows while it dials: connecting the first time,
/// reconnecting after it was connected once.
pub fn dialing_status(connected_once: bool) -> (r: ConnectionStatus)
    ensures
        r == if connected_once { ConnectionStatus::Reconnecting } else { ConnectionStatus::Connecting },
{
    if connected_once {
        ConnectionStatus::Reconnecting
    } else {
        ConnectionStatus::Connecting
    }
}

/// Seconds to wait before the next dial after a failed one: double the
/// last wait, at most five seconds.
pub fn next_retry_delay(delay_secs: u64) -> (r: u64)
    ensures
        r == if delay_secs * 2 < 5 { delay_secs * 2 } else { 5 },
{
    if delay_secs < 3 {
        delay_secs * 2
    } else {
        5
    }
}

/// The name of the player with the given identifier in a room snapshot,
/// empty if there is none.
pub open spec fn name_in(players: Seq<PlayerSnapshot>, id: Seq<char>) -> Seq<char>
    decreases players.len(),
{
    if players.len() == 0 {
        seq![]
    } else if players[0].id@ == id {
        players[0].name@
    } else {
        name_in(players.drop_first(), id)
    }
}

/// The request a client sends when it reconnects after a welcome: join the
/// same room under the same name with the resume token.
pub fn rejoin_message(player_id: &String, resume_token: &String, room: &RoomSnapshot) -> (r: ClientMessage)
    ensures
        r matches ClientMessage::Join { code, name, resume_token: Some(t) } && code@ == room.code@
            && name@ == name_in(room.players@, player_id@) && t@ == resume_token@,
{
    let mut name = String::new();
    let mut i: usize = 0;
    assert(room.players@.skip(0) =~= room.players@);
    while i < room.players.len()
        invariant
            i <= room.players@.len(),
            name_in(room.players@, player_id@) == name_in(room.players@.skip(i as int), player_id@),
            name@.len() == 0,
        decreases room.players@.len() - i,
    {
        proof {
            assert(room.players@.skip(i as int).drop_first() =~= room.players@.skip(i + 1));
            assert(room.players@.skip(i as int)[0] == room.players@[i as int]);
        }
        if room.players[i].id == *player_id {
            name = room.players[i].name.clone();
            return ClientMessage::Join { code: room.code.clone(), name, resume_token: Some(resume_token.clone()) };
        }
        i += 1;
    }
    ClientMessage::Join { code: room.code.clone(), name, resume_token: Some(resume_token.clone()) }
}

} // verus!
