//! Race rooms kept by the relay: admitting players, readiness, the start
//! countdown, progress reports and departures. The relay's network loop
//! hands each event to these functions and sends what they return.
use vstd::prelude::*;

use rand::Rng;

use crate::content::{MistakeMode, TypingContent};
use crate::protocol::{
    now_ms, spec_starts_at, ClientMessage, PlayerSnapshot, RoomPhase, RoomSnapshot,
    ServerMessage, COUNTDOWN_MS, MAX_PLAYERS, START_ACCURACY_BITS, START_WPM_BITS,
};
use crate::session::SessionMode;
use crate::text::{
    char_count, chars_of, eq_ignore_ascii_case, text_eq, is_control, push_char, spec_ascii_upper,
    spec_eq_ignore_ascii_case, spec_is_control, spec_prefix, spec_trim, trim_bounds,
    trimmed_ascii_uppercase, spec_utf8_len, utf8_len_exceeds,
};

verus! {

broadcast use vstd::string::group_string_axioms;

pub const ROOM_CODE_LENGTH: usize = 6;

pub const PLAYER_ID_LENGTH: usize = 12;

pub const RESUME_TOKEN_LENGTH: usize = 32;

pub const MAX_NAME_CHARS: usize = 16;

pub const MAX_CONTENT_BYTES: usize = 50_000;

/// How long a room with nobody connected is kept after its last activity.
pub const IDLE_ROOM_MS: u64 = 300_000;

/// Characters of room codes: upper-case letters and digits without the
/// look-alikes I, O, 0 and 1.
pub open spec fn room_code_alphabet() -> Seq<char> {
    "ABCDEFGHJKLMNPQRSTUVWXYZ23456789"@
}

/// Characters of identifiers and resume tokens.
pub open spec fn token_alphabet() -> Seq<char> {
    "abcdefghijklmnopqrstuvwxyzABCDEFGHIJKLMNOPQRSTUVWXYZ0123456789"@
}

/// `s` could be drawn as a random text of `length` characters of `alphabet`.
pub open spec fn drawable(s: Seq<char>, length: nat, alphabet: Seq<char>) -> bool {
    &&& s.len() == length
    &&& forall|i: int| 0 <= i < length ==> alphabet.contains(#[trigger] s[i])
}

/// A player of a room, with the secret that lets it reconnect and the
/// identifier of its current connection.
#[derive(Debug)]
pub struct Player {
    pub snapshot: PlayerSnapshot,
    pub resume_token: String,
    pub connection_id: String,
}

/// A race room. Players never leave the list: a departed player stays,
/// marked disconnected, and may reconnect with its resume token.
#[derive(Debug)]
pub struct Room {
    pub code: String,
    pub host_id: String,
    pub content: TypingContent,
    pub mode: SessionMode,
    pub mistake_mode: MistakeMode,
    pub autopairs: bool,
    pub phase: RoomPhase,
    /// In the order they joined.
    pub players: Vec<Player>,
    pub last_active_ms: u64,
}

/// A message for one player of a room.
#[derive(Debug)]
pub struct Delivery {
    pub player_id: String,
    pub message: ServerMessage,
}

/// What the relay does after an event: the messages to send, and the start
/// time of a countdown whose end must be reported back through
/// [`RelayState::finish_countdown`].
#[derive(Debug)]
pub struct RelayOutput {
    pub deliveries: Vec<Delivery>,
    pub countdown: Option<u64>,
}

/// The identity of an admitted connection and what to send it.
#[derive(Debug)]
pub struct Admission {
    pub code: String,
    pub player_id: String,
    pub connection_id: String,
    pub deliveries: Vec<Delivery>,
}

/// Fresh random values for an admission.
#[derive(Debug)]
pub struct FreshIds {
    pub code: String,
    pub player_id: String,
    pub resume_token: String,
    pub connection_id: String,
}

/// All rooms of the relay.
#[derive(Debug)]
pub struct RelayState {
    pub rooms: Vec<Room>,
}

/// A room as the contracts see it.
#[verifier::ext_equal]
pub struct RoomModel {
    pub code: Seq<char>,
    pub host_id: Seq<char>,
    pub content: TypingContent,
    pub mode: SessionMode,
    pub mistake_mode: MistakeMode,
    pub autopairs: bool,
    pub phase: RoomPhase,
    pub players: Seq<Player>,
    pub last_active_ms: u64,
}

/// A server message as the contracts see it.
pub enum Notice {
    Welcome { player_id: Seq<char>, resume_token: Seq<char>, room: RoomModel },
    Snapshot { room: RoomModel },
    Pong { nonce: u64, server_time_ms: u64 },
    Error { message: Seq<char>, fatal: bool },
}

impl Room {
    pub open spec fn model(&self) -> RoomModel {
        RoomModel {
            code: self.code@,
            host_id: self.host_id@,
            content: self.content,
            mode: self.mode,
            mistake_mode: self.mistake_mode,
            autopairs: self.autopairs,
            phase: self.phase,
            players: self.players@,
            last_active_ms: self.last_active_ms,
        }
    }
}

impl RelayState {
    pub open spec fn model(&self) -> Seq<RoomModel> {
        self.rooms@.map_values(|r: Room| r.model())
    }

    /// Room codes are distinct and every room is well formed.
    pub open spec fn wf(&self) -> bool {
        relay_wf(self.model())
    }
}

pub open spec fn ids_distinct(players: Seq<Player>) -> bool {
    forall|i: int, j: int|
        0 <= i < players.len() && 0 <= j < players.len() && i != j
            ==> (#[trigger] players[i]).snapshot.id@ != (#[trigger] players[j]).snapshot.id@
}

pub open spec fn has_player(players: Seq<Player>, id: Seq<char>) -> bool {
    exists|j: int| 0 <= j < players.len() && (#[trigger] players[j]).snapshot.id@ == id
}

/// A room holds between one and `MAX_PLAYERS` players with distinct
/// identifiers, and its host is one of them.
pub open spec fn room_wf(m: RoomModel) -> bool {
    &&& 1 <= m.players.len() <= MAX_PLAYERS
    &&& ids_distinct(m.players)
    &&& has_player(m.players, m.host_id)
}

pub open spec fn relay_wf(rooms: Seq<RoomModel>) -> bool {
    &&& forall|i: int| 0 <= i < rooms.len() ==> room_wf(#[trigger] rooms[i])
    &&& forall|i: int, j: int|
        0 <= i < rooms.len() && 0 <= j < rooms.len() && i != j
            ==> (#[trigger] rooms[i]).code != (#[trigger] rooms[j]).code
}

/// Whether a room snapshot shows the room.
pub open spec fn shows(s: RoomSnapshot, m: RoomModel) -> bool {
    &&& s.code@ == m.code
    &&& s.host_id@ == m.host_id
    &&& s.content == m.content
    &&& s.mode == m.mode
    &&& s.mistake_mode == m.mistake_mode
    &&& s.autopairs == m.autopairs
    &&& s.phase == m.phase
    &&& s.players@ == m.players.map_values(|p: Player| p.snapshot)
}

pub open spec fn conveys(message: ServerMessage, notice: Notice) -> bool {
    match (message, notice) {
        (
            ServerMessage::Welcome { player_id, resume_token, room },
            Notice::Welcome { player_id: id, resume_token: token, room: m },
        ) => player_id@ == id && resume_token@ == token && shows(room, m),
        (ServerMessage::Snapshot { room }, Notice::Snapshot { room: m }) => shows(room, m),
        (
            ServerMessage::Pong { nonce, server_time_ms },
            Notice::Pong { nonce: n, server_time_ms: t },
        ) => nonce == n && server_time_ms == t,
        (ServerMessage::Error { message, fatal }, Notice::Error { message: text, fatal: f }) =>
            message@ == text && fatal == f,
        _ => false,
    }
}

/// Whether the deliveries carry the given notices to the given players, in order.
pub open spec fn delivers(ds: Seq<Delivery>, ns: Seq<(Seq<char>, Notice)>) -> bool {
    &&& ds.len() == ns.len()
    &&& forall|i: int|
        0 <= i < ds.len() ==> (#[trigger] ds[i]).player_id@ == ns[i].0 && conveys(
            ds[i].message,
            ns[i].1,
        )
}

/// The room's state, sent to each of its players in join order.
pub open spec fn broadcast_of(m: RoomModel) -> Seq<(Seq<char>, Notice)> {
    Seq::new(m.players.len(), |i: int| (m.players[i].snapshot.id@, Notice::Snapshot { room: m }))
}

impl Room {
    /// The shared view of the room.
    pub fn snapshot(&self) -> (s: RoomSnapshot)
        ensures
            shows(s, self.model()),
    {
        let mut players: Vec<PlayerSnapshot> = Vec::new();
        let mut i: usize = 0;
        while i < self.players.len()
            invariant
                i <= self.players@.len(),
                players@ == self.players@.take(i as int).map_values(|p: Player| p.snapshot),
            decreases self.players@.len() - i,
        {
            players.push(self.players[i].snapshot.duplicate());
            assert(self.players@.take(i + 1).map_values(|p: Player| p.snapshot)
                =~= self.players@.take(i as int).map_values(|p: Player| p.snapshot).push(self.players@[i as int].snapshot));
            i += 1;
        }
        assert(self.players@.take(i as int) =~= self.players@);
        RoomSnapshot {
            code: self.code.clone(),
            host_id: self.host_id.clone(),
            content: self.content.duplicate(),
            mode: self.mode,
            mistake_mode: self.mistake_mode,
            autopairs: self.autopairs,
            phase: self.phase,
            players,
        }
    }

    /// The room's state for every player, in join order.
    pub fn broadcast(&self) -> (ds: Vec<Delivery>)
        ensures
            delivers(ds@, broadcast_of(self.model())),
    {
        let mut ds: Vec<Delivery> = Vec::new();
        let mut i: usize = 0;
        while i < self.players.len()
            invariant
                i <= self.players@.len(),
                delivers(ds@, broadcast_of(self.model()).take(i as int)),
            decreases self.players@.len() - i,
        {
            let room = self.snapshot();
            ds.push(Delivery { player_id: self.players[i].snapshot.id.clone(), message: ServerMessage::Snapshot { room } });
            i += 1;
        }
        assert(broadcast_of(self.model()).take(i as int) =~= broadcast_of(self.model()));
        ds
    }
}

/// The name a player is shown under: trimmed, without control characters,
/// at most `MAX_NAME_CHARS` characters.
pub open spec fn spec_clean_name(name: Seq<char>) -> Seq<char> {
    spec_prefix(spec_trim(name).filter(|c: char| !spec_is_control(c)), MAX_NAME_CHARS as nat)
}

/// The player name as the room will show it; refused when nothing is left of it.
pub fn validate_name(name: &str) -> (r: Result<String, String>)
    ensures
        match r {
            Ok(n) => spec_clean_name(name@).len() > 0 && n@ == spec_clean_name(name@),
            Err(e) => spec_clean_name(name@).len() == 0 && e@ == "Enter a player name"@,
        },
{
    let v = chars_of(name);
    let (a, b) = trim_bounds(&v);
    let ghost t = spec_trim(name@);
    let ghost keep = |c: char| !spec_is_control(c);
    let mut out = String::new();
    let mut count: usize = 0;
    let mut i = a;
    while i < b && count < MAX_NAME_CHARS
        invariant
            v@ == name@,
            a <= i <= b <= v@.len(),
            v@.subrange(a as int, b as int) == t,
            keep == (|c: char| !spec_is_control(c)),
            count == out@.len(),
            count <= MAX_NAME_CHARS,
            out@ == t.take(i - a).filter(keep),
        decreases b - i,
    {
        let c = v[i];
        proof {
            reveal(Seq::filter);
            assert(t.take(i - a + 1).drop_last() =~= t.take(i - a));
            assert(t.take(i - a + 1).last() == c);
        }
        if !is_control(c) {
            push_char(&mut out, c);
            count += 1;
        }
        i += 1;
    }
    proof {
        reveal(Seq::filter);
        let full = t.filter(keep);
        if count < MAX_NAME_CHARS {
            assert(t.take(i - a) =~= t);
            assert(spec_prefix(full, MAX_NAME_CHARS as nat) == full);
        } else {
            lemma_filter_prefix(t, keep, i - a);
            assert(full.take(MAX_NAME_CHARS as int) =~= out@);
        }
    }
    if count == 0 {
        Err("Enter a player name".to_owned())
    } else {
        Ok(out)
    }
}

/// Filtering a prefix gives a prefix of the filtered sequence.
proof fn lemma_filter_prefix(s: Seq<char>, keep: spec_fn(char) -> bool, k: int)
    requires
        0 <= k <= s.len(),
    ensures
        s.take(k).filter(keep).len() <= s.filter(keep).len(),
        s.filter(keep).take(s.take(k).filter(keep).len() as int) =~= s.take(k).filter(keep),
    decreases s.len() - k,
{
    reveal(Seq::filter);
    if k < s.len() {
        lemma_filter_prefix(s, keep, k + 1);
        assert(s.take(k + 1).drop_last() =~= s.take(k));
        let a = s.take(k).filter(keep);
        let b = s.take(k + 1).filter(keep);
        assert(b.take(a.len() as int) =~= a);
    } else {
        assert(s.take(k) =~= s);
    }
}

/// Whether race content may be shared: it must not be empty and must stay
/// within `MAX_CONTENT_BYTES` bytes of UTF-8.
pub fn validate_content(content: &TypingContent) -> (r: Result<(), String>)
    ensures
        match r {
            Ok(()) => content.text@.len() > 0 && spec_utf8_len(content.text@)
                <= MAX_CONTENT_BYTES,
            Err(e) => (content.text@.len() == 0 && e@ == "Race content is empty"@) || (
            content.text@.len() > 0 && spec_utf8_len(content.text@)
                > MAX_CONTENT_BYTES && e@ == "Race content is too large"@),
        },
{
    if content.text.as_str().is_empty() {
        return Err("Race content is empty".to_owned());
    }
    if utf8_len_exceeds(content.text.as_str(), MAX_CONTENT_BYTES) {
        return Err("Race content is too large".to_owned());
    }
    Ok(())
}

/// Shortest time between two unfinished progress reports a connection passes on.
pub const PROGRESS_INTERVAL_MS: u64 = 50;

/// Whether a connection passes a message on to the relay at time `now`
/// (milliseconds of a steady clock), given when it last passed an unfinished
/// progress report; and when it has now last passed one. Unfinished progress
/// reports closer than `PROGRESS_INTERVAL_MS` to the last one are dropped.
pub fn progress_gate(message: &ClientMessage, last_ms: u64, now: u64) -> (r: (bool, u64))
    ensures
        r == match message {
            ClientMessage::Progress { finished: false, .. } => if now >= last_ms && now - last_ms < PROGRESS_INTERVAL_MS {
                (false, last_ms)
            } else {
                (true, now)
            },
            _ => (true, last_ms),
        },
{
    match message {
        ClientMessage::Progress { finished: false, .. } => {
            if now >= last_ms && now - last_ms < PROGRESS_INTERVAL_MS {
                (false, last_ms)
            } else {
                (true, now)
            }
        },
        _ => (true, last_ms),
    }
}

/// A uniformly drawn index below `bound` (`rand::thread_rng().gen_range(0..bound)`).
/// Only the range of the result is promised.
#[verifier::external_body]
pub(crate) fn random_below(bound: usize) -> (r: usize)
    requires
        bound > 0,
    ensures
        r < bound,
{
    rand::thread_rng().gen_range(0..bound)
}

/// A random string of the given length over `alphabet`.
fn random_text(alphabet: &Vec<char>, length: usize) -> (r: String)
    requires
        alphabet@.len() > 0,
    ensures
        r@.len() == length,
        forall|i: int| 0 <= i < length ==> alphabet@.contains(#[trigger] r@[i]),
{
    let mut r = String::new();
    let mut i: usize = 0;
    while i < length
        invariant
            alphabet@.len() > 0,
            i <= length,
            r@.len() == i,
            forall|k: int| 0 <= k < i ==> alphabet@.contains(#[trigger] r@[k]),
        decreases length - i,
    {
        let index = random_below(alphabet.len());
        let c = alphabet[index];
        push_char(&mut r, c);
        assert(alphabet@[index as int] == c);
        assert(r@[i as int] == c);
        i += 1;
    }
    r
}

/// A random identifier over the token alphabet.
pub fn token(length: usize) -> (r: String)
    ensures
        r@.len() == length,
        forall|i: int| 0 <= i < length ==> token_alphabet().contains(#[trigger] r@[i]),
{
    let alphabet = chars_of("abcdefghijklmnopqrstuvwxyzABCDEFGHIJKLMNOPQRSTUVWXYZ0123456789");
    proof {
        reveal_strlit("abcdefghijklmnopqrstuvwxyzABCDEFGHIJKLMNOPQRSTUVWXYZ0123456789");
    }
    random_text(&alphabet, length)
}

/// A random room code used by no room, or `None` if every one of
/// `u64::MAX` draws collided.
/// A code is owed whenever no draw can collide: when no room has a code
/// that could be drawn.
pub fn unique_room_code(rooms: &Vec<Room>) -> (r: Option<String>)
    ensures
        r matches Some(code) ==> {
            &&& code@.len() == ROOM_CODE_LENGTH
            &&& forall|i: int| 0 <= i < ROOM_CODE_LENGTH ==> room_code_alphabet().contains(#[trigger] code@[i])
            &&& forall|i: int| 0 <= i < rooms@.len() ==> (#[trigger] rooms@[i]).code@ != code@
        },
        (forall|i: int| 0 <= i < rooms@.len() ==> !drawable((#[trigger] rooms@[i]).code@, ROOM_CODE_LENGTH as nat, room_code_alphabet()))
            ==> r is Some,
{
    let ghost free = forall|i: int| 0 <= i < rooms@.len() ==> !drawable((#[trigger] rooms@[i]).code@, ROOM_CODE_LENGTH as nat, room_code_alphabet());
    let alphabet = chars_of("ABCDEFGHJKLMNPQRSTUVWXYZ23456789");
    proof {
        reveal_strlit("ABCDEFGHJKLMNPQRSTUVWXYZ23456789");
    }
    let mut attempts: u64 = 0;
    while attempts < u64::MAX
        invariant
            alphabet@ == room_code_alphabet(),
            alphabet@.len() > 0,
            free == forall|i: int| 0 <= i < rooms@.len() ==> !drawable((#[trigger] rooms@[i]).code@, ROOM_CODE_LENGTH as nat, room_code_alphabet()),
            attempts > 0 ==> !free,
        decreases u64::MAX - attempts,
    {
        let code = random_text(&alphabet, ROOM_CODE_LENGTH);
        assert(drawable(code@, ROOM_CODE_LENGTH as nat, room_code_alphabet()));
        let mut j: usize = 0;
        let mut taken = false;
        while j < rooms.len()
            invariant
                j <= rooms@.len(),
                !taken ==> forall|k: int| 0 <= k < j ==> (#[trigger] rooms@[k]).code@ != code@,
                free == forall|i: int| 0 <= i < rooms@.len() ==> !drawable((#[trigger] rooms@[i]).code@, ROOM_CODE_LENGTH as nat, room_code_alphabet()),
                drawable(code@, ROOM_CODE_LENGTH as nat, room_code_alphabet()),
                free ==> !taken,
            decreases rooms@.len() - j,
        {
            proof {
                if free {
                    assert(!drawable(rooms@[j as int].code@, ROOM_CODE_LENGTH as nat, room_code_alphabet()));
                }
            }
            if rooms[j].code == code {
                taken = true;
            }
            j += 1;
        }
        if !taken {
            return Some(code);
        }
        attempts += 1;
    }
    None
}


/// Position of the first element satisfying `p`, or -1.
pub open spec fn first_index<A>(s: Seq<A>, p: spec_fn(A) -> bool) -> int
    decreases s.len(),
{
    if s.len() == 0 {
        -1
    } else {
        let k = first_index(s.drop_last(), p);
        if k >= 0 {
            k
        } else if p(s.last()) {
            s.len() - 1
        } else {
            -1
        }
    }
}

/// `first_index` is the first position that satisfies `p`.
pub proof fn lemma_first_index<A>(s: Seq<A>, p: spec_fn(A) -> bool, k: int)
    requires
        0 <= k <= s.len(),
        forall|j: int| 0 <= j < k ==> !p(#[trigger] s[j]),
        k < s.len() ==> p(s[k]),
    ensures
        first_index(s, p) == (if k < s.len() { k } else { -1 }),
    decreases s.len(),
{
    if s.len() > 0 {
        let t = s.drop_last();
        if k < s.len() - 1 {
            assert forall|j: int| 0 <= j < k implies !p(#[trigger] t[j]) by {
                assert(t[j] == s[j]);
            }
            assert(t[k] == s[k]);
            lemma_first_index(t, p, k);
        } else {
            assert forall|j: int| 0 <= j < t.len() implies !p(#[trigger] t[j]) by {
                assert(t[j] == s[j]);
            }
            lemma_first_index(t, p, t.len() as int);
        }
    }
}

/// What `first_index` tells of the sequence.
pub proof fn lemma_first_index_found<A>(s: Seq<A>, p: spec_fn(A) -> bool)
    ensures
        -1 <= first_index(s, p) < s.len(),
        first_index(s, p) >= 0 ==> p(s[first_index(s, p)]),
        forall|j: int| 0 <= j < s.len() && (first_index(s, p) < 0 || j < first_index(s, p)) ==> !p(
            #[trigger] s[j],
        ),
    decreases s.len(),
{
    if s.len() > 0 {
        let t = s.drop_last();
        lemma_first_index_found(t, p);
        assert forall|j: int| 0 <= j < t.len() implies t[j] == s[j] by {}
    }
}

pub open spec fn code_is(code: Seq<char>) -> spec_fn(RoomModel) -> bool {
    |m: RoomModel| m.code == code
}

pub open spec fn token_is(token: Seq<char>) -> spec_fn(Player) -> bool {
    |p: Player| p.resume_token@ == token
}

pub open spec fn id_is(id: Seq<char>) -> spec_fn(Player) -> bool {
    |p: Player| p.snapshot.id@ == id
}

pub open spec fn connected() -> spec_fn(Player) -> bool {
    |p: Player| p.snapshot.connected
}

pub open spec fn first_room(rooms: Seq<RoomModel>, code: Seq<char>) -> int {
    first_index(rooms, code_is(code))
}

pub open spec fn first_with_token(players: Seq<Player>, token: Seq<char>) -> int {
    first_index(players, token_is(token))
}

pub open spec fn first_connected(players: Seq<Player>) -> int {
    first_index(players, connected())
}

pub open spec fn connected_count(players: Seq<Player>) -> nat
    decreases players.len(),
{
    if players.len() == 0 {
        0
    } else {
        connected_count(players.drop_last()) + if players.last().snapshot.connected {
            1nat
        } else {
            0nat
        }
    }
}

/// At least one player is connected and every connected player has finished.
pub open spec fn all_connected_finished(players: Seq<Player>) -> bool {
    &&& exists|j: int| 0 <= j < players.len() && (#[trigger] players[j]).snapshot.connected
    &&& forall|j: int|
        0 <= j < players.len() && (#[trigger] players[j]).snapshot.connected
            ==> players[j].snapshot.finished
}

/// The players, with `f` applied to the one whose identifier is `id`.
pub open spec fn update_player(players: Seq<Player>, id: Seq<char>, f: spec_fn(Player) -> Player) -> Seq<Player> {
    Seq::new(
        players.len(),
        |j: int|
            if players[j].snapshot.id@ == id {
                f(players[j])
            } else {
                players[j]
            },
    )
}

pub open spec fn with_ready(p: Player, ready: bool) -> Player {
    Player { snapshot: PlayerSnapshot { ready, ..p.snapshot }, ..p }
}

pub open spec fn with_connected(p: Player, connected: bool) -> Player {
    Player { snapshot: PlayerSnapshot { connected, ..p.snapshot }, ..p }
}

/// A player after a progress report whose values were already checked.
pub open spec fn with_progress(
    p: Player,
    cursor: usize,
    wpm_bits: u64,
    accuracy_bits: u64,
    mistakes: u32,
    finished: bool,
    elapsed_ms: u64,
) -> Player {
    Player {
        snapshot: PlayerSnapshot {
            cursor,
            wpm_bits,
            accuracy_bits,
            mistakes,
            finished,
            elapsed_ms: if finished {
                Some(elapsed_ms)
            } else {
                None
            },
            ..p.snapshot
        },
        ..p
    }
}

pub open spec fn sat_mul_1000(seconds: u64) -> u64 {
    if seconds * 1000 > u64::MAX {
        u64::MAX
    } else {
        (seconds * 1000) as u64
    }
}

/// Whether a reported position ends the race for that player: the time is
/// up in a timed race, the shared text is typed to its end otherwise.
pub open spec fn run_complete(mode: SessionMode, cursor: usize, text_len: nat, elapsed_ms: u64) -> bool {
    match mode {
        SessionMode::Timed(seconds) => elapsed_ms >= sat_mul_1000(seconds),
        _ => cursor == text_len,
    }
}

pub open spec fn capped(cursor: usize, text_len: nat) -> usize {
    if cursor <= text_len {
        cursor
    } else {
        text_len as usize
    }
}

/// A non-fatal error for the player, if the room has that player.
pub open spec fn error_to(m: RoomModel, id: Seq<char>, text: Seq<char>) -> Seq<(Seq<char>, Notice)> {
    if has_player(m.players, id) {
        seq![(id, Notice::Error { message: text, fatal: false })]
    } else {
        seq![]
    }
}

/// What a message from player `id` does to its room at time `now`: the
/// room afterwards, the notices to send, and a countdown to schedule.
pub open spec fn room_step(m: RoomModel, id: Seq<char>, message: ClientMessage, now: u64) -> (
    RoomModel,
    Seq<(Seq<char>, Notice)>,
    Option<u64>,
) {
    let m = RoomModel { last_active_ms: now, ..m };
    match message {
        ClientMessage::SetReady { ready } if m.phase == RoomPhase::Lobby => {
            let n = RoomModel {
                players: update_player(m.players, id, |p: Player| with_ready(p, ready)),
                ..m
            };
            (n, broadcast_of(n), None)
        },
        ClientMessage::Start if m.phase == RoomPhase::Lobby => {
            if m.host_id != id {
                (m, error_to(m, id, "Only the host can start"@), None)
            } else if connected_count(m.players) < 2 {
                (m, error_to(m, id, "At least two players are required"@), None)
            } else {
                let starts_at_ms = (now + COUNTDOWN_MS) as u64;
                let n = RoomModel { phase: RoomPhase::Countdown { starts_at_ms }, ..m };
                (n, broadcast_of(n), Some(starts_at_ms))
            }
        },
        ClientMessage::Progress {
            cursor,
            wpm_bits,
            accuracy_bits,
            mistakes,
            finished,
            elapsed_ms,
        } if spec_starts_at(m.phase) matches Some(start) && now >= start => {
            let text_len = m.content.text@.len();
            let c = capped(cursor, text_len);
            let done = finished && run_complete(m.mode, c, text_len, elapsed_ms);
            let players = update_player(
                m.players,
                id,
                |p: Player| with_progress(p, c, wpm_bits, accuracy_bits, mistakes, done, elapsed_ms),
            );
            let phase = if all_connected_finished(players) {
                RoomPhase::Finished { starts_at_ms: spec_starts_at(m.phase)->0 }
            } else {
                m.phase
            };
            let n = RoomModel { players, phase, ..m };
            (n, broadcast_of(n), None)
        },
        ClientMessage::Ping { nonce } => {
            if has_player(m.players, id) {
                (m, seq![(id, Notice::Pong { nonce, server_time_ms: now })], None)
            } else {
                (m, seq![], None)
            }
        },
        _ => (m, seq![], None),
    }
}



/// A room whose players keep their identifiers and whose host stays stays well formed.
proof fn lemma_same_ids_wf(a: RoomModel, b: RoomModel)
    requires
        room_wf(a),
        a.host_id == b.host_id,
        a.players.len() == b.players.len(),
        forall|j: int| 0 <= j < a.players.len() ==> (#[trigger] b.players[j]).snapshot.id == a.players[j].snapshot.id,
    ensures
        room_wf(b),
{
    let h = choose|j: int| 0 <= j < a.players.len() && (#[trigger] a.players[j]).snapshot.id@ == a.host_id;
    assert(b.players[h].snapshot.id@ == b.host_id);
    assert forall|i: int, j: int|
        0 <= i < b.players.len() && 0 <= j < b.players.len() && i != j
            implies (#[trigger] b.players[i]).snapshot.id@ != (#[trigger] b.players[j]).snapshot.id@ by {
        assert(a.players[i].snapshot.id@ != a.players[j].snapshot.id@);
    }
}

/// Position of the player with the given identifier.
fn position_of(players: &Vec<Player>, id: &str) -> (r: Option<usize>)
    ensures
        match r {
            Some(k) => k < players@.len() && players@[k as int].snapshot.id@ == id@,
            None => !has_player(players@, id@),
        },
{
    let mut j: usize = 0;
    while j < players.len()
        invariant
            j <= players@.len(),
            forall|k: int| 0 <= k < j ==> (#[trigger] players@[k]).snapshot.id@ != id@,
        decreases players@.len() - j,
    {
        if text_eq(players[j].snapshot.id.as_str(), id) {
            return Some(j);
        }
        j += 1;
    }
    None
}

fn count_connected(players: &Vec<Player>) -> (n: usize)
    ensures
        n == connected_count(players@),
{
    let mut n: usize = 0;
    let mut j: usize = 0;
    while j < players.len()
        invariant
            j <= players@.len(),
            n == connected_count(players@.take(j as int)),
            n <= j,
        decreases players@.len() - j,
    {
        assert(players@.take(j + 1).drop_last() =~= players@.take(j as int));
        if players[j].snapshot.connected {
            n += 1;
        }
        j += 1;
    }
    assert(players@.take(j as int) =~= players@);
    n
}

fn all_finished(players: &Vec<Player>) -> (r: bool)
    ensures
        r == all_connected_finished(players@),
{
    let mut any = false;
    let mut j: usize = 0;
    while j < players.len()
        invariant
            j <= players@.len(),
            any == exists|k: int| 0 <= k < j && (#[trigger] players@[k]).snapshot.connected,
            forall|k: int|
                0 <= k < j && (#[trigger] players@[k]).snapshot.connected
                    ==> players@[k].snapshot.finished,
        decreases players@.len() - j,
    {
        if players[j].snapshot.connected {
            if !players[j].snapshot.finished {
                return false;
            }
            any = true;
        }
        j += 1;
    }
    any
}

fn sat_mul_1000_exec(seconds: u64) -> (r: u64)
    ensures
        r == sat_mul_1000(seconds),
{
    if seconds > u64::MAX / 1000 {
        u64::MAX
    } else {
        seconds * 1000
    }
}

fn no_output() -> (out: RelayOutput)
    ensures
        out.deliveries@.len() == 0,
        out.countdown is None,
{
    RelayOutput { deliveries: Vec::new(), countdown: None }
}

impl Room {
    /// A non-fatal error for the player, if the room has that player.
    fn error_to(&self, id: &str, text: &str) -> (ds: Vec<Delivery>)
        ensures
            delivers(ds@, error_to(self.model(), id@, text@)),
    {
        let mut ds: Vec<Delivery> = Vec::new();
        if position_of(&self.players, id).is_some() {
            ds.push(
                Delivery {
                    player_id: id.to_owned(),
                    message: ServerMessage::Error { message: text.to_owned(), fatal: false },
                },
            );
        }
        ds
    }

    /// Applies a message from player `id` at time `now`.
    fn step(&mut self, id: &str, message: ClientMessage, now: u64) -> (out: RelayOutput)
        requires
            room_wf(old(self).model()),
            now <= u64::MAX - COUNTDOWN_MS,
        ensures
            room_wf(final(self).model()),
            ({
                let (n, notices, countdown) = room_step(old(self).model(), id@, message, now);
                &&& final(self).model() == n
                &&& delivers(out.deliveries@, notices)
                &&& out.countdown == countdown
            }),
    {
        let ghost before = self.players@;
        let ghost m0 = self.model();
        self.last_active_ms = now;
        match message {
            ClientMessage::SetReady { ready } => {
                if self.phase == RoomPhase::Lobby {
                    match position_of(&self.players, id) {
                        Some(k) => {
                            self.players[k].snapshot.ready = ready;
                        },
                        None => {},
                    }
                    assert(self.players@ =~= update_player(before, id@, |p: Player| with_ready(p, ready)));
                    proof {
                        lemma_same_ids_wf(m0, self.model());
                    }
                    let deliveries = self.broadcast();
                    return RelayOutput { deliveries, countdown: None };
                }
                no_output()
            },
            ClientMessage::Start => {
                if self.phase == RoomPhase::Lobby {
                    if !text_eq(self.host_id.as_str(), id) {
                        let deliveries = self.error_to(id, "Only the host can start");
                        return RelayOutput { deliveries, countdown: None };
                    }
                    if count_connected(&self.players) < 2 {
                        let deliveries = self.error_to(id, "At least two players are required");
                        return RelayOutput { deliveries, countdown: None };
                    }
                    let starts_at_ms = now + COUNTDOWN_MS;
                    self.phase = RoomPhase::Countdown { starts_at_ms };
                    let deliveries = self.broadcast();
                    return RelayOutput { deliveries, countdown: Some(starts_at_ms) };
                }
                no_output()
            },
            ClientMessage::Progress { cursor, wpm_bits, accuracy_bits, mistakes, finished, elapsed_ms } => {
                match self.phase.starts_at_ms() {
                    Some(start) => {
                        if now >= start {
                            let text_len = char_count(self.content.text.as_str());
                            let c = if cursor <= text_len {
                                cursor
                            } else {
                                text_len
                            };
                            let complete = match self.mode {
                                SessionMode::Timed(seconds) => elapsed_ms >= sat_mul_1000_exec(seconds),
                                _ => c == text_len,
                            };
                            let done = finished && complete;
                            match position_of(&self.players, id) {
                                Some(k) => {
                                    self.players[k].snapshot.cursor = c;
                                    self.players[k].snapshot.wpm_bits = wpm_bits;
                                    self.players[k].snapshot.accuracy_bits = accuracy_bits;
                                    self.players[k].snapshot.mistakes = mistakes;
                                    self.players[k].snapshot.finished = done;
                                    self.players[k].snapshot.elapsed_ms = if done {
                                        Some(elapsed_ms)
                                    } else {
                                        None
                                    };
                                },
                                None => {},
                            }
                            assert(self.players@ =~= update_player(
                                before,
                                id@,
                                |p: Player| with_progress(p, c, wpm_bits, accuracy_bits, mistakes, done, elapsed_ms),
                            ));
                            proof {
                                lemma_same_ids_wf(m0, self.model());
                            }
                            if all_finished(&self.players) {
                                self.phase = RoomPhase::Finished { starts_at_ms: start };
                            }
                            let deliveries = self.broadcast();
                            return RelayOutput { deliveries, countdown: None };
                        }
                        no_output()
                    },
                    None => no_output(),
                }
            },
            ClientMessage::Ping { nonce } => {
                let mut deliveries: Vec<Delivery> = Vec::new();
                if position_of(&self.players, id).is_some() {
                    deliveries.push(
                        Delivery {
                            player_id: id.to_owned(),
                            message: ServerMessage::Pong { nonce, server_time_ms: now },
                        },
                    );
                }
                RelayOutput { deliveries, countdown: None }
            },
            _ => no_output(),
        }
    }
}


/// What a message from player `id` of room `code` does to the relay.
pub open spec fn handled(
    before: Seq<RoomModel>,
    code: Seq<char>,
    id: Seq<char>,
    message: ClientMessage,
    now: u64,
    after: Seq<RoomModel>,
    out: RelayOutput,
) -> bool {
    let k = first_room(before, code);
    if k < 0 {
        &&& after == before
        &&& out.deliveries@.len() == 0
        &&& out.countdown is None
    } else {
        let (n, notices, countdown) = room_step(before[k], id, message, now);
        &&& after == before.update(k, n)
        &&& delivers(out.deliveries@, notices)
        &&& out.countdown == countdown
    }
}

/// A message handled at clock reading `now`: readings within `COUNTDOWN_MS`
/// of `u64::MAX` change nothing and send nothing; others are `handled`.
pub open spec fn handled_on_clock(
    before: Seq<RoomModel>,
    code: Seq<char>,
    id: Seq<char>,
    message: ClientMessage,
    now: u64,
    after: Seq<RoomModel>,
    out: RelayOutput,
) -> bool {
    if now > u64::MAX - COUNTDOWN_MS {
        &&& after == before
        &&& out.deliveries@.len() == 0
        &&& out.countdown is None
    } else {
        handled(before, code, id, message, now, after, out)
    }
}

/// The end of a countdown: the room races if that countdown is still the current one.
pub open spec fn countdown_finished(before: Seq<RoomModel>, code: Seq<char>, starts_at_ms: u64, after: Seq<RoomModel>, ds: Seq<Delivery>) -> bool {
    let k = first_room(before, code);
    if k >= 0 && before[k].phase == (RoomPhase::Countdown { starts_at_ms }) {
        let n = RoomModel { phase: RoomPhase::Racing { starts_at_ms }, ..before[k] };
        &&& after == before.update(k, n)
        &&& delivers(ds, broadcast_of(n))
    } else {
        &&& after == before
        &&& ds.len() == 0
    }
}

pub open spec fn player_position(players: Seq<Player>, id: Seq<char>) -> int {
    first_index(players, id_is(id))
}

/// A connection ends: if it is the player's current connection, the player
/// is marked disconnected and, if it was the host, the first connected
/// player becomes host.
pub open spec fn departed(
    before: Seq<RoomModel>,
    code: Seq<char>,
    id: Seq<char>,
    connection: Seq<char>,
    now: u64,
    after: Seq<RoomModel>,
    ds: Seq<Delivery>,
) -> bool {
    let k = first_room(before, code);
    let m = before[k];
    let j = player_position(m.players, id);
    if k >= 0 && j >= 0 && m.players[j].connection_id@ == connection {
        let players = m.players.update(j, with_connected(m.players[j], false));
        let f = first_connected(players);
        let host_id = if m.host_id == id && f >= 0 {
            players[f].snapshot.id@
        } else {
            m.host_id
        };
        let n = RoomModel { players, host_id, last_active_ms: now, ..m };
        &&& after == before.update(k, n)
        &&& delivers(ds, broadcast_of(n))
    } else {
        &&& after == before
        &&& ds.len() == 0
    }
}

pub open spec fn has_connected(players: Seq<Player>) -> bool {
    exists|j: int| 0 <= j < players.len() && (#[trigger] players[j]).snapshot.connected
}

/// A room stays while someone is connected or it was active within `IDLE_ROOM_MS`.
pub open spec fn room_kept(m: RoomModel, now: u64) -> bool {
    has_connected(m.players) || (if now >= m.last_active_ms { now - m.last_active_ms } else { 0 }) < IDLE_ROOM_MS
}

impl RelayState {
    /// A relay without rooms.
    pub fn new() -> (r: RelayState)
        ensures
            r.model().len() == 0,
            r.wf(),
    {
        RelayState { rooms: Vec::new() }
    }

    /// Position of the room with the given code.
    pub fn room_index(&self, code: &str) -> (r: Option<usize>)
        ensures
            match r {
                Some(k) => k as int == first_room(self.model(), code@) && k < self.rooms@.len(),
                None => first_room(self.model(), code@) == -1,
            },
    {
        let ghost p = code_is(code@);
        let mut j: usize = 0;
        while j < self.rooms.len()
            invariant
                j <= self.rooms@.len(),
                p == code_is(code@),
                forall|k: int| 0 <= k < j ==> !p(#[trigger] self.model()[k]),
            decreases self.rooms@.len() - j,
        {
            if text_eq(self.rooms[j].code.as_str(), code) {
                proof {
                    lemma_first_index(self.model(), p, j as int);
                }
                return Some(j);
            }
            j += 1;
        }
        proof {
            lemma_first_index(self.model(), p, j as int);
        }
        None
    }

    /// Applies a message from a player at time `now` (milliseconds of the relay clock).
    pub fn handle_message_at(&mut self, code: &str, player_id: &str, message: ClientMessage, now: u64) -> (out: RelayOutput)
        requires
            old(self).wf(),
            now <= u64::MAX - COUNTDOWN_MS,
        ensures
            final(self).wf(),
            handled(old(self).model(), code@, player_id@, message, now, final(self).model(), out),
    {
        match self.room_index(code) {
            None => no_output(),
            Some(k) => {
                let ghost before = self.model();
                proof {
                    assert(room_wf(before[k as int]));
                }
                let out = self.rooms[k].step(player_id, message, now);
                proof {
                    assert(self.model() =~= before.update(k as int, self.rooms@[k as int].model()));
                    assert forall|i: int, j: int|
                        0 <= i < self.model().len() && 0 <= j < self.model().len() && i != j
                            implies (#[trigger] self.model()[i]).code != (#[trigger] self.model()[j]).code by {
                        assert(before[i].code != before[j].code);
                    }
                }
                out
            },
        }
    }

    /// Applies a message from a player, reading the relay clock. Does nothing
    /// when the clock reads within `COUNTDOWN_MS` of `u64::MAX`.
    pub fn handle_message(&mut self, code: &str, player_id: &str, message: ClientMessage) -> (out: RelayOutput)
        requires
            old(self).wf(),
        ensures
            final(self).wf(),
            exists|now: u64| #[trigger] handled_on_clock(old(self).model(), code@, player_id@, message, now, final(self).model(), out),
    {
        let now = now_ms();
        if now > u64::MAX - COUNTDOWN_MS {
            let out = no_output();
            assert(handled_on_clock(self.model(), code@, player_id@, message, now, self.model(), out));
            return out;
        }
        let ghost before = self.model();
        let out = self.handle_message_at(code, player_id, message, now);
        assert(handled_on_clock(before, code@, player_id@, message, now, self.model(), out));
        out
    }

    /// The end of the countdown that started at `starts_at_ms`.
    pub fn finish_countdown(&mut self, code: &str, starts_at_ms: u64) -> (ds: Vec<Delivery>)
        requires
            old(self).wf(),
        ensures
            final(self).wf(),
            countdown_finished(old(self).model(), code@, starts_at_ms, final(self).model(), ds@),
    {
        match self.room_index(code) {
            None => Vec::new(),
            Some(k) => {
                if self.rooms[k].phase == (RoomPhase::Countdown { starts_at_ms }) {
                    let ghost before = self.model();
                    self.rooms[k].phase = RoomPhase::Racing { starts_at_ms };
                    proof {
                        assert(self.model() =~= before.update(k as int, self.rooms@[k as int].model()));
                        lemma_same_ids_wf(before[k as int], self.model()[k as int]);
                        assert forall|i: int, j: int|
                            0 <= i < self.model().len() && 0 <= j < self.model().len() && i != j
                                implies (#[trigger] self.model()[i]).code != (#[trigger] self.model()[j]).code by {
                            assert(before[i].code != before[j].code);
                        }
                    }
                    self.rooms[k].broadcast()
                } else {
                    Vec::new()
                }
            },
        }
    }

    /// A connection of player `player_id` ended at time `now`.
    pub fn disconnect(&mut self, code: &str, player_id: &str, connection_id: &str, now: u64) -> (ds: Vec<Delivery>)
        requires
            old(self).wf(),
        ensures
            final(self).wf(),
            departed(old(self).model(), code@, player_id@, connection_id@, now, final(self).model(), ds@),
    {
        let k = match self.room_index(code) {
            None => return Vec::new(),
            Some(k) => k,
        };
        let ghost before = self.model();
        let ghost m = before[k as int];
        let j = match position_of(&self.rooms[k].players, player_id) {
            None => {
                proof {
                    lemma_first_index_found(m.players, id_is(player_id@));
                }
                return Vec::new();
            },
            Some(j) => j,
        };
        proof {
            lemma_first_index_found(m.players, id_is(player_id@));
            let f = player_position(m.players, player_id@);
            if f != j {
                assert(m.players[f].snapshot.id@ == m.players[j as int].snapshot.id@);
            }
        }
        if !text_eq(self.rooms[k].players[j].connection_id.as_str(), connection_id) {
            return Vec::new();
        }
        self.rooms[k].players[j].snapshot.connected = false;
        let ghost players = self.rooms@[k as int].players@;
        assert(players == m.players.update(j as int, with_connected(m.players[j as int], false)));
        if text_eq(self.rooms[k].host_id.as_str(), player_id) {
            let mut f: usize = 0;
            let mut found = false;
            let ghost p = connected();
            while f < self.rooms[k].players.len() && !found
                invariant
                    k < self.rooms@.len(),
                    self.rooms@[k as int].players@ == players,
                    f <= players.len(),
                    p == connected(),
                    forall|i: int| 0 <= i < f ==> !p(#[trigger] players[i]),
                    found ==> f < players.len() && players[f as int].snapshot.connected,
                decreases players.len() - f + (if found { 0int } else { 1int }),
            {
                if self.rooms[k].players[f].snapshot.connected {
                    found = true;
                } else {
                    f += 1;
                }
            }
            proof {
                if found {
                    lemma_first_index(players, p, f as int);
                } else {
                    lemma_first_index(players, p, players.len() as int);
                }
            }
            if found {
                let next_host = self.rooms[k].players[f].snapshot.id.clone();
                self.rooms[k].host_id = next_host;
            }
        }
        self.rooms[k].last_active_ms = now;
        proof {
            assert(self.model() =~= before.update(k as int, self.rooms@[k as int].model()));
            let n = self.model()[k as int];
            assert forall|i: int| 0 <= i < m.players.len() implies (#[trigger] n.players[i]).snapshot.id == m.players[i].snapshot.id by {}
            let h = choose|i: int| 0 <= i < m.players.len() && (#[trigger] m.players[i]).snapshot.id@ == m.host_id;
            if n.host_id == m.host_id {
                assert(n.players[h].snapshot.id@ == n.host_id);
            } else {
                let f = first_connected(players);
                lemma_first_index_found(players, connected());
                assert(n.players[f].snapshot.id@ == n.host_id);
            }
            assert forall|a: int, b: int|
                0 <= a < n.players.len() && 0 <= b < n.players.len() && a != b
                    implies (#[trigger] n.players[a]).snapshot.id@ != (#[trigger] n.players[b]).snapshot.id@ by {
                assert(m.players[a].snapshot.id@ != m.players[b].snapshot.id@);
            }
            assert forall|a: int, b: int|
                0 <= a < self.model().len() && 0 <= b < self.model().len() && a != b
                    implies (#[trigger] self.model()[a]).code != (#[trigger] self.model()[b]).code by {
                assert(before[a].code != before[b].code);
            }
        }
        self.rooms[k].broadcast()
    }

    /// Drops the rooms that nobody is connected to and that were idle for
    /// `IDLE_ROOM_MS` or more at time `now`.
    pub fn retain_active(&mut self, now: u64)
        requires
            old(self).wf(),
        ensures
            final(self).wf(),
            final(self).model() == old(self).model().filter(|m: RoomModel| room_kept(m, now)),
    {
        let ghost before = self.model();
        let ghost keep = |m: RoomModel| room_kept(m, now);
        let mut kept: Vec<Room> = Vec::new();
        let ghost mut i: int = 0;
        while self.rooms.len() > 0
            invariant
                0 <= i <= before.len(),
                self.model() == before.skip(i),
                keep == (|m: RoomModel| room_kept(m, now)),
                relay_wf(before),
                kept@.map_values(|r: Room| r.model()) == before.take(i).filter(keep),
                relay_wf(kept@.map_values(|r: Room| r.model())),
                forall|a: int, b: int|
                    0 <= a < kept@.len() && i <= b < before.len() ==> (#[trigger] kept@[a]).code@ != (#[trigger] before[b]).code,
            decreases self.rooms@.len(),
        {
            let ghost kept_before = kept@;
            proof {
                assert(self.model().len() == self.rooms@.len());
                assert(before.skip(i).len() == before.len() - i);
            }
            let ghost rooms_before = self.rooms@;
            let room = self.rooms.remove(0);
            proof {
                reveal(Seq::filter);
                assert(self.rooms@ =~= rooms_before.remove(0));
                assert forall|q: int| 0 <= q < self.rooms@.len() implies #[trigger] self.model()[q] == before[i + 1 + q] by {
                    assert(self.rooms@[q] == rooms_before[q + 1]);
                    assert(before.skip(i)[q + 1] == before[i + 1 + q]);
                }
                assert(before.take(i + 1).drop_last() =~= before.take(i));
                assert(before.take(i + 1).last() == before[i]);
                assert(before.skip(i)[0] == before[i]);
                assert(self.model() =~= before.skip(i + 1));
            }
            let has_conn = {
                let mut any = false;
                let mut j: usize = 0;
                while j < room.players.len()
                    invariant
                        j <= room.players@.len(),
                        any == exists|q: int| 0 <= q < j && (#[trigger] room.players@[q]).snapshot.connected,
                    decreases room.players@.len() - j,
                {
                    if room.players[j].snapshot.connected {
                        any = true;
                    }
                    j += 1;
                }
                any
            };
            let idle = if now >= room.last_active_ms {
                now - room.last_active_ms
            } else {
                0
            };
            if has_conn || idle < IDLE_ROOM_MS {
                kept.push(room);
                proof {
                    assert(kept@.map_values(|r: Room| r.model()) =~= kept_before.map_values(|r: Room| r.model()).push(before[i]));
                    let km = kept@.map_values(|r: Room| r.model());
                    assert forall|a: int, b: int|
                        0 <= a < km.len() && 0 <= b < km.len() && a != b
                            implies (#[trigger] km[a]).code != (#[trigger] km[b]).code by {
                        if a < kept_before.len() && b < kept_before.len() {
                            assert(kept_before[a].code@ != kept_before[b].code@);
                        } else if a < kept_before.len() {
                            assert(kept_before[a].code@ != before[i].code);
                        } else {
                            assert(kept_before[b].code@ != before[i].code);
                        }
                    }
                    assert forall|a: int| 0 <= a < km.len() implies room_wf(#[trigger] km[a]) by {
                        if a < kept_before.len() {
                            assert(km[a] == kept_before.map_values(|r: Room| r.model())[a]);
                        }
                    }
                }
            } else {
                proof {
                    assert(kept@.map_values(|r: Room| r.model()) =~= kept_before.map_values(|r: Room| r.model()));
                }
            }
            proof {
                assert forall|a: int, b: int|
                    0 <= a < kept@.len() && i + 1 <= b < before.len() implies (#[trigger] kept@[a]).code@ != (#[trigger] before[b]).code by {
                    if a < kept_before.len() {
                        assert(kept_before[a] == kept@[a]);
                    } else {
                        assert(before[i].code != before[b].code);
                    }
                }
                i = i + 1;
            }
        }
        proof {
            assert(before.take(i) =~= before);
        }
        self.rooms = kept;
    }
}


/// Whether `p` is a player who just joined under the given values.
pub open spec fn is_new_player(
    p: Player,
    id: Seq<char>,
    name: Seq<char>,
    resume_token: Seq<char>,
    connection_id: Seq<char>,
) -> bool {
    &&& p.snapshot.id@ == id
    &&& p.snapshot.name@ == name
    &&& !p.snapshot.ready
    &&& p.snapshot.connected
    &&& p.snapshot.cursor == 0
    &&& p.snapshot.wpm_bits == START_WPM_BITS
    &&& p.snapshot.accuracy_bits == START_ACCURACY_BITS
    &&& p.snapshot.mistakes == 0
    &&& !p.snapshot.finished
    &&& p.snapshot.elapsed_ms is None
    &&& p.resume_token@ == resume_token
    &&& p.connection_id@ == connection_id
}

/// A welcome for the admitted player, then the room's state for everyone.
pub open spec fn welcome_and_broadcast(id: Seq<char>, resume_token: Seq<char>, n: RoomModel) -> Seq<(Seq<char>, Notice)> {
    seq![(id, Notice::Welcome { player_id: id, resume_token, room: n })] + broadcast_of(n)
}

pub open spec fn refused(r: Result<Admission, String>, text: Seq<char>) -> bool {
    r matches Err(e) && e@ == text
}

pub open spec fn admitted_as(r: Result<Admission, String>, code: Seq<char>, id: Seq<char>, connection_id: Seq<char>, notices: Seq<(Seq<char>, Notice)>) -> bool {
    r matches Ok(a) && a.code@ == code && a.player_id@ == id && a.connection_id@ == connection_id && delivers(a.deliveries@, notices)
}

/// The room code a join request names: trimmed, in upper case.
pub open spec fn spec_join_code(code: Seq<char>) -> Seq<char> {
    spec_trim(code).map_values(|c: char| spec_ascii_upper(c))
}

pub open spec fn name_taken(players: Seq<Player>, name: Seq<char>) -> bool {
    exists|q: int| 0 <= q < players.len() && spec_eq_ignore_ascii_case((#[trigger] players[q]).snapshot.name@, name)
}

/// What a first message does to the relay, given the fresh random values.
pub open spec fn admitted(
    before: Seq<RoomModel>,
    hello: ClientMessage,
    fresh: FreshIds,
    now: u64,
    after: Seq<RoomModel>,
    r: Result<Admission, String>,
) -> bool {
    match hello {
        ClientMessage::Create { name, content, mode, mistake_mode, autopairs } => {
            let clean = spec_clean_name(name@);
            if content.text@.len() == 0 {
                after == before && refused(r, "Race content is empty"@)
            } else if spec_utf8_len(content.text@) > MAX_CONTENT_BYTES {
                after == before && refused(r, "Race content is too large"@)
            } else if clean.len() == 0 {
                after == before && refused(r, "Enter a player name"@)
            } else {
                let n = after.last();
                &&& after.len() == before.len() + 1
                &&& after.drop_last() == before
                &&& n.code == fresh.code@
                &&& n.host_id == fresh.player_id@
                &&& n.content == content
                &&& n.mode == mode
                &&& n.mistake_mode == mistake_mode
                &&& n.autopairs == autopairs
                &&& n.phase == RoomPhase::Lobby
                &&& n.players.len() == 1
                &&& is_new_player(n.players[0], fresh.player_id@, clean, fresh.resume_token@, fresh.connection_id@)
                &&& n.last_active_ms == now
                &&& admitted_as(
                    r,
                    fresh.code@,
                    fresh.player_id@,
                    fresh.connection_id@,
                    seq![(fresh.player_id@, Notice::Welcome { player_id: fresh.player_id@, resume_token: fresh.resume_token@, room: n })],
                )
            }
        },
        ClientMessage::Join { code, name, resume_token } => {
            let c = spec_join_code(code@);
            let clean = spec_clean_name(name@);
            let k = first_room(before, c);
            let m = RoomModel { last_active_ms: now, ..before[k] };
            let j = match resume_token {
                Some(t) => first_with_token(m.players, t@),
                None => -1,
            };
            if clean.len() == 0 {
                after == before && refused(r, "Enter a player name"@)
            } else if k < 0 {
                after == before && refused(r, "Room not found"@)
            } else if j >= 0 {
                let p = m.players[j];
                let players = m.players.update(
                    j,
                    Player { snapshot: PlayerSnapshot { connected: true, ..p.snapshot }, connection_id: fresh.connection_id, ..p },
                );
                let n = RoomModel { players, ..m };
                &&& after == before.update(k, n)
                &&& admitted_as(r, c, p.snapshot.id@, fresh.connection_id@, welcome_and_broadcast(p.snapshot.id@, p.resume_token@, n))
            } else if m.phase != RoomPhase::Lobby {
                after == before.update(k, m) && refused(r, "Race already started"@)
            } else if m.players.len() >= MAX_PLAYERS {
                after == before.update(k, m) && refused(r, "Room is full"@)
            } else if name_taken(m.players, clean) {
                after == before.update(k, m) && refused(r, "Name already in use"@)
            } else {
                let n = after[k];
                &&& after.len() == before.len()
                &&& forall|i: int| 0 <= i < before.len() && i != k ==> after[i] == before[i]
                &&& n == RoomModel { players: n.players, ..m }
                &&& n.players.len() == m.players.len() + 1
                &&& n.players.drop_last() == m.players
                &&& is_new_player(n.players.last(), fresh.player_id@, clean, fresh.resume_token@, fresh.connection_id@)
                &&& admitted_as(r, c, fresh.player_id@, fresh.connection_id@, welcome_and_broadcast(fresh.player_id@, fresh.resume_token@, n))
            }
        },
        _ => after == before && refused(r, "Expected create or join request"@),
    }
}

/// A first message that passes every check the relay makes before it needs
/// fresh values: a room to create with content and a name, or a new player
/// for a lobby that has room and no one of that name (a resume by token
/// needs no new identifier).
pub open spec fn passes_checks(before: Seq<RoomModel>, hello: ClientMessage) -> bool {
    match hello {
        ClientMessage::Create { name, content, .. } => {
            &&& content.text@.len() > 0
            &&& spec_utf8_len(content.text@) <= MAX_CONTENT_BYTES
            &&& spec_clean_name(name@).len() > 0
        },
        ClientMessage::Join { code, name, resume_token } => {
            let clean = spec_clean_name(name@);
            let k = first_room(before, spec_join_code(code@));
            &&& clean.len() > 0
            &&& k >= 0
            &&& match resume_token {
                Some(t) => first_with_token(before[k].players, t@) < 0,
                None => true,
            }
            &&& before[k].phase == RoomPhase::Lobby
            &&& before[k].players.len() < MAX_PLAYERS
            &&& !name_taken(before[k].players, clean)
        },
        _ => false,
    }
}

/// Fresh values the admission may use: when the message passes the checks,
/// a player identifier no player has and, to create a room, a code no room
/// has.
pub open spec fn fresh_for(before: Seq<RoomModel>, fresh: FreshIds, hello: ClientMessage) -> bool {
    passes_checks(before, hello) ==> {
        &&& hello is Create ==> forall|i: int| 0 <= i < before.len() ==> (#[trigger] before[i]).code != fresh.code@
        &&& forall|i: int| 0 <= i < before.len() ==> !has_player((#[trigger] before[i]).players, fresh.player_id@)
    }
}

proof fn lemma_delivers_concat(a: Seq<Delivery>, b: Seq<Delivery>, x: Seq<(Seq<char>, Notice)>, y: Seq<(Seq<char>, Notice)>)
    requires
        delivers(a, x),
        delivers(b, y),
    ensures
        delivers(a + b, x + y),
{
    assert forall|i: int| 0 <= i < (a + b).len() implies (#[trigger] (a + b)[i]).player_id@ == (x + y)[i].0 && conveys((a + b)[i].message, (x + y)[i].1) by {
        if i >= a.len() {
            assert((a + b)[i] == b[i - a.len()]);
            assert((x + y)[i] == y[i - a.len()]);
        }
    }
}

fn first_token_holder(players: &Vec<Player>, token: &str) -> (r: Option<usize>)
    ensures
        match r {
            Some(j) => j as int == first_with_token(players@, token@) && j < players@.len(),
            None => first_with_token(players@, token@) == -1,
        },
{
    let ghost p = token_is(token@);
    let mut j: usize = 0;
    while j < players.len()
        invariant
            j <= players@.len(),
            p == token_is(token@),
            forall|i: int| 0 <= i < j ==> !p(#[trigger] players@[i]),
        decreases players@.len() - j,
    {
        if text_eq(players[j].resume_token.as_str(), token) {
            proof {
                lemma_first_index(players@, p, j as int);
            }
            return Some(j);
        }
        j += 1;
    }
    proof {
        lemma_first_index(players@, p, j as int);
    }
    None
}

fn is_name_taken(players: &Vec<Player>, name: &str) -> (r: bool)
    ensures
        r == name_taken(players@, name@),
{
    let mut j: usize = 0;
    while j < players.len()
        invariant
            j <= players@.len(),
            forall|q: int| 0 <= q < j ==> !spec_eq_ignore_ascii_case((#[trigger] players@[q]).snapshot.name@, name@),
        decreases players@.len() - j,
    {
        if eq_ignore_ascii_case(players[j].snapshot.name.as_str(), name) {
            return true;
        }
        j += 1;
    }
    false
}

fn new_player(id: String, name: String, resume_token: String, connection_id: String) -> (p: Player)
    ensures
        is_new_player(p, id@, name@, resume_token@, connection_id@),
{
    Player {
        snapshot: PlayerSnapshot {
            id,
            name,
            ready: false,
            connected: true,
            cursor: 0,
            wpm_bits: START_WPM_BITS,
            accuracy_bits: START_ACCURACY_BITS,
            mistakes: 0,
            finished: false,
            elapsed_ms: None,
        },
        resume_token,
        connection_id,
    }
}

impl RelayState {
    /// Handles the first message of a connection at time `now`, with the
    /// given fresh random values.
    pub fn accept(&mut self, hello: ClientMessage, fresh: FreshIds, now: u64) -> (r: Result<Admission, String>)
        requires
            old(self).wf(),
            fresh_for(old(self).model(), fresh, hello),
        ensures
            final(self).wf(),
            admitted(old(self).model(), hello, fresh, now, final(self).model(), r),
    {
        let ghost before = self.model();
        let ghost fresh0 = fresh;
        match hello {
            ClientMessage::Create { name, content, mode, mistake_mode, autopairs } => {
                match validate_content(&content) {
                    Err(e) => {
                        return Err(e);
                    },
                    Ok(()) => {},
                }
                let clean = match validate_name(name.as_str()) {
                    Err(e) => {
                        return Err(e);
                    },
                    Ok(n) => n,
                };
                let FreshIds { code, player_id, resume_token, connection_id } = fresh;
                let player = new_player(player_id.clone(), clean, resume_token.clone(), connection_id.clone());
                let mut players: Vec<Player> = Vec::new();
                players.push(player);
                let room = Room {
                    code: code.clone(),
                    host_id: player_id.clone(),
                    content,
                    mode,
                    mistake_mode,
                    autopairs,
                    phase: RoomPhase::Lobby,
                    players,
                    last_active_ms: now,
                };
                let snapshot = room.snapshot();
                proof {
                    assert(room.players@[0].snapshot.id@ == room.host_id@);
                    assert(room_wf(room.model()));
                }
                self.rooms.push(room);
                let mut deliveries: Vec<Delivery> = Vec::new();
                deliveries.push(
                    Delivery {
                        player_id: player_id.clone(),
                        message: ServerMessage::Welcome { player_id: player_id.clone(), resume_token, room: snapshot },
                    },
                );
                proof {
                    assert(self.model().drop_last() =~= before);
                    assert forall|i: int, j: int|
                        0 <= i < self.model().len() && 0 <= j < self.model().len() && i != j
                            implies (#[trigger] self.model()[i]).code != (#[trigger] self.model()[j]).code by {
                        if i < before.len() && j < before.len() {
                            assert(before[i].code != before[j].code);
                        } else if i < before.len() {
                            assert(before[i].code != fresh0.code@);
                        } else {
                            assert(before[j].code != fresh0.code@);
                        }
                    }
                    assert forall|i: int| 0 <= i < self.model().len() implies room_wf(#[trigger] self.model()[i]) by {
                        if i < before.len() {
                            assert(self.model()[i] == before[i]);
                        }
                    }
                }
                Ok(Admission { code, player_id, connection_id, deliveries })
            },
            ClientMessage::Join { code, name, resume_token } => {
                let c = trimmed_ascii_uppercase(code.as_str());
                let clean = match validate_name(name.as_str()) {
                    Err(e) => {
                        return Err(e);
                    },
                    Ok(n) => n,
                };
                let k = match self.room_index(c.as_str()) {
                    None => {
                        return Err("Room not found".to_owned());
                    },
                    Some(k) => k,
                };
                proof {
                    assert(room_wf(before[k as int]));
                }
                self.rooms[k].last_active_ms = now;
                let ghost m = self.rooms@[k as int].model();
                let held = match &resume_token {
                    Some(t) => first_token_holder(&self.rooms[k].players, t.as_str()),
                    None => None,
                };
                match held {
                    Some(j) => {
                        self.rooms[k].players[j].snapshot.connected = true;
                        self.rooms[k].players[j].connection_id = fresh.connection_id;
                        proof {
                            let p = m.players[j as int];
                            assert(self.rooms@[k as int].players@ =~= m.players.update(
                                j as int,
                                Player { snapshot: PlayerSnapshot { connected: true, ..p.snapshot }, connection_id: fresh0.connection_id, ..p },
                            ));
                        }
                        let pid = self.rooms[k].players[j].snapshot.id.clone();
                        let token = self.rooms[k].players[j].resume_token.clone();
                        let connection = self.rooms[k].players[j].connection_id.clone();
                        let snapshot = self.rooms[k].snapshot();
                        let mut deliveries: Vec<Delivery> = Vec::new();
                        deliveries.push(
                            Delivery {
                                player_id: pid.clone(),
                                message: ServerMessage::Welcome { player_id: pid.clone(), resume_token: token, room: snapshot },
                            },
                        );
                        let mut rest = self.rooms[k].broadcast();
                        let ghost first = deliveries@;
                        let ghost others = rest@;
                        deliveries.append(&mut rest);
                        proof {
                            let n = self.rooms@[k as int].model();
                            lemma_delivers_concat(
                                first,
                                others,
                                seq![(pid@, Notice::Welcome { player_id: pid@, resume_token: token@, room: n })],
                                broadcast_of(n),
                            );
                            assert(first + others =~= deliveries@);
                            assert(self.model() =~= before.update(k as int, n));
                            lemma_same_ids_wf(m, n);
                            assert forall|a: int, b: int|
                                0 <= a < self.model().len() && 0 <= b < self.model().len() && a != b
                                    implies (#[trigger] self.model()[a]).code != (#[trigger] self.model()[b]).code by {
                                assert(before[a].code != before[b].code);
                            }
                        }
                        return Ok(Admission { code: c, player_id: pid, connection_id: connection, deliveries });
                    },
                    None => {},
                }
                proof {
                    assert(self.model() =~= before.update(k as int, m));
                    lemma_same_ids_wf(before[k as int], m);
                    assert forall|a: int, b: int|
                        0 <= a < self.model().len() && 0 <= b < self.model().len() && a != b
                            implies (#[trigger] self.model()[a]).code != (#[trigger] self.model()[b]).code by {
                        assert(before[a].code != before[b].code);
                    }
                }
                if self.rooms[k].phase != RoomPhase::Lobby {
                    return Err("Race already started".to_owned());
                }
                if self.rooms[k].players.len() >= MAX_PLAYERS {
                    return Err("Room is full".to_owned());
                }
                if is_name_taken(&self.rooms[k].players, clean.as_str()) {
                    return Err("Name already in use".to_owned());
                }
                let FreshIds { code: _, player_id, resume_token: token, connection_id } = fresh;
                let player = new_player(player_id.clone(), clean, token.clone(), connection_id.clone());
                self.rooms[k].players.push(player);
                let snapshot = self.rooms[k].snapshot();
                let mut deliveries: Vec<Delivery> = Vec::new();
                deliveries.push(
                    Delivery {
                        player_id: player_id.clone(),
                        message: ServerMessage::Welcome { player_id: player_id.clone(), resume_token: token.clone(), room: snapshot },
                    },
                );
                let mut rest = self.rooms[k].broadcast();
                let ghost first = deliveries@;
                let ghost others = rest@;
                deliveries.append(&mut rest);
                proof {
                    let n = self.rooms@[k as int].model();
                    lemma_delivers_concat(
                        first,
                        others,
                        seq![(player_id@, Notice::Welcome { player_id: player_id@, resume_token: token@, room: n })],
                        broadcast_of(n),
                    );
                    assert(first + others =~= deliveries@);
                    assert(n.players.drop_last() =~= m.players);
                    assert(!has_player(m.players, player_id@));
                    let h = choose|q: int| 0 <= q < m.players.len() && (#[trigger] m.players[q]).snapshot.id@ == m.host_id;
                    assert(n.players[h].snapshot.id@ == n.host_id);
                    assert forall|a: int, b: int|
                        0 <= a < n.players.len() && 0 <= b < n.players.len() && a != b
                            implies (#[trigger] n.players[a]).snapshot.id@ != (#[trigger] n.players[b]).snapshot.id@ by {
                        if a < m.players.len() && b < m.players.len() {
                            assert(m.players[a].snapshot.id@ != m.players[b].snapshot.id@);
                        } else if a < m.players.len() {
                            assert(m.players[a] == n.players[a]);
                        } else {
                            assert(m.players[b] == n.players[b]);
                        }
                    }
                    assert(room_wf(n));
                    assert forall|a: int, b: int|
                        0 <= a < self.model().len() && 0 <= b < self.model().len() && a != b
                            implies (#[trigger] self.model()[a]).code != (#[trigger] self.model()[b]).code by {
                        assert(before[a].code != before[b].code);
                    }
                    assert forall|a: int| 0 <= a < self.model().len() implies room_wf(#[trigger] self.model()[a]) by {
                        if a != k {
                            assert(self.model()[a] == before[a]);
                        }
                    }
                }
                Ok(Admission { code: c, player_id, connection_id, deliveries })
            },
            _ => Err("Expected create or join request".to_owned()),
        }
    }
}


/// No player of any room has an identifier that could be drawn.
pub open spec fn no_drawable_ids(rooms: Seq<RoomModel>) -> bool {
    forall|i: int, j: int|
        0 <= i < rooms.len() && 0 <= j < rooms[i].players.len()
            ==> !drawable((#[trigger] rooms[i].players[j]).snapshot.id@, PLAYER_ID_LENGTH as nat, token_alphabet())
}

/// Fresh values as `connect` draws them: when the message passes the
/// checks, a player identifier and, to create a room, a room code; and
/// always the tokens.
pub open spec fn fresh_shape(fresh: FreshIds, before: Seq<RoomModel>, hello: ClientMessage) -> bool {
    &&& passes_checks(before, hello) && hello is Create ==> drawable(fresh.code@, ROOM_CODE_LENGTH as nat, room_code_alphabet())
    &&& passes_checks(before, hello) ==> drawable(fresh.player_id@, PLAYER_ID_LENGTH as nat, token_alphabet())
    &&& drawable(fresh.resume_token@, RESUME_TOKEN_LENGTH as nat, token_alphabet())
    &&& drawable(fresh.connection_id@, PLAYER_ID_LENGTH as nat, token_alphabet())
}

/// No room has a code that could be drawn.
pub open spec fn no_drawable_codes(rooms: Seq<RoomModel>) -> bool {
    forall|i: int| 0 <= i < rooms.len() ==> !drawable((#[trigger] rooms[i]).code, ROOM_CODE_LENGTH as nat, room_code_alphabet())
}

/// The message passes the checks, and a draw that `connect` then makes
/// could collide with a code or identifier already in use.
pub open spec fn draws_may_collide(rooms: Seq<RoomModel>, hello: ClientMessage) -> bool {
    &&& passes_checks(rooms, hello)
    &&& hello is Create && !no_drawable_codes(rooms) || !no_drawable_ids(rooms)
}

impl RelayState {
    /// A random player identifier that no player of any room has, or
    /// `None` if every one of `u64::MAX` draws collided.
    /// An identifier is owed whenever no draw can collide: when no player
    /// has an identifier that could be drawn.
    fn fresh_player_id(&self) -> (r: Option<String>)
        ensures
            r matches Some(id) ==> {
                &&& id@.len() == PLAYER_ID_LENGTH
                &&& forall|i: int| 0 <= i < PLAYER_ID_LENGTH ==> token_alphabet().contains(#[trigger] id@[i])
                &&& forall|i: int| 0 <= i < self.model().len() ==> !has_player((#[trigger] self.model()[i]).players, id@)
            },
            no_drawable_ids(self.model()) ==> r is Some,
    {
        let ghost free = no_drawable_ids(self.model());
        let mut attempts: u64 = 0;
        while attempts < u64::MAX
            invariant
                free == no_drawable_ids(self.model()),
                attempts > 0 ==> !free,
            decreases u64::MAX - attempts,
        {
            let id = token(PLAYER_ID_LENGTH);
            assert(drawable(id@, PLAYER_ID_LENGTH as nat, token_alphabet()));
            let mut taken = false;
            let mut a: usize = 0;
            while a < self.rooms.len() && !taken
                invariant
                    a <= self.rooms@.len(),
                    !taken ==> forall|i: int| 0 <= i < a ==> !has_player((#[trigger] self.model()[i]).players, id@),
                    free == no_drawable_ids(self.model()),
                    drawable(id@, PLAYER_ID_LENGTH as nat, token_alphabet()),
                    free ==> !taken,
                decreases self.rooms@.len() - a,
            {
                proof {
                    if free && has_player(self.model()[a as int].players, id@) {
                        let j = choose|j: int| 0 <= j < self.model()[a as int].players.len()
                            && (#[trigger] self.model()[a as int].players[j]).snapshot.id@ == id@;
                        assert(!drawable(self.model()[a as int].players[j].snapshot.id@, PLAYER_ID_LENGTH as nat, token_alphabet()));
                    }
                }
                taken = position_of(&self.rooms[a].players, id.as_str()).is_some();
                a += 1;
            }
            if !taken {
                return Some(id);
            }
            attempts += 1;
        }
        None
    }

    /// Whether a first message passes every check made before fresh values
    /// are needed (see `passes_checks`).
    pub fn passes_checks_of(&self, hello: &ClientMessage) -> (r: bool)
        ensures
            r == passes_checks(self.model(), *hello),
    {
        match hello {
            ClientMessage::Create { name, content, .. } => {
                let content_ok = match validate_content(content) {
                    Ok(()) => true,
                    Err(_) => false,
                };
                let name_ok = match validate_name(name.as_str()) {
                    Ok(_) => true,
                    Err(_) => false,
                };
                content_ok && name_ok
            },
            ClientMessage::Join { code, name, resume_token } => {
                let clean = match validate_name(name.as_str()) {
                    Ok(n) => n,
                    Err(_) => {
                        return false;
                    },
                };
                let c = trimmed_ascii_uppercase(code.as_str());
                let k = match self.room_index(c.as_str()) {
                    Some(k) => k,
                    None => {
                        return false;
                    },
                };
                assert(self.rooms@[k as int].model() == self.model()[k as int]);
                let resumes = match resume_token {
                    Some(t) => match first_token_holder(&self.rooms[k].players, t.as_str()) {
                        Some(_) => true,
                        None => false,
                    },
                    None => false,
                };
                !resumes && self.rooms[k].phase == RoomPhase::Lobby && self.rooms[k].players.len() < MAX_PLAYERS
                    && !is_name_taken(&self.rooms[k].players, clean.as_str())
            },
            _ => false,
        }
    }

    /// Handles the first message of a connection: checks it, then draws the
    /// fresh values it needs (a room code to create a room, a player
    /// identifier for a new player, and the tokens), reads the relay clock
    /// and admits or refuses it. A message that fails a check gets that
    /// check's answer; "Relay unavailable" comes only for one that passes,
    /// when a draw could collide with a code or identifier in use and
    /// every draw did.
    pub fn connect(&mut self, hello: ClientMessage) -> (r: Result<Admission, String>)
        requires
            old(self).wf(),
        ensures
            final(self).wf(),
            (final(self).model() == old(self).model() && refused(r, "Relay unavailable"@) && draws_may_collide(
                old(self).model(),
                hello,
            )) || exists|fresh: FreshIds, now: u64|
                fresh_shape(fresh, old(self).model(), hello) && admitted(old(self).model(), hello, fresh, now, final(self).model(), r),
    {
        let ghost before = self.model();
        let passes = self.passes_checks_of(&hello);
        let creates = match &hello {
            ClientMessage::Create { .. } => true,
            _ => false,
        };
        let code = if passes && creates {
            match unique_room_code(&self.rooms) {
                Some(c) => c,
                None => {
                    proof {
                        if no_drawable_codes(before) {
                            assert forall|i: int| 0 <= i < self.rooms@.len() implies !drawable(
                                (#[trigger] self.rooms@[i]).code@,
                                ROOM_CODE_LENGTH as nat,
                                room_code_alphabet(),
                            ) by {
                                assert(self.rooms@[i].code@ == before[i].code);
                            }
                        }
                    }
                    return Err("Relay unavailable".to_owned());
                },
            }
        } else {
            String::new()
        };
        let player_id = if passes {
            match self.fresh_player_id() {
                Some(id) => id,
                None => {
                    return Err("Relay unavailable".to_owned());
                },
            }
        } else {
            String::new()
        };
        let fresh = FreshIds {
            code,
            player_id,
            resume_token: token(RESUME_TOKEN_LENGTH),
            connection_id: token(PLAYER_ID_LENGTH),
        };
        let ghost fresh0 = fresh;
        let now = now_ms();
        proof {
            if passes && creates {
                assert forall|i: int| 0 <= i < before.len() implies (#[trigger] before[i]).code != fresh0.code@ by {
                    assert(self.rooms@[i].code@ == before[i].code);
                }
            }
        }
        let r = self.accept(hello, fresh, now);
        assert(fresh_shape(fresh0, before, hello) && admitted(before, hello, fresh0, now, self.model(), r));
        r
    }
}


pub open spec fn cursors_within_text(m: RoomModel) -> bool {
    forall|j: int| 0 <= j < m.players.len() ==> (#[trigger] m.players[j]).snapshot.cursor <= m.content.text@.len()
}

/// Reported positions stay within the shared text: whatever a player
/// sends, no cursor passes the end of the race content.
pub proof fn law_progress_within_text(m: RoomModel, id: Seq<char>, message: ClientMessage, now: u64)
    requires
        cursors_within_text(m),
    ensures
        cursors_within_text(room_step(m, id, message, now).0),
{
    let n = room_step(m, id, message, now).0;
    assert forall|j: int| 0 <= j < n.players.len() implies (#[trigger] n.players[j]).snapshot.cursor <= n.content.text@.len() by {
        assert(m.players[j].snapshot.cursor <= m.content.text@.len());
    }
}

/// A connection that was replaced by a reconnect cannot disconnect the
/// player any more: its end changes nothing and sends nothing.
pub proof fn law_stale_connection_ignored(
    before: Seq<RoomModel>,
    code: Seq<char>,
    id: Seq<char>,
    connection: Seq<char>,
    now: u64,
    after: Seq<RoomModel>,
    ds: Seq<Delivery>,
)
    requires
        departed(before, code, id, connection, now, after, ds),
        ({
            let k = first_room(before, code);
            k >= 0 ==> forall|j: int|
                0 <= j < before[k].players.len() && (#[trigger] before[k].players[j]).snapshot.id@ == id
                    ==> before[k].players[j].connection_id@ != connection
        }),
    ensures
        after == before,
        ds.len() == 0,
{
    let k = first_room(before, code);
    if k >= 0 {
        lemma_first_index_found(before, code_is(code));
        let m = before[k];
        lemma_first_index_found(m.players, id_is(id));
        let j = player_position(m.players, id);
        assert(0 <= k < before.len());
        if j >= 0 {
            assert(j < m.players.len());
            assert(m.players[j].snapshot.id@ == id);
            assert(before[k].players[j].snapshot.id@ == id);
        }
    }
}

/// Reconnecting with a resume token brings back the same player: its
/// identifier, connected again, on the new connection.
pub proof fn law_resume_restores_player(
    before: Seq<RoomModel>,
    code: String,
    name: String,
    token: String,
    fresh: FreshIds,
    now: u64,
    after: Seq<RoomModel>,
    r: Result<Admission, String>,
)
    requires
        admitted(before, ClientMessage::Join { code, name, resume_token: Some(token) }, fresh, now, after, r),
        spec_clean_name(name@).len() > 0,
        first_room(before, spec_join_code(code@)) >= 0,
        first_with_token(before[first_room(before, spec_join_code(code@))].players, token@) >= 0,
    ensures
        ({
            let k = first_room(before, spec_join_code(code@));
            let j = first_with_token(before[k].players, token@);
            let p = after[k].players[j];
            &&& r matches Ok(a) && a.player_id@ == before[k].players[j].snapshot.id@ && a.connection_id@ == fresh.connection_id@
            &&& p.snapshot.id == before[k].players[j].snapshot.id
            &&& p.snapshot.connected
            &&& p.connection_id@ == fresh.connection_id@
            &&& after[k].players.len() == before[k].players.len()
        }),
{
    let k = first_room(before, spec_join_code(code@));
    lemma_first_index_found(before, code_is(spec_join_code(code@)));
    let m = RoomModel { last_active_ms: now, ..before[k] };
    lemma_first_index_found(m.players, token_is(token@));
    assert(m.players == before[k].players);
}

/// Two different players of the list are connected.
pub open spec fn two_connected(players: Seq<Player>) -> bool {
    exists|a: int, b: int|
        0 <= a < b < players.len() && (#[trigger] players[a]).snapshot.connected && (#[trigger] players[b]).snapshot.connected
}

proof fn lemma_two_connected(players: Seq<Player>)
    ensures
        connected_count(players) >= 2 <==> two_connected(players),
        connected_count(players) >= 1 <==> exists|a: int| 0 <= a < players.len() && (#[trigger] players[a]).snapshot.connected,
    decreases players.len(),
{
    if players.len() > 0 {
        let rest = players.drop_last();
        let last = players.len() - 1;
        lemma_two_connected(rest);
        assert forall|a: int| 0 <= a < rest.len() implies #[trigger] rest[a] == players[a] by {}
        if two_connected(players) {
            let (a, b) = choose|a: int, b: int|
                0 <= a < b < players.len() && (#[trigger] players[a]).snapshot.connected && (#[trigger] players[b]).snapshot.connected;
            if b < last {
                assert(rest[a] == players[a] && rest[b] == players[b]);
                assert(two_connected(rest));
            } else {
                assert(rest[a] == players[a]);
            }
        }
        if connected_count(players) >= 2 {
            if players[last].snapshot.connected {
                let a = choose|a: int| 0 <= a < rest.len() && (#[trigger] rest[a]).snapshot.connected;
                assert(players[a].snapshot.connected);
                assert(two_connected(players));
            } else {
                let (a, b) = choose|a: int, b: int|
                    0 <= a < b < rest.len() && (#[trigger] rest[a]).snapshot.connected && (#[trigger] rest[b]).snapshot.connected;
                assert(players[a].snapshot.connected && players[b].snapshot.connected);
                assert(two_connected(players));
            }
        }
        if exists|a: int| 0 <= a < players.len() && (#[trigger] players[a]).snapshot.connected {
            let a = choose|a: int| 0 <= a < players.len() && (#[trigger] players[a]).snapshot.connected;
            if a < last {
                assert(rest[a].snapshot.connected);
            }
        }
        if connected_count(players) >= 1 && !players[last].snapshot.connected {
            let a = choose|a: int| 0 <= a < rest.len() && (#[trigger] rest[a]).snapshot.connected;
            assert(players[a].snapshot.connected);
        }
        if connected_count(players) >= 1 && players[last].snapshot.connected {
            assert(players[last].snapshot.connected);
        }
    }
}

/// A race starts only with company: a Start moves a lobby into the
/// countdown exactly when the host sends it and at least two of the room's
/// players are connected. When the host sends it with fewer connected, the
/// room stays in the lobby and the host alone is told that at least two
/// players are required.
pub proof fn law_start_needs_two_connected(m: RoomModel, id: Seq<char>, now: u64)
    requires
        m.phase == RoomPhase::Lobby,
    ensures
        (room_step(m, id, ClientMessage::Start, now).0.phase is Countdown) <==> (id == m.host_id && two_connected(m.players)),
        id == m.host_id && !two_connected(m.players) ==> {
            &&& room_step(m, id, ClientMessage::Start, now).0.phase == RoomPhase::Lobby
            &&& room_step(m, id, ClientMessage::Start, now).0.players == m.players
            &&& room_step(m, id, ClientMessage::Start, now).1 == (if has_player(m.players, id) {
                seq![(id, Notice::Error { message: "At least two players are required"@, fatal: false })]
            } else {
                seq![]
            })
        },
{
    lemma_two_connected(m.players);
}

} // verus!
