//! The waiting room: where a player stands while its chunks load, and what it
//! is shown. Coordinates are held as `f64` bits and angles as `f32` bits.

use vstd::prelude::*;
use vstd::std_specs::cmp::PartialEqSpecImpl;
use vstd::string::StringExecFns;
use crate::floats::{f32_equal, f64_equal, same_f32, same_f64};
use crate::text::{decimal, decimal_text, same_text};

verus! {

/// The bits of one million.
pub const LOBBY_FAKE_X: u64 = 0x412E_8480_0000_0000;

/// The bits of 320.
pub const LOBBY_FAKE_Y: u64 = 0x4074_0000_0000_0000;

/// The bits of one million.
pub const LOBBY_FAKE_Z: u64 = 0x412E_8480_0000_0000;

/// The bits of zero.
pub const LOBBY_YAW_DEG: u32 = 0;

/// The bits of 90.
pub const LOBBY_PITCH_DEG: u32 = 0x42B4_0000;

pub const LOBBY_GAMEMODE_SPECTATOR: u8 = 3;

pub const LOBBY_TITLE: &'static str = "Loading...";

pub const LOBBY_READY_PERCENT: u8 = 100;

/// A place and a direction.
#[derive(Debug, Clone, Copy)]
pub struct LobbyPosition {
    pub x: u64,
    pub y: u64,
    pub z: u64,
    pub yaw: u32,
    pub pitch: u32,
}

impl LobbyPosition {
    /// Both hold the same; floating-point numbers count as they compare.
    pub open spec fn equals(self, other: Self) -> bool {
        &&& f64_equal(self.x, other.x)
        &&& f64_equal(self.y, other.y)
        &&& f64_equal(self.z, other.z)
        &&& f32_equal(self.yaw, other.yaw)
        &&& f32_equal(self.pitch, other.pitch)
    }
}

impl PartialEq for LobbyPosition {
    fn eq(&self, other: &Self) -> (r: bool) {
        same_f64(self.x, other.x)
            && same_f64(self.y, other.y)
            && same_f64(self.z, other.z)
            && same_f32(self.yaw, other.yaw)
            && same_f32(self.pitch, other.pitch)
    }
}

impl PartialEqSpecImpl for LobbyPosition {
    open spec fn obeys_eq_spec() -> bool {
        true
    }

    open spec fn eq_spec(&self, other: &Self) -> bool {
        self.equals(*other)
    }
}

/// How many of the required chunks are loaded.
#[derive(Debug, Clone, Copy, PartialEq, Eq, Structural)]
pub struct LobbyProgress {
    pub loaded: u32,
    pub required: u32,
}

/// What a waiting player is shown.
#[derive(Debug, Clone, PartialEq, Eq)]
pub struct LobbyFrame {
    pub title: String,
    pub subtitle: String,
    pub percent: u8,
    pub ready: bool,
}

impl LobbyPosition {
    pub fn new(x: u64, y: u64, z: u64, yaw: u32, pitch: u32) -> (p: Self)
        ensures
            p == (LobbyPosition { x, y, z, yaw, pitch }),
    {
        LobbyPosition { x, y, z, yaw, pitch }
    }
}

impl LobbyProgress {
    pub fn new(loaded: u32, required: u32) -> (p: Self)
        ensures
            p == (LobbyProgress { loaded, required }),
    {
        LobbyProgress { loaded, required }
    }
}

/// The place of the waiting room.
pub fn lobby_fake_position() -> (p: LobbyPosition)
    ensures
        p == (LobbyPosition {
            x: LOBBY_FAKE_X,
            y: LOBBY_FAKE_Y,
            z: LOBBY_FAKE_Z,
            yaw: LOBBY_YAW_DEG,
            pitch: LOBBY_PITCH_DEG,
        }),
{
    LobbyPosition {
        x: LOBBY_FAKE_X,
        y: LOBBY_FAKE_Y,
        z: LOBBY_FAKE_Z,
        yaw: LOBBY_YAW_DEG,
        pitch: LOBBY_PITCH_DEG,
    }
}

pub fn is_spectator_gamemode(gamemode: u8) -> (b: bool)
    ensures
        b == (gamemode == LOBBY_GAMEMODE_SPECTATOR),
{
    gamemode == LOBBY_GAMEMODE_SPECTATOR
}

/// Whether the camera looks through another entity than the player.
pub fn is_third_entity_camera(player_entity_id: i32, camera_entity_id: Option<i32>) -> (b: bool)
    ensures
        b == (camera_entity_id is Some && camera_entity_id != Some(player_entity_id)),
{
    match camera_entity_id {
        None => false,
        Some(camera) => camera != player_entity_id,
    }
}

/// The angles look straight down: yaw zero, of either sign, and pitch ninety.
pub open spec fn looks_down(yaw: u32, pitch: u32) -> bool {
    (yaw == 0 || yaw == 0x8000_0000) && pitch == LOBBY_PITCH_DEG
}

/// Whether a player stands in the waiting room and looks straight down.
pub fn is_lobby_position(position: &LobbyPosition) -> (b: bool)
    ensures
        b == (position.x == LOBBY_FAKE_X && position.y == LOBBY_FAKE_Y && position.z
            == LOBBY_FAKE_Z && looks_down(position.yaw, position.pitch)),
{
    position.x == LOBBY_FAKE_X && position.y == LOBBY_FAKE_Y && position.z == LOBBY_FAKE_Z
        && lobby_looks_straight_down(position.yaw, position.pitch)
}

pub fn lobby_looks_straight_down(yaw: u32, pitch: u32) -> (b: bool)
    ensures
        b == looks_down(yaw, pitch),
{
    (yaw == LOBBY_YAW_DEG || yaw == 0x8000_0000) && pitch == LOBBY_PITCH_DEG
}

pub fn is_lobby_title(title: &str) -> (b: bool)
    ensures
        b == (title@ == LOBBY_TITLE@),
{
    same_text(title, LOBBY_TITLE)
}

/// All required chunks are loaded.
pub open spec fn all_loaded(loaded: u32, required: u32) -> bool {
    loaded >= required
}

/// How much of the required chunks is loaded, in whole percent.
pub open spec fn percent_of(loaded: u32, required: u32) -> nat {
    if all_loaded(loaded, required) {
        100
    } else {
        (loaded as nat * 100) / (required as nat)
    }
}

/// How much is loaded, in whole percent.
pub fn lobby_percent(loaded: u32, required: u32) -> (p: u8)
    ensures
        p == percent_of(loaded, required),
        p <= 100,
        p == 100 <==> all_loaded(loaded, required),
{
    if required == 0 {
        return LOBBY_READY_PERCENT;
    }
    if loaded >= required {
        return LOBBY_READY_PERCENT;
    }
    let scaled: u64 = (loaded as u64) * 100 / (required as u64);
    proof {
        let l = loaded as int;
        let r = required as int;
        assert(l * 100 / r < 100) by (nonlinear_arith)
            requires
                0 <= l < r,
        ;
    }
    scaled as u8
}

/// The share in percent, as text.
pub open spec fn subtitle_of(loaded: u32, required: u32) -> Seq<char> {
    decimal(percent_of(loaded, required)).push('%')
}

/// The share in percent, as text.
pub fn lobby_subtitle(loaded: u32, required: u32) -> (r: String)
    ensures
        r@ == subtitle_of(loaded, required),
{
    let mut r = decimal_text(lobby_percent(loaded, required) as u64);
    r.append("%");
    proof {
        reveal_strlit("%");
    }
    assert(r@ =~= subtitle_of(loaded, required));
    r
}

pub fn is_lobby_subtitle_for(subtitle: &str, loaded: u32, required: u32) -> (b: bool)
    ensures
        b == (subtitle@ == subtitle_of(loaded, required)),
{
    let expected = lobby_subtitle(loaded, required);
    same_text(subtitle, expected.as_str())
}

/// Whether all required chunks are loaded.
pub fn is_lobby_ready(loaded: u32, required: u32) -> (b: bool)
    ensures
        b == all_loaded(loaded, required),
{
    if required == 0 {
        return true;
    }
    loaded >= required
}

pub fn lobby_may_send_chunk_while_waiting() -> (b: bool)
    ensures
        b,
{
    true
}

pub fn lobby_title_updates_every_tick() -> (b: bool)
    ensures
        b,
{
    true
}

/// A frame shows the progress as it is.
pub open spec fn shows(frame: LobbyFrame, loaded: u32, required: u32) -> bool {
    &&& frame.title@ == LOBBY_TITLE@
    &&& frame.subtitle@ == subtitle_of(loaded, required)
    &&& frame.percent == percent_of(loaded, required)
    &&& frame.ready == all_loaded(loaded, required)
}

/// What a waiting player is shown.
pub fn lobby_frame(loaded: u32, required: u32) -> (f: LobbyFrame)
    ensures
        shows(f, loaded, required),
{
    LobbyFrame {
        title: String::from_str(LOBBY_TITLE),
        subtitle: lobby_subtitle(loaded, required),
        percent: lobby_percent(loaded, required),
        ready: is_lobby_ready(loaded, required),
    }
}

pub fn lobby_releases_only_when_ready(loaded: u32, required: u32) -> (b: bool)
    ensures
        b == all_loaded(loaded, required),
{
    is_lobby_ready(loaded, required)
}

/// Whether a frame shows the progress as it is.
pub fn is_lobby_frame_for(frame: &LobbyFrame, loaded: u32, required: u32) -> (b: bool)
    ensures
        b == shows(*frame, loaded, required),
{
    is_lobby_title(frame.title.as_str()) && is_lobby_subtitle_for(
        frame.subtitle.as_str(),
        loaded,
        required,
    ) && frame.percent == lobby_percent(loaded, required) && frame.ready == is_lobby_ready(
        loaded,
        required,
    )
}

pub fn lobby_tracks_no_world_state_on_server() -> (b: bool)
    ensures
        b,
{
    true
}

/// Loading one more chunk never lowers the share that is shown.
pub proof fn lemma_percent_never_falls(loaded: u32, more: u32, required: u32)
    requires
        loaded <= more,
    ensures
        percent_of(loaded, required) <= percent_of(more, required),
        percent_of(loaded, required) <= 100,
{
    let l = loaded as int;
    let m = more as int;
    let r = required as int;
    if !all_loaded(loaded, required) {
        assert(l * 100 / r <= 100) by (nonlinear_arith)
            requires
                0 <= l < r,
        ;
        if !all_loaded(more, required) {
            assert(l * 100 / r <= m * 100 / r) by (nonlinear_arith)
                requires
                    0 <= l <= m,
                    m < r,
            ;
        }
    }
}

/// Everything is loaded exactly if as much is loaded as is required; the share is
/// then a hundred percent, and the whole percents that are reached otherwise.
pub proof fn lemma_percent_counts_whole_shares(loaded: u32, required: u32)
    ensures
        all_loaded(loaded, required) <==> loaded >= required,
        loaded >= required ==> percent_of(loaded, required) == 100,
        loaded < required ==> percent_of(loaded, required) * required <= 100 * loaded
            < percent_of(loaded, required) * required + required,
{
    if loaded < required {
        let a = loaded as int * 100;
        let b = required as int;
        vstd::arithmetic::div_mod::lemma_fundamental_div_mod(a, b);
        vstd::arithmetic::div_mod::lemma_mod_bound(a, b);
        vstd::arithmetic::mul::lemma_mul_is_commutative(a / b, b);
    }
}

/// A waiting player is shown the title, the share with a percent sign and as a
/// number, and whether everything is loaded.
pub proof fn lemma_frame_shows_the_progress(frame: LobbyFrame, loaded: u32, required: u32)
    requires
        shows(frame, loaded, required),
    ensures
        frame.title@ == "Loading..."@,
        frame.subtitle@ == decimal(frame.percent as nat).push('%'),
        frame.percent == percent_of(loaded, required),
        frame.ready <==> loaded >= required,
{
}

/// Straight down is a pitch of ninety degrees without a turn, of either sign.
pub proof fn lemma_straight_down(yaw: u32, pitch: u32)
    ensures
        looks_down(yaw, pitch) <==> f32_equal(yaw, 0) && pitch == 0x42B4_0000,
{
}

/// Two positions are equal exactly if each of their numbers compares equal.
pub proof fn lemma_equal_positions(a: LobbyPosition, b: LobbyPosition)
    ensures
        a.equals(b) <==> f64_equal(a.x, b.x) && f64_equal(a.y, b.y) && f64_equal(a.z, b.z)
            && f32_equal(a.yaw, b.yaw) && f32_equal(a.pitch, b.pitch),
        vstd::std_specs::cmp::PartialEqSpec::eq_spec(&a, &b) == a.equals(b),
{
}

} // verus!
