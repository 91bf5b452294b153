//! Holding players in the lobby and letting them go: message framing.

use vstd::prelude::*;
use vstd::string::StringExecFns;
use crate::identity::{GlobalPlayerId, ServerId};
use crate::protocol::StreamKind;

verus! {

/// The first five bytes of every lobby message: four letters and the version.
pub const LOBBY_CONTROL_TAG: [u8; 5] = [80, 77, 76, 67, 1];

/// A lobby message could not be encoded or decoded.
#[derive(Debug, Clone, PartialEq, Eq)]
pub struct LobbyControlError {
    pub message: String,
}

/// Hold a player in the lobby, or let it go.
#[derive(Debug, Clone, Copy, PartialEq, Eq, Structural)]
pub enum LobbyControl {
    Hold {
        target: GlobalPlayerId,
    },
    Release {
        target: GlobalPlayerId,
    },
}

impl LobbyControl {
    /// The player concerned.
    pub open spec fn player(self) -> GlobalPlayerId {
        match self {
            LobbyControl::Hold { target } => target,
            LobbyControl::Release { target } => target,
        }
    }

    pub fn target(self) -> (p: GlobalPlayerId)
        ensures
            p == self.player(),
    {
        match self {
            LobbyControl::Hold { target } => target,
            LobbyControl::Release { target } => target,
        }
    }

    /// The peer that hosts the player.
    pub fn host(self) -> (s: ServerId)
        ensures
            s == self.player().server,
    {
        self.target().server
    }
}

/// The stream of lobby messages.
pub fn lobby_control_kind() -> (k: StreamKind)
    ensures
        k == StreamKind::Control,
{
    StreamKind::Control
}

/// An encoded message behind its tag.
pub fn frame_control(payload: &[u8]) -> (bytes: Vec<u8>)
    ensures
        bytes@ == LOBBY_CONTROL_TAG@ + payload@,
{
    let mut bytes: Vec<u8> = Vec::new();
    let mut i: usize = 0;
    while i < 5
        invariant
            i <= 5,
            bytes@ == LOBBY_CONTROL_TAG@.take(i as int),
        decreases 5 - i,
    {
        bytes.push(LOBBY_CONTROL_TAG[i]);
        assert(bytes@ =~= LOBBY_CONTROL_TAG@.take(i + 1));
        i = i + 1;
    }
    assert(bytes@ =~= LOBBY_CONTROL_TAG@);
    let mut j: usize = 0;
    while j < payload.len()
        invariant
            j <= payload@.len(),
            bytes@ == LOBBY_CONTROL_TAG@ + payload@.take(j as int),
        decreases payload@.len() - j,
    {
        bytes.push(payload[j]);
        assert(bytes@ =~= LOBBY_CONTROL_TAG@ + payload@.take(j + 1));
        j = j + 1;
    }
    assert(payload@.take(j as int) =~= payload@);
    bytes
}

/// The encoded message behind the tag; bytes without the tag are refused.
pub fn unframe_control(bytes: &[u8]) -> (r: Result<Vec<u8>, LobbyControlError>)
    ensures
        r is Ok <==> LOBBY_CONTROL_TAG@.is_prefix_of(bytes@),
        r matches Ok(payload) ==> bytes@ == LOBBY_CONTROL_TAG@ + payload@,
        r matches Err(e) ==> e.message@ == "decode lobby control: invalid tag"@,
{
    let mut tagged: bool = bytes.len() >= 5;
    let mut i: usize = 0;
    while tagged && i < 5
        invariant
            i <= 5,
            tagged ==> bytes@.len() >= 5,
            tagged ==> forall|j: int| 0 <= j < i ==> bytes@[j] == LOBBY_CONTROL_TAG@[j],
            !tagged ==> !LOBBY_CONTROL_TAG@.is_prefix_of(bytes@),
        decreases 5 - i,
    {
        if bytes[i] != LOBBY_CONTROL_TAG[i] {
            proof {
                assert(bytes@.subrange(0, 5)[i as int] != LOBBY_CONTROL_TAG@[i as int]);
            }
            tagged = false;
        }
        i = i + 1;
    }
    if !tagged {
        return Err(
            LobbyControlError { message: String::from_str("decode lobby control: invalid tag") },
        );
    }
    proof {
        assert(LOBBY_CONTROL_TAG@ =~= bytes@.subrange(0, 5));
    }
    let mut payload: Vec<u8> = Vec::new();
    let mut j: usize = 5;
    while j < bytes.len()
        invariant
            5 <= j <= bytes@.len(),
            payload@ == bytes@.subrange(5, j as int),
        decreases bytes@.len() - j,
    {
        payload.push(bytes[j]);
        assert(payload@ =~= bytes@.subrange(5, j + 1));
        j = j + 1;
    }
    assert(bytes@ =~= LOBBY_CONTROL_TAG@ + payload@);
    Ok(payload)
}

/// Encodes a message and puts it behind the tag.
pub fn encode_control<E: Fn(&LobbyControl) -> Result<Vec<u8>, LobbyControlError>>(
    control: &LobbyControl,
    encode: &E,
) -> (r: Result<Vec<u8>, LobbyControlError>)
    requires
        call_requires(*encode, (control,)),
    ensures
        exists|encoded: Result<Vec<u8>, LobbyControlError>| #[trigger]
            call_ensures(*encode, (control,), encoded) && match encoded {
                Ok(payload) => r matches Ok(bytes) && bytes@ == LOBBY_CONTROL_TAG@ + payload@,
                Err(error) => r == Err::<Vec<u8>, LobbyControlError>(error),
            },
{
    match encode(control) {
        Ok(payload) => Ok(frame_control(payload.as_slice())),
        Err(error) => Err(error),
    }
}

/// Decodes what is behind the tag; bytes without the tag never reach `decode`.
pub fn decode_control<D: Fn(&[u8]) -> Result<LobbyControl, LobbyControlError>>(
    bytes: &[u8],
    decode: &D,
) -> (r: Result<LobbyControl, LobbyControlError>)
    requires
        forall|payload: &[u8]|
            bytes@ == LOBBY_CONTROL_TAG@ + payload@ ==> #[trigger] call_requires(
                *decode,
                (payload,),
            ),
    ensures
        LOBBY_CONTROL_TAG@.is_prefix_of(bytes@) ==> exists|payload: &[u8]| #[trigger]
            call_ensures(*decode, (payload,), r) && bytes@ == LOBBY_CONTROL_TAG@ + payload@,
        !LOBBY_CONTROL_TAG@.is_prefix_of(bytes@) ==> (r matches Err(e) && e.message@
            == "decode lobby control: invalid tag"@),
{
    match unframe_control(bytes) {
        Ok(payload) => decode(payload.as_slice()),
        Err(error) => Err(error),
    }
}

/// What is put behind the tag comes back, and only tagged bytes are accepted.
pub proof fn lemma_unframe_undoes_frame(payload: Seq<u8>, other: Seq<u8>)
    requires
        LOBBY_CONTROL_TAG@ + payload == LOBBY_CONTROL_TAG@ + other,
    ensures
        payload == other,
        LOBBY_CONTROL_TAG@.is_prefix_of(LOBBY_CONTROL_TAG@ + payload),
{
    let all = LOBBY_CONTROL_TAG@ + payload;
    assert(payload =~= all.skip(5));
    assert(other =~= (LOBBY_CONTROL_TAG@ + other).skip(5));
    assert(all.subrange(0, 5) =~= LOBBY_CONTROL_TAG@);
}

/// Holding and releasing concern the player that they name.
pub proof fn lemma_control_names_its_player(p: GlobalPlayerId)
    ensures
        (LobbyControl::Hold { target: p }).player() == p,
        (LobbyControl::Release { target: p }).player() == p,
{
}

} // verus!
