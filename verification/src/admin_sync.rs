//! Administration across peers: operators, bans and kicks.

use vstd::prelude::*;
use vstd::string::StringExecFns;
use crate::bytes::{copy_of, same_id};
use crate::identity::{GlobalPlayerId, ServerId};
use crate::keyed::KeyMap;
use crate::names::{DirectoryModel, NameDirectory, entered, gone, located};
use crate::offers::{lemma_taken_push, offered, taken};
use crate::primary::{AcceptedTick, try_submit};
use crate::protocol::StreamKind;
use crate::text::{lowercase_of, lowercased};
use crate::time::TickStamp;

verus! {

/// An administration message could not be encoded, decoded or queued.
#[derive(Debug, Clone, PartialEq, Eq)]
pub struct AdminSyncError {
    pub message: String,
}

/// A player becomes operator.
#[derive(Debug, PartialEq, Eq)]
pub struct OpGrant {
    pub uuid: [u8; 16],
    pub name: String,
    pub level: u8,
    pub bypasses_player_limit: bool,
}

impl OpGrant {
    pub fn new(uuid: [u8; 16], name: String, level: u8, bypasses_player_limit: bool) -> (g: Self)
        ensures
            g == (OpGrant { uuid, name, level, bypasses_player_limit }),
    {
        OpGrant { uuid, name, level, bypasses_player_limit }
    }

    /// The two grants give the same rights under the same name.
    pub open spec fn same_rights(self, other: Self) -> bool {
        &&& self.level == other.level
        &&& self.name@ == other.name@
        &&& self.bypasses_player_limit == other.bypasses_player_limit
    }
}

impl Clone for OpGrant {
    fn clone(&self) -> (g: Self)
        ensures
            g == *self,
    {
        OpGrant {
            uuid: self.uuid,
            name: self.name.clone(),
            level: self.level,
            bypasses_player_limit: self.bypasses_player_limit,
        }
    }
}

/// A player is no operator any more. The name goes with it so that the change
/// can be told to people after the entry is gone.
#[derive(Debug, PartialEq, Eq)]
pub struct OpRevoke {
    pub uuid: [u8; 16],
    pub name: String,
}

impl OpRevoke {
    pub fn new(uuid: [u8; 16], name: String) -> (r: Self)
        ensures
            r == (OpRevoke { uuid, name }),
    {
        OpRevoke { uuid, name }
    }
}

impl Clone for OpRevoke {
    fn clone(&self) -> (r: Self)
        ensures
            r == *self,
    {
        OpRevoke { uuid: self.uuid, name: self.name.clone() }
    }
}

/// A player is banned.
#[derive(Debug, PartialEq, Eq)]
pub struct BanEntry {
    pub uuid: [u8; 16],
    pub name: String,
    pub source: String,
    pub reason: String,
    pub created_epoch_secs: i64,
    pub expires_epoch_secs: Option<i64>,
}

impl BanEntry {
    pub fn new(
        uuid: [u8; 16],
        name: String,
        source: String,
        reason: String,
        created_epoch_secs: i64,
        expires_epoch_secs: Option<i64>,
    ) -> (e: Self)
        ensures
            e == (BanEntry { uuid, name, source, reason, created_epoch_secs, expires_epoch_secs }),
    {
        BanEntry { uuid, name, source, reason, created_epoch_secs, expires_epoch_secs }
    }

    /// The two entries say the same.
    pub open spec fn same_as(self, other: Self) -> bool {
        &&& self.uuid == other.uuid
        &&& self.name@ == other.name@
        &&& self.source@ == other.source@
        &&& self.reason@ == other.reason@
        &&& self.created_epoch_secs == other.created_epoch_secs
        &&& self.expires_epoch_secs == other.expires_epoch_secs
    }

    fn says_the_same(&self, other: &Self) -> (b: bool)
        ensures
            b == self.same_as(*other),
    {
        let same_end: bool = match (self.expires_epoch_secs, other.expires_epoch_secs) {
            (None, None) => true,
            (Some(a), Some(b)) => a == b,
            _ => false,
        };
        same_id(&self.uuid, &other.uuid) && self.name == other.name && self.source == other.source
            && self.reason == other.reason && self.created_epoch_secs == other.created_epoch_secs && same_end
    }
}

impl Clone for BanEntry {
    fn clone(&self) -> (e: Self)
        ensures
            e == *self,
    {
        BanEntry {
            uuid: self.uuid,
            name: self.name.clone(),
            source: self.source.clone(),
            reason: self.reason.clone(),
            created_epoch_secs: self.created_epoch_secs,
            expires_epoch_secs: self.expires_epoch_secs,
        }
    }
}

/// A ban is lifted.
#[derive(Debug, PartialEq, Eq)]
pub struct BanRevoke {
    pub uuid: [u8; 16],
    pub name: String,
}

impl BanRevoke {
    pub fn new(uuid: [u8; 16], name: String) -> (r: Self)
        ensures
            r == (BanRevoke { uuid, name }),
    {
        BanRevoke { uuid, name }
    }
}

impl Clone for BanRevoke {
    fn clone(&self) -> (r: Self)
        ensures
            r == *self,
    {
        BanRevoke { uuid: self.uuid, name: self.name.clone() }
    }
}

/// A change of operators or bans.
#[derive(Debug, PartialEq, Eq)]
pub enum AdminMutation {
    GrantOp(OpGrant),
    RevokeOp(OpRevoke),
    AddBan(BanEntry),
    RemoveBan(BanRevoke),
}

impl Clone for AdminMutation {
    fn clone(&self) -> (m: Self)
        ensures
            m == *self,
    {
        match self {
            AdminMutation::GrantOp(grant) => AdminMutation::GrantOp(grant.clone()),
            AdminMutation::RevokeOp(revoke) => AdminMutation::RevokeOp(revoke.clone()),
            AdminMutation::AddBan(entry) => AdminMutation::AddBan(entry.clone()),
            AdminMutation::RemoveBan(revoke) => AdminMutation::RemoveBan(revoke.clone()),
        }
    }
}

/// A change together with who made it, for the operators of other peers.
#[derive(Debug, PartialEq, Eq)]
pub struct AdminAudit {
    pub issuer: String,
    pub mutation: AdminMutation,
}

impl AdminAudit {
    pub fn new(issuer: String, mutation: AdminMutation) -> (a: Self)
        ensures
            a == (AdminAudit { issuer, mutation }),
    {
        AdminAudit { issuer, mutation }
    }
}

/// A player is to be thrown out.
#[derive(Debug, PartialEq, Eq)]
pub struct KickRequest {
    pub target: GlobalPlayerId,
    pub target_name: String,
    pub reason: String,
    pub issuer: String,
}

impl KickRequest {
    pub fn new(target: GlobalPlayerId, target_name: String, reason: String, issuer: String) -> (r:
        Self)
        ensures
            r == (KickRequest { target, target_name, reason, issuer }),
    {
        KickRequest { target, target_name, reason, issuer }
    }
}

impl Clone for KickRequest {
    fn clone(&self) -> (r: Self)
        ensures
            r == *self,
    {
        KickRequest {
            target: self.target,
            target_name: self.target_name.clone(),
            reason: self.reason.clone(),
            issuer: self.issuer.clone(),
        }
    }
}

/// What peers tell each other about administration.
#[derive(Debug, PartialEq, Eq)]
pub enum AdminControlMessage {
    Mutation(AdminMutation),
    /// The change and the one notice that belongs to it.
    MutationWithAudit(AdminAudit),
    Kick(KickRequest),
}

/// Encoded bytes on their way to a peer.
#[derive(Debug, Clone, PartialEq, Eq)]
pub struct AdminParcel {
    pub peer: u16,
    pub kind: StreamKind,
    pub bytes: Vec<u8>,
}

impl AdminParcel {
    pub fn new(peer: u16, kind: StreamKind, bytes: Vec<u8>) -> (p: Self)
        ensures
            p == (AdminParcel { peer, kind, bytes }),
    {
        AdminParcel { peer, kind, bytes }
    }
}

/// The stream of administration messages.
pub fn admin_control_kind() -> (k: StreamKind)
    ensures
        k == StreamKind::Control,
{
    StreamKind::Control
}

/// Operator levels go up to four.
pub fn is_valid_op_level(level: u8) -> (b: bool)
    ensures
        b == (level <= 4),
{
    level <= 4
}

/// The name under which a player is looked up.
pub fn normalize_player_name(name: &str) -> (r: String)
    ensures
        r@ == lowercase_of(name@),
{
    lowercased(name)
}

/// A parcel with the encoded message for one of the peers.
pub open spec fn carries(parcel: AdminParcel, peers: Seq<u16>, bytes: Seq<u8>) -> bool {
    peers.contains(parcel.peer) && parcel.kind == StreamKind::Control && parcel.bytes@ == bytes
}

/// The parcels carry `bytes` on the control stream, one to each peer, in their order.
pub open spec fn parcels_carry(r: Seq<AdminParcel>, peers: Seq<u16>, bytes: Seq<u8>) -> bool {
    &&& r.len() == peers.len()
    &&& forall|i: int|
        0 <= i < peers.len() ==> (#[trigger] r[i]).peer == peers[i] && r[i].kind
            == StreamKind::Control && r[i].bytes@ == bytes
}

/// One parcel with the same encoded message for each peer, in their order.
pub fn parcels_for_peers(bytes: &[u8], peers: &[u16]) -> (r: Vec<AdminParcel>)
    ensures
        parcels_carry(r@, peers@, bytes@),
{
    let mut r: Vec<AdminParcel> = Vec::new();
    let mut i: usize = 0;
    while i < peers.len()
        invariant
            i <= peers@.len(),
            r@.len() == i,
            forall|j: int|
                0 <= j < i ==> (#[trigger] r@[j]).peer == peers@[j] && r@[j].kind
                    == StreamKind::Control && r@[j].bytes@ == bytes@,
        decreases peers@.len() - i,
    {
        r.push(AdminParcel::new(peers[i], admin_control_kind(), copy_of(bytes)));
        i = i + 1;
    }
    r
}

/// Encodes a message once and addresses it to each peer.
pub fn control_parcels_for_peers<
    E: Fn(&AdminControlMessage) -> Result<Vec<u8>, AdminSyncError>,
>(message: &AdminControlMessage, peers: &[u16], encode: &E) -> (r: Result<
    Vec<AdminParcel>,
    AdminSyncError,
>)
    requires
        call_requires(*encode, (message,)),
    ensures
        exists|encoded: Result<Vec<u8>, AdminSyncError>| #[trigger]
            call_ensures(*encode, (message,), encoded) && match encoded {
                Ok(bytes) => r matches Ok(parcels) && parcels_carry(parcels@, peers@, bytes@),
                Err(error) => r == Err::<Vec<AdminParcel>, AdminSyncError>(error),
            },
{
    match encode(message) {
        Ok(bytes) => Ok(parcels_for_peers(bytes.as_slice(), peers)),
        Err(error) => Err(error),
    }
}

/// Encodes a mutation once and addresses it to each peer.
pub fn mutation_parcels_for_peers<
    E: Fn(&AdminControlMessage) -> Result<Vec<u8>, AdminSyncError>,
>(mutation: &AdminMutation, peers: &[u16], encode: &E) -> (r: Result<
    Vec<AdminParcel>,
    AdminSyncError,
>)
    requires
        call_requires(*encode, (&AdminControlMessage::Mutation(*mutation),)),
    ensures
        exists|encoded: Result<Vec<u8>, AdminSyncError>| #[trigger]
            call_ensures(*encode, (&AdminControlMessage::Mutation(*mutation),), encoded)
                && match encoded {
                Ok(bytes) => r matches Ok(parcels) && parcels_carry(parcels@, peers@, bytes@),
                Err(error) => r == Err::<Vec<AdminParcel>, AdminSyncError>(error),
            },
{
    let message = AdminControlMessage::Mutation(mutation.clone());
    control_parcels_for_peers(&message, peers, encode)
}

/// Encodes a kick and addresses it to the host of the player.
pub fn kick_parcel_for_host<E: Fn(&AdminControlMessage) -> Result<Vec<u8>, AdminSyncError>>(
    request: &KickRequest,
    encode: &E,
) -> (r: Result<AdminParcel, AdminSyncError>)
    requires
        call_requires(*encode, (&AdminControlMessage::Kick(*request),)),
    ensures
        exists|encoded: Result<Vec<u8>, AdminSyncError>| #[trigger]
            call_ensures(*encode, (&AdminControlMessage::Kick(*request),), encoded) && r == (
            match encoded {
                Ok(bytes) => Ok::<AdminParcel, AdminSyncError>(
                    AdminParcel {
                        peer: request.target.server.0,
                        kind: StreamKind::Control,
                        bytes,
                    },
                ),
                Err(error) => Err(error),
            }),
{
    let message = AdminControlMessage::Kick(request.clone());
    match encode(&message) {
        Ok(bytes) => Ok(kick_parcel(request, bytes)),
        Err(error) => Err(error),
    }
}

/// Encodes a message once and offers it to the queue for each peer, in their
/// order. The result says how many the queue had room for; the others are lost.
pub fn try_broadcast_control_message<
    T: Fn(AdminParcel) -> bool,
    E: Fn(&AdminControlMessage) -> Result<Vec<u8>, AdminSyncError>,
>(offer: &T, message: &AdminControlMessage, peers: &[u16], encode: &E) -> (r: Result<usize, AdminSyncError>)
    requires
        call_requires(*encode, (message,)),
        forall|bytes: Vec<u8>, parcel: AdminParcel|
            #[trigger] call_ensures(*encode, (message,), Ok::<Vec<u8>, AdminSyncError>(bytes))
                && carries(parcel, peers@, bytes@) ==> #[trigger] call_requires(*offer, (parcel,)),
    ensures
        exists|encoded: Result<Vec<u8>, AdminSyncError>| #[trigger]
            call_ensures(*encode, (message,), encoded) && match encoded {
                Ok(bytes) => r matches Ok(sent) && exists|
                    parcels: Seq<AdminParcel>,
                    answers: Seq<bool>,
                | #[trigger]
                    offered(*offer, parcels, answers) && parcels_carry(parcels, peers@, bytes@)
                        && sent == taken(answers),
                Err(error) => r == Err::<usize, AdminSyncError>(error),
            },
{
    let bytes = match encode(message) {
        Ok(bytes) => bytes,
        Err(error) => {
            return Err(error);
        },
    };
    let mut sent: usize = 0;
    let mut i: usize = 0;
    let ghost mut parcels: Seq<AdminParcel> = Seq::empty();
    let ghost mut answers: Seq<bool> = Seq::empty();
    while i < peers.len()
        invariant
            i <= peers@.len(),
            parcels.len() == i,
            offered(*offer, parcels, answers),
            forall|j: int|
                0 <= j < i ==> (#[trigger] parcels[j]).peer == peers@[j] && parcels[j].kind
                    == StreamKind::Control && parcels[j].bytes@ == bytes@,
            sent == taken(answers),
            sent <= i,
            forall|parcel: AdminParcel|
                carries(parcel, peers@, bytes@) ==> #[trigger] call_requires(*offer, (parcel,)),
        decreases peers@.len() - i,
    {
        let parcel = AdminParcel::new(peers[i], admin_control_kind(), copy_of(bytes.as_slice()));
        let ghost said = parcel;
        let answer: bool = offer(parcel);
        proof {
            lemma_taken_push(answers, answer);
            parcels = parcels.push(said);
            answers = answers.push(answer);
        }
        if answer {
            sent = sent + 1;
        }
        i = i + 1;
    }
    Ok(sent)
}

/// The parcel of an encoded kick: it goes to the host of the player.
pub fn kick_parcel(request: &KickRequest, bytes: Vec<u8>) -> (p: AdminParcel)
    ensures
        p == (AdminParcel { peer: request.target.server.0, kind: StreamKind::Control, bytes }),
{
    AdminParcel::new(request.target.server.0, admin_control_kind(), bytes)
}

/// Keeps the operators. What a store makes of a change is its own affair; it
/// says so in `granted` and `revoked`.
pub trait OpStore: Sized {
    /// What the store holds after a grant, and whether it changed.
    spec fn granted(before: Self, grant: OpGrant, after: Self, changed: bool) -> bool;

    /// What the store holds after a revoke, and whether it changed.
    spec fn revoked(before: Self, revoke: OpRevoke, after: Self, changed: bool) -> bool;

    fn grant(&mut self, grant: &OpGrant) -> (changed: bool)
        ensures
            Self::granted(*old(self), *grant, *final(self), changed),
    ;

    fn revoke(&mut self, revoke: &OpRevoke) -> (changed: bool)
        ensures
            Self::revoked(*old(self), *revoke, *final(self), changed),
    ;
}

/// Keeps the bans. What a store makes of a change is its own affair; it says
/// so in `added` and `lifted`.
pub trait BanStore: Sized {
    /// What the store holds after a ban, and whether it changed.
    spec fn added(before: Self, entry: BanEntry, after: Self, changed: bool) -> bool;

    /// What the store holds after a ban was lifted, and whether it changed.
    spec fn lifted(before: Self, revoke: BanRevoke, after: Self, changed: bool) -> bool;

    fn add(&mut self, entry: &BanEntry) -> (changed: bool)
        ensures
            Self::added(*old(self), *entry, *final(self), changed),
    ;

    fn remove(&mut self, revoke: &BanRevoke) -> (changed: bool)
        ensures
            Self::lifted(*old(self), *revoke, *final(self), changed),
    ;
}

/// A mutation changes the store it concerns, by that store's own rules, and
/// leaves the other one alone.
pub open spec fn mutated<Op: OpStore, Ban: BanStore>(
    ops: Op,
    bans: Ban,
    mutation: AdminMutation,
    next_ops: Op,
    next_bans: Ban,
    changed: bool,
) -> bool {
    match mutation {
        AdminMutation::GrantOp(grant) => Op::granted(ops, grant, next_ops, changed) && next_bans
            == bans,
        AdminMutation::RevokeOp(revoke) => Op::revoked(ops, revoke, next_ops, changed) && next_bans
            == bans,
        AdminMutation::AddBan(entry) => Ban::added(bans, entry, next_bans, changed) && next_ops
            == ops,
        AdminMutation::RemoveBan(revoke) => Ban::lifted(bans, revoke, next_bans, changed)
            && next_ops == ops,
    }
}

/// Hands a mutation to the store that it concerns; reports whether it changed.
pub fn apply_mutation_to_stores<Op: OpStore, Ban: BanStore>(
    op_store: &mut Op,
    ban_store: &mut Ban,
    mutation: &AdminMutation,
) -> (changed: bool)
    ensures
        mutated(
            *old(op_store),
            *old(ban_store),
            *mutation,
            *final(op_store),
            *final(ban_store),
            changed,
        ),
{
    match mutation {
        AdminMutation::GrantOp(grant) => op_store.grant(grant),
        AdminMutation::RevokeOp(revoke) => op_store.revoke(revoke),
        AdminMutation::AddBan(entry) => ban_store.add(entry),
        AdminMutation::RemoveBan(revoke) => ban_store.remove(revoke),
    }
}

/// What is said of an answer of the primary: no room is an error.
pub open spec fn says_answer(
    answer: Result<(), AcceptedTick>,
    r: Result<(), AdminSyncError>,
) -> bool {
    match answer {
        Ok(_) => r is Ok,
        Err(_) => r matches Err(error) && error.message@ == "primary admin queue full"@,
    }
}

/// What comes of an encoded mutation: it is submitted under the tick; an error
/// of the encoder is passed on.
pub open spec fn submitted<S: FnOnce(TickStamp, Vec<u8>) -> Result<(), AcceptedTick>>(
    submit: S,
    tick: TickStamp,
    encoded: Result<Vec<u8>, AdminSyncError>,
    r: Result<(), AdminSyncError>,
) -> bool {
    match encoded {
        Ok(payload) => exists|answer: Result<(), AcceptedTick>| #[trigger]
            call_ensures(submit, (tick, payload), answer) && says_answer(answer, r),
        Err(error) => r == Err::<(), AdminSyncError>(error),
    }
}

fn answer_said(answer: Result<(), AcceptedTick>) -> (r: Result<(), AdminSyncError>)
    ensures
        says_answer(answer, r),
{
    match answer {
        Ok(_) => Ok(()),
        Err(_) => Err(AdminSyncError { message: String::from_str("primary admin queue full") }),
    }
}

/// Encodes a mutation and submits it to the primary.
pub fn submit_admin_mutation<
    S: FnOnce(TickStamp, Vec<u8>) -> Result<(), AcceptedTick>,
    E: Fn(&AdminMutation) -> Result<Vec<u8>, AdminSyncError>,
>(submit: S, tick: TickStamp, mutation: &AdminMutation, encode: &E) -> (r: Result<
    (),
    AdminSyncError,
>)
    requires
        call_requires(*encode, (mutation,)),
        forall|payload: Vec<u8>|
            #[trigger] call_ensures(*encode, (mutation,), Ok::<Vec<u8>, AdminSyncError>(payload))
                ==> call_requires(submit, (tick, payload)),
    ensures
        exists|encoded: Result<Vec<u8>, AdminSyncError>| #[trigger]
            call_ensures(*encode, (mutation,), encoded) && submitted(submit, tick, encoded, r),
{
    match encode(mutation) {
        Ok(payload) => answer_said(submit(tick, payload)),
        Err(error) => Err(error),
    }
}

/// Encodes a mutation and offers it to the queue of the primary.
pub fn try_submit_admin_mutation<
    O: FnOnce(AcceptedTick) -> Result<(), AcceptedTick>,
    E: Fn(&AdminMutation) -> Result<Vec<u8>, AdminSyncError>,
>(offer: O, tick: TickStamp, mutation: &AdminMutation, encode: &E) -> (r: Result<
    (),
    AdminSyncError,
>)
    requires
        call_requires(*encode, (mutation,)),
        forall|payload: Vec<u8>|
            #[trigger] call_ensures(*encode, (mutation,), Ok::<Vec<u8>, AdminSyncError>(payload))
                ==> call_requires(offer, (AcceptedTick { tick, payload },)),
    ensures
        exists|encoded: Result<Vec<u8>, AdminSyncError>| #[trigger]
            call_ensures(*encode, (mutation,), encoded) && match encoded {
                Ok(payload) => exists|answer: Result<(), AcceptedTick>| #[trigger]
                    call_ensures(offer, (AcceptedTick { tick, payload },), answer) && says_answer(
                        answer,
                        r,
                    ),
                Err(error) => r == Err::<(), AdminSyncError>(error),
            },
{
    match encode(mutation) {
        Ok(payload) => answer_said(try_submit(offer, tick, payload)),
        Err(error) => Err(error),
    }
}

/// Submits a mutation to the primary and, once it is taken, addresses it to
/// each peer.
pub fn persist_and_parcels_for_peers<
    S: FnOnce(TickStamp, Vec<u8>) -> Result<(), AcceptedTick>,
    E: Fn(&AdminMutation) -> Result<Vec<u8>, AdminSyncError>,
    M: Fn(&AdminControlMessage) -> Result<Vec<u8>, AdminSyncError>,
>(
    submit: S,
    tick: TickStamp,
    mutation: &AdminMutation,
    peers: &[u16],
    encode: &E,
    encode_message: &M,
) -> (r: Result<Vec<AdminParcel>, AdminSyncError>)
    requires
        call_requires(*encode, (mutation,)),
        call_requires(*encode_message, (&AdminControlMessage::Mutation(*mutation),)),
        forall|payload: Vec<u8>|
            #[trigger] call_ensures(*encode, (mutation,), Ok::<Vec<u8>, AdminSyncError>(payload))
                ==> call_requires(submit, (tick, payload)),
    ensures
        exists|encoded: Result<Vec<u8>, AdminSyncError>, kept: Result<(), AdminSyncError>|
            #[trigger] call_ensures(*encode, (mutation,), encoded)
                && #[trigger] submitted(submit, tick, encoded, kept) && match kept {
                Ok(_) => exists|message: Result<Vec<u8>, AdminSyncError>| #[trigger]
                    call_ensures(
                        *encode_message,
                        (&AdminControlMessage::Mutation(*mutation),),
                        message,
                    ) && match message {
                        Ok(bytes) => r matches Ok(parcels) && parcels_carry(
                            parcels@,
                            peers@,
                            bytes@,
                        ),
                        Err(error) => r == Err::<Vec<AdminParcel>, AdminSyncError>(error),
                    },
                Err(error) => r == Err::<Vec<AdminParcel>, AdminSyncError>(error),
            },
{
    match submit_admin_mutation(submit, tick, mutation, encode) {
        Ok(_) => mutation_parcels_for_peers(mutation, peers, encode_message),
        Err(error) => Err(error),
    }
}

/// The mutation that an accepted tick carries.
pub fn decode_primary_tick<D: Fn(&[u8]) -> Result<AdminMutation, AdminSyncError>>(
    tick: &AcceptedTick,
    decode: &D,
) -> (r: Result<AdminMutation, AdminSyncError>)
    requires
        forall|b: &[u8]| b@ == tick.payload@ ==> #[trigger] call_requires(*decode, (b,)),
    ensures
        exists|b: &[u8]| #[trigger] call_ensures(*decode, (b,), r) && b@ == tick.payload@,
{
    decode(tick.payload.as_slice())
}

/// Replays an accepted tick into the stores; reports whether it changed
/// anything. Bytes that `decode` refuses change nothing.
pub fn apply_primary_tick_to_stores<
    Op: OpStore,
    Ban: BanStore,
    D: Fn(&[u8]) -> Result<AdminMutation, AdminSyncError>,
>(op_store: &mut Op, ban_store: &mut Ban, tick: &AcceptedTick, decode: &D) -> (r: Result<
    bool,
    AdminSyncError,
>)
    requires
        forall|b: &[u8]| b@ == tick.payload@ ==> #[trigger] call_requires(*decode, (b,)),
    ensures
        exists|b: &[u8], decoded: Result<AdminMutation, AdminSyncError>| #[trigger]
            call_ensures(*decode, (b,), decoded) && b@ == tick.payload@ && match decoded {
                Ok(mutation) => r matches Ok(changed) && mutated(
                    *old(op_store),
                    *old(ban_store),
                    mutation,
                    *final(op_store),
                    *final(ban_store),
                    changed,
                ),
                Err(error) => r == Err::<bool, AdminSyncError>(error) && *final(op_store)
                    == *old(op_store) && *final(ban_store) == *old(ban_store),
            },
{
    match decode_primary_tick(tick, decode) {
        Ok(mutation) => Ok(apply_mutation_to_stores(op_store, ban_store, &mutation)),
        Err(error) => Err(error),
    }
}

/// A grant counts: its level is valid, and it is not in force already.
pub open spec fn grant_counts(entries: Map<[u8; 16], OpGrant>, grant: OpGrant) -> bool {
    grant.level <= 4 && !(entries.dom().contains(grant.uuid) && entries[grant.uuid].same_rights(
        grant,
    ))
}

/// Operators by their unique id.
#[derive(Debug)]
pub struct InMemoryOpStore {
    pub entries: KeyMap<[u8; 16], OpGrant>,
}

impl InMemoryOpStore {
    pub fn new() -> (s: Self)
        ensures
            s.entries@ == Map::<[u8; 16], OpGrant>::empty(),
    {
        InMemoryOpStore { entries: KeyMap::new() }
    }

    pub fn contains(&self, uuid: &[u8; 16]) -> (b: bool)
        ensures
            b == self.entries@.dom().contains(*uuid),
    {
        self.entries.contains_key(uuid)
    }

    pub fn len(&self) -> (n: usize)
        ensures
            n == self.entries@.len(),
    {
        self.entries.len()
    }

    pub fn is_empty(&self) -> (b: bool)
        ensures
            b == (self.entries@ == Map::<[u8; 16], OpGrant>::empty()),
    {
        self.entries.is_empty()
    }
}

impl Default for InMemoryOpStore {
    fn default() -> (s: Self)
        ensures
            s.entries@ == Map::<[u8; 16], OpGrant>::empty(),
    {
        InMemoryOpStore::new()
    }
}

impl OpStore for InMemoryOpStore {
    open spec fn granted(before: Self, grant: OpGrant, after: Self, changed: bool) -> bool {
        &&& changed == grant_counts(before.entries@, grant)
        &&& after.entries@ == (if changed {
            before.entries@.insert(grant.uuid, grant)
        } else {
            before.entries@
        })
    }

    open spec fn revoked(before: Self, revoke: OpRevoke, after: Self, changed: bool) -> bool {
        &&& changed == before.entries@.dom().contains(revoke.uuid)
        &&& after.entries@ == before.entries@.remove(revoke.uuid)
    }

    fn grant(&mut self, grant: &OpGrant) -> (changed: bool) {
        if !is_valid_op_level(grant.level) {
            return false;
        }
        let in_force: bool = match self.entries.get(&grant.uuid) {
            None => false,
            Some(existing) => existing.level == grant.level && existing.name == grant.name
                && existing.bypasses_player_limit == grant.bypasses_player_limit,
        };
        if in_force {
            return false;
        }
        let _ = self.entries.insert(grant.uuid, grant.clone());
        true
    }

    fn revoke(&mut self, revoke: &OpRevoke) -> (changed: bool) {
        self.entries.remove(&revoke.uuid).is_some()
    }
}

/// Bans by unique id.
#[derive(Debug)]
pub struct InMemoryBanStore {
    pub entries: KeyMap<[u8; 16], BanEntry>,
}

impl InMemoryBanStore {
    pub fn new() -> (s: Self)
        ensures
            s.entries@ == Map::<[u8; 16], BanEntry>::empty(),
    {
        InMemoryBanStore { entries: KeyMap::new() }
    }

    pub fn contains(&self, uuid: &[u8; 16]) -> (b: bool)
        ensures
            b == self.entries@.dom().contains(*uuid),
    {
        self.entries.contains_key(uuid)
    }

    pub fn len(&self) -> (n: usize)
        ensures
            n == self.entries@.len(),
    {
        self.entries.len()
    }

    pub fn is_empty(&self) -> (b: bool)
        ensures
            b == (self.entries@ == Map::<[u8; 16], BanEntry>::empty()),
    {
        self.entries.is_empty()
    }
}

impl Default for InMemoryBanStore {
    fn default() -> (s: Self)
        ensures
            s.entries@ == Map::<[u8; 16], BanEntry>::empty(),
    {
        InMemoryBanStore::new()
    }
}

impl BanStore for InMemoryBanStore {
    open spec fn added(before: Self, entry: BanEntry, after: Self, changed: bool) -> bool {
        &&& changed == !(before.entries@.dom().contains(entry.uuid)
            && before.entries@[entry.uuid].same_as(entry))
        &&& after.entries@ == (if changed {
            before.entries@.insert(entry.uuid, entry)
        } else {
            before.entries@
        })
    }

    open spec fn lifted(before: Self, revoke: BanRevoke, after: Self, changed: bool) -> bool {
        &&& changed == before.entries@.dom().contains(revoke.uuid)
        &&& after.entries@ == before.entries@.remove(revoke.uuid)
    }

    fn add(&mut self, entry: &BanEntry) -> (changed: bool) {
        let in_force: bool = match self.entries.get(&entry.uuid) {
            None => false,
            Some(existing) => existing.says_the_same(entry),
        };
        if in_force {
            return false;
        }
        let _ = self.entries.insert(entry.uuid, entry.clone());
        true
    }

    fn remove(&mut self, revoke: &BanRevoke) -> (changed: bool) {
        self.entries.remove(&revoke.uuid).is_some()
    }
}

/// Applying a change twice changes nothing the second time.
pub proof fn lemma_repeated_change_does_nothing(
    ops: InMemoryOpStore,
    bans: InMemoryBanStore,
    mutation: AdminMutation,
    ops1: InMemoryOpStore,
    bans1: InMemoryBanStore,
    changed1: bool,
    ops2: InMemoryOpStore,
    bans2: InMemoryBanStore,
    changed2: bool,
)
    requires
        mutated(ops, bans, mutation, ops1, bans1, changed1),
        mutated(ops1, bans1, mutation, ops2, bans2, changed2),
    ensures
        !changed2,
        ops2.entries@ == ops1.entries@,
        bans2.entries@ == bans1.entries@,
{
    match mutation {
        AdminMutation::RevokeOp(revoke) => {
            assert(ops1.entries@.remove(revoke.uuid) =~= ops1.entries@);
        },
        AdminMutation::RemoveBan(revoke) => {
            assert(bans1.entries@.remove(revoke.uuid) =~= bans1.entries@);
        },
        _ => {},
    }
}

/// Operators are kept by unique id: a change leaves every other id alone,
/// whatever its name.
pub proof fn lemma_operators_are_kept_by_id(
    ops: InMemoryOpStore,
    bans: InMemoryBanStore,
    mutation: AdminMutation,
    ops1: InMemoryOpStore,
    bans1: InMemoryBanStore,
    changed: bool,
    uuid: [u8; 16],
)
    requires
        mutated(ops, bans, mutation, ops1, bans1, changed),
        match mutation {
            AdminMutation::GrantOp(grant) => grant.uuid != uuid,
            AdminMutation::RevokeOp(revoke) => revoke.uuid != uuid,
            _ => true,
        },
    ensures
        ops1.entries@.dom().contains(uuid) == ops.entries@.dom().contains(uuid),
        ops.entries@.dom().contains(uuid) ==> ops1.entries@[uuid] == ops.entries@[uuid],
{
}

/// The players of the cluster by name, as one peer sees them.
#[derive(Debug)]
pub struct PlayerDirectorySnapshot {
    pub local: ServerId,
    pub players: NameDirectory,
}

impl View for PlayerDirectorySnapshot {
    type V = DirectoryModel;

    open spec fn view(&self) -> DirectoryModel {
        self.players@
    }
}

impl PlayerDirectorySnapshot {
    pub fn new(local: ServerId) -> (d: Self)
        ensures
            d.local == local,
            d@ == (DirectoryModel { by_name: Map::empty(), names: Map::empty() }),
    {
        PlayerDirectorySnapshot { local, players: NameDirectory::new() }
    }

    /// Takes a player in under a name.
    pub fn insert(&mut self, gid: GlobalPlayerId, name: String)
        ensures
            final(self).local == old(self).local,
            final(self)@ == entered(old(self)@, gid, name@),
    {
        self.players.insert(gid, name);
    }

    /// Takes a player out; reports whether it was there.
    pub fn remove_gid(&mut self, gid: &GlobalPlayerId) -> (had: bool)
        ensures
            final(self).local == old(self).local,
            final(self)@ == gone(old(self)@, *gid),
            had == old(self)@.names.dom().contains(*gid),
    {
        self.players.remove(gid)
    }

    pub fn apply_presence_login(&mut self, gid: GlobalPlayerId, name: String)
        ensures
            final(self).local == old(self).local,
            final(self)@ == entered(old(self)@, gid, name@),
    {
        self.insert(gid, name);
    }

    pub fn apply_presence_logout(&mut self, gid: &GlobalPlayerId) -> (had: bool)
        ensures
            final(self).local == old(self).local,
            final(self)@ == gone(old(self)@, *gid),
            had == old(self)@.names.dom().contains(*gid),
    {
        self.remove_gid(gid)
    }

    /// The player found under a name, in any case.
    pub fn locate_by_name(&self, name: &str) -> (r: Option<GlobalPlayerId>)
        ensures
            r == located(self@, name@),
            r matches Some(gid) ==> self@.names.dom().contains(gid) && lowercase_of(
                self@.names[gid],
            ) == lowercase_of(name@),
    {
        self.players.locate(name)
    }

    pub fn player_name(&self, gid: &GlobalPlayerId) -> (r: Option<&String>)
        ensures
            r is Some <==> self@.names.dom().contains(*gid),
            r matches Some(name) ==> name@ == self@.names[*gid],
    {
        self.players.name_of(gid)
    }

    pub fn host_of(&self, gid: &GlobalPlayerId) -> (s: ServerId)
        ensures
            s == gid.server,
    {
        gid.server
    }

    pub fn is_local(&self, gid: &GlobalPlayerId) -> (b: bool)
        ensures
            b == (gid.server == self.local),
    {
        gid.server.0 == self.local.0
    }

    pub fn len(&self) -> (n: usize)
        ensures
            n == self@.names.len(),
    {
        self.players.len()
    }

    pub fn is_empty(&self) -> (b: bool)
        ensures
            b == (self@.names == Map::<GlobalPlayerId, Seq<char>>::empty()),
    {
        self.players.is_empty()
    }
}

impl Clone for PlayerDirectorySnapshot {
    fn clone(&self) -> (d: Self)
        ensures
            d.local == self.local,
            d@ == self@,
    {
        PlayerDirectorySnapshot { local: self.local, players: self.players.clone() }
    }
}

/// A kick, and whether the player is hosted here.
#[derive(Debug, PartialEq, Eq)]
pub struct KickDelivery {
    pub gid: GlobalPlayerId,
    pub local: bool,
    pub request: KickRequest,
}

/// The delivery of a kick of `gid` under the name that the directory has for it.
pub open spec fn kick_of(
    delivery: KickDelivery,
    directory: PlayerDirectorySnapshot,
    gid: GlobalPlayerId,
    reason: String,
    issuer: String,
) -> bool {
    &&& delivery.gid == gid
    &&& delivery.local == (gid.server == directory.local)
    &&& delivery.request.target == gid
    &&& delivery.request.target_name@ == directory@.names[gid]
    &&& delivery.request.reason == reason
    &&& delivery.request.issuer == issuer
}

fn kick_delivery(
    directory: &PlayerDirectorySnapshot,
    gid: GlobalPlayerId,
    reason: String,
    issuer: String,
) -> (r: Option<KickDelivery>)
    ensures
        r is Some <==> directory@.names.dom().contains(gid),
        r matches Some(delivery) ==> kick_of(delivery, *directory, gid, reason, issuer),
{
    match directory.player_name(&gid) {
        None => None,
        Some(name) => Some(
            KickDelivery {
                gid,
                local: directory.is_local(&gid),
                request: KickRequest::new(gid, name.clone(), reason, issuer),
            },
        ),
    }
}

/// The kick of the player found under a name.
pub fn resolve_kick_by_name(
    directory: &PlayerDirectorySnapshot,
    target_name: &str,
    reason: String,
    issuer: String,
) -> (r: Option<KickDelivery>)
    ensures
        r is Some <==> located(directory@, target_name@) is Some,
        r matches Some(delivery) ==> kick_of(
            delivery,
            *directory,
            located(directory@, target_name@)->0,
            reason,
            issuer,
        ),
{
    match directory.locate_by_name(target_name) {
        None => None,
        Some(gid) => kick_delivery(directory, gid, reason, issuer),
    }
}

/// The kick of a player that the directory knows.
pub fn resolve_kick_by_id(
    directory: &PlayerDirectorySnapshot,
    target: GlobalPlayerId,
    reason: String,
    issuer: String,
) -> (r: Option<KickDelivery>)
    ensures
        r is Some <==> directory@.names.dom().contains(target),
        r matches Some(delivery) ==> kick_of(delivery, *directory, target, reason, issuer),
{
    kick_delivery(directory, target, reason, issuer)
}

/// Whether the player to kick is hosted here.
pub fn should_deliver_kick_locally(request: &KickRequest, local: ServerId) -> (b: bool)
    ensures
        b == (request.target.server == local),
{
    request.target.server.0 == local.0
}

/// What came of a message.
#[derive(Debug, PartialEq, Eq)]
pub enum AdminInboundEffect {
    MutationApplied {
        mutation: AdminMutation,
        changed: bool,
    },
    KickDelivery(KickRequest),
    Ignored,
}

/// A message does this: a mutation is applied, with its notice or without; a
/// kick is delivered if the player is hosted here.
pub open spec fn message_handled<Op: OpStore, Ban: BanStore>(
    ops: Op,
    bans: Ban,
    local: ServerId,
    message: AdminControlMessage,
    next_ops: Op,
    next_bans: Ban,
    effect: AdminInboundEffect,
) -> bool {
    match message {
        AdminControlMessage::Mutation(m) => effect matches AdminInboundEffect::MutationApplied {
            mutation,
            changed,
        } && mutation == m && mutated(ops, bans, m, next_ops, next_bans, changed),
        AdminControlMessage::MutationWithAudit(audit) =>
            effect matches AdminInboundEffect::MutationApplied { mutation, changed } && mutation
            == audit.mutation && mutated(ops, bans, audit.mutation, next_ops, next_bans, changed),
        AdminControlMessage::Kick(request) => {
            &&& next_ops == ops
            &&& next_bans == bans
            &&& effect == (if request.target.server == local {
                AdminInboundEffect::KickDelivery(request)
            } else {
                AdminInboundEffect::Ignored
            })
        },
    }
}

/// Takes in a decoded message.
pub fn handle_control_message<Op: OpStore, Ban: BanStore>(
    op_store: &mut Op,
    ban_store: &mut Ban,
    local: ServerId,
    message: AdminControlMessage,
) -> (effect: AdminInboundEffect)
    ensures
        message_handled(
            *old(op_store),
            *old(ban_store),
            local,
            message,
            *final(op_store),
            *final(ban_store),
            effect,
        ),
{
    match message {
        AdminControlMessage::Mutation(mutation) => {
            let changed: bool = apply_mutation_to_stores(op_store, ban_store, &mutation);
            AdminInboundEffect::MutationApplied { mutation, changed }
        },
        AdminControlMessage::MutationWithAudit(audit) => {
            let mutation = audit.mutation;
            let changed: bool = apply_mutation_to_stores(op_store, ban_store, &mutation);
            AdminInboundEffect::MutationApplied { mutation, changed }
        },
        AdminControlMessage::Kick(request) => {
            if should_deliver_kick_locally(&request, local) {
                AdminInboundEffect::KickDelivery(request)
            } else {
                AdminInboundEffect::Ignored
            }
        },
    }
}

/// Takes in an encoded message; bytes that `decode` refuses change nothing.
pub fn handle_control_bytes<
    Op: OpStore,
    Ban: BanStore,
    D: Fn(&[u8]) -> Result<AdminControlMessage, AdminSyncError>,
>(op_store: &mut Op, ban_store: &mut Ban, local: ServerId, bytes: &[u8], decode: &D) -> (r: Result<
    AdminInboundEffect,
    AdminSyncError,
>)
    requires
        call_requires(*decode, (bytes,)),
    ensures
        exists|decoded: Result<AdminControlMessage, AdminSyncError>| #[trigger]
            call_ensures(*decode, (bytes,), decoded) && match decoded {
                Ok(message) => r matches Ok(effect) && message_handled(
                    *old(op_store),
                    *old(ban_store),
                    local,
                    message,
                    *final(op_store),
                    *final(ban_store),
                    effect,
                ),
                Err(error) => r == Err::<AdminInboundEffect, AdminSyncError>(error) && *final(op_store)
                    == *old(op_store) && *final(ban_store) == *old(ban_store),
            },
{
    match decode(bytes) {
        Ok(message) => Ok(handle_control_message(op_store, ban_store, local, message)),
        Err(error) => Err(error),
    }
}

/// Two grants give the same rights exactly if name, level and exemption agree, and
/// two bans are the same exactly if they agree in everything they say.
pub proof fn lemma_admin_entries_compare(a: OpGrant, b: OpGrant, x: BanEntry, y: BanEntry)
    ensures
        a.same_rights(b) <==> a.name@ == b.name@ && a.level == b.level && a.bypasses_player_limit
            == b.bypasses_player_limit,
        x.same_as(y) <==> x.uuid == y.uuid && x.name@ == y.name@ && x.source@ == y.source@
            && x.reason@ == y.reason@ && x.created_epoch_secs == y.created_epoch_secs
            && x.expires_epoch_secs == y.expires_epoch_secs,
{
}

/// A grant with a level up to four that is not in force already is taken in, and
/// any other changes nothing; a revoke takes exactly its player out.
pub proof fn lemma_operators_change_one_by_one(
    before: InMemoryOpStore,
    grant: OpGrant,
    revoke: OpRevoke,
    after: InMemoryOpStore,
    changed: bool,
    other: [u8; 16],
)
    ensures
        InMemoryOpStore::granted(before, grant, after, changed) ==> {
            let in_force = before.entries@.dom().contains(grant.uuid) && {
                let e = before.entries@[grant.uuid];
                e.name@ == grant.name@ && e.level == grant.level && e.bypasses_player_limit
                    == grant.bypasses_player_limit
            };
            &&& changed <==> grant.level <= 4 && !in_force
            &&& changed ==> after.entries@.dom().contains(grant.uuid) && after.entries@[grant.uuid]
                == grant
            &&& !changed ==> after.entries@ == before.entries@
            &&& other != grant.uuid ==> (after.entries@.dom().contains(other)
                <==> before.entries@.dom().contains(other))
            &&& other != grant.uuid && before.entries@.dom().contains(other)
                ==> after.entries@[other] == before.entries@[other]
        },
        InMemoryOpStore::revoked(before, revoke, after, changed) ==> {
            &&& changed <==> before.entries@.dom().contains(revoke.uuid)
            &&& !after.entries@.dom().contains(revoke.uuid)
            &&& other != revoke.uuid ==> (after.entries@.dom().contains(other)
                <==> before.entries@.dom().contains(other))
            &&& other != revoke.uuid && before.entries@.dom().contains(other)
                ==> after.entries@[other] == before.entries@[other]
        },
{
}

/// A ban that is not there already in the same words is taken in, and any other
/// changes nothing; lifting takes exactly the ban of its player out.
pub proof fn lemma_bans_change_one_by_one(
    before: InMemoryBanStore,
    entry: BanEntry,
    revoke: BanRevoke,
    after: InMemoryBanStore,
    changed: bool,
    other: [u8; 16],
)
    ensures
        InMemoryBanStore::added(before, entry, after, changed) ==> {
            &&& changed <==> !(before.entries@.dom().contains(entry.uuid)
                && before.entries@[entry.uuid].same_as(entry))
            &&& changed ==> after.entries@.dom().contains(entry.uuid) && after.entries@[entry.uuid]
                == entry
            &&& !changed ==> after.entries@ == before.entries@
            &&& other != entry.uuid ==> (after.entries@.dom().contains(other)
                <==> before.entries@.dom().contains(other))
            &&& other != entry.uuid && before.entries@.dom().contains(other)
                ==> after.entries@[other] == before.entries@[other]
        },
        InMemoryBanStore::lifted(before, revoke, after, changed) ==> {
            &&& changed <==> before.entries@.dom().contains(revoke.uuid)
            &&& !after.entries@.dom().contains(revoke.uuid)
            &&& other != revoke.uuid ==> (after.entries@.dom().contains(other)
                <==> before.entries@.dom().contains(other))
            &&& other != revoke.uuid && before.entries@.dom().contains(other)
                ==> after.entries@[other] == before.entries@[other]
        },
{
}

/// A change of operators reaches the operators only and a change of bans the bans
/// only, by the rules of the store that it reaches.
pub proof fn lemma_mutations_reach_their_store<Op: OpStore, Ban: BanStore>(
    ops: Op,
    bans: Ban,
    mutation: AdminMutation,
    next_ops: Op,
    next_bans: Ban,
    changed: bool,
)
    requires
        mutated(ops, bans, mutation, next_ops, next_bans, changed),
    ensures
        mutation is GrantOp || mutation is RevokeOp ==> next_bans == bans,
        mutation is AddBan || mutation is RemoveBan ==> next_ops == ops,
        mutation matches AdminMutation::GrantOp(grant) ==> Op::granted(
            ops,
            grant,
            next_ops,
            changed,
        ),
        mutation matches AdminMutation::RevokeOp(revoke) ==> Op::revoked(
            ops,
            revoke,
            next_ops,
            changed,
        ),
        mutation matches AdminMutation::AddBan(entry) ==> Ban::added(
            bans,
            entry,
            next_bans,
            changed,
        ),
        mutation matches AdminMutation::RemoveBan(revoke) ==> Ban::lifted(
            bans,
            revoke,
            next_bans,
            changed,
        ),
{
}

/// A mutation that comes in is applied and reported, with an audit or without; a
/// kick is delivered exactly if its target is hosted here, and changes nothing.
pub proof fn lemma_admin_messages_take_effect<Op: OpStore, Ban: BanStore>(
    ops: Op,
    bans: Ban,
    local: ServerId,
    message: AdminControlMessage,
    next_ops: Op,
    next_bans: Ban,
    effect: AdminInboundEffect,
)
    requires
        message_handled(ops, bans, local, message, next_ops, next_bans, effect),
    ensures
        match message {
            AdminControlMessage::Mutation(m) => effect is MutationApplied && effect->mutation == m
                && mutated(ops, bans, m, next_ops, next_bans, effect->changed),
            AdminControlMessage::MutationWithAudit(audit) => effect is MutationApplied
                && effect->mutation == audit.mutation && mutated(
                ops,
                bans,
                audit.mutation,
                next_ops,
                next_bans,
                effect->changed,
            ),
            AdminControlMessage::Kick(request) => {
                &&& next_ops == ops
                &&& next_bans == bans
                &&& request.target.server == local ==> effect == AdminInboundEffect::KickDelivery(
                    request,
                )
                &&& request.target.server != local ==> effect is Ignored
            },
        },
{
}

/// A kick names its target, the name under which it is listed, and whether it is
/// hosted here, and passes reason and issuer on.
pub proof fn lemma_kick_names_its_target(
    delivery: KickDelivery,
    directory: PlayerDirectorySnapshot,
    gid: GlobalPlayerId,
    reason: String,
    issuer: String,
)
    requires
        kick_of(delivery, directory, gid, reason, issuer),
    ensures
        delivery.gid == gid,
        delivery.local <==> gid.server == directory.local,
        delivery.request.target == gid,
        delivery.request.target_name@ == directory@.names[gid],
        delivery.request.reason == reason,
        delivery.request.issuer == issuer,
{
}

/// A full queue is reported as such, and an accepted submission succeeds.
pub proof fn lemma_submissions_are_answered(
    answer: Result<(), AcceptedTick>,
    r: Result<(), AdminSyncError>,
)
    requires
        says_answer(answer, r),
    ensures
        r is Ok <==> answer is Ok,
        r matches Err(error) ==> error.message@ == "primary admin queue full"@,
{
}

/// Every parcel goes to its own peer on the control stream with the same bytes.
pub proof fn lemma_admin_parcels_reach_every_peer(
    r: Seq<AdminParcel>,
    peers: Seq<u16>,
    bytes: Seq<u8>,
    i: int,
)
    requires
        parcels_carry(r, peers, bytes),
        0 <= i < peers.len(),
    ensures
        r.len() == peers.len(),
        r[i].peer == peers[i],
        r[i].kind == StreamKind::Control,
        r[i].bytes@ == bytes,
        carries(r[i], peers, bytes),
{
    assert(peers.contains(peers[i]));
}

} // verus!
