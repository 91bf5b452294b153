//! Chat across peers: who a message goes to, and who is found by name.

use vstd::prelude::*;
use crate::bytes::copy_of;
use crate::identity::{GlobalPlayerId, ServerId};
use crate::names::{DirectoryModel, NameDirectory, entered, gone, located};
use crate::offers::{lemma_taken_push, offered, taken};
use crate::protocol::StreamKind;
use crate::text::{
    byte_count, byte_len, has_text, insert_text, lowercase_of, lowercased, text_starts_with,
    texts_ascending,
};

verus! {

/// Longest chat message, in bytes.
pub const MAX_CHAT_BODY_LEN: usize = 256;

/// Longest name in chat, in bytes.
pub const MAX_CHAT_NAME_LEN: usize = 16;

/// A chat message could not be encoded or decoded.
#[derive(Debug, Clone, PartialEq, Eq)]
pub struct ChatSyncError {
    pub message: String,
}

/// A message for everybody.
#[derive(Debug, PartialEq, Eq)]
pub struct PublicChatBroadcast {
    pub sender: GlobalPlayerId,
    pub sender_name: String,
    pub body: String,
}

impl PublicChatBroadcast {
    pub fn new(sender: GlobalPlayerId, sender_name: String, body: String) -> (b: Self)
        ensures
            b == (PublicChatBroadcast { sender, sender_name, body }),
    {
        PublicChatBroadcast { sender, sender_name, body }
    }
}

impl Clone for PublicChatBroadcast {
    fn clone(&self) -> (r: Self)
        ensures
            r == *self,
    {
        PublicChatBroadcast {
            sender: self.sender,
            sender_name: self.sender_name.clone(),
            body: self.body.clone(),
        }
    }
}

/// A message for one player.
#[derive(Debug, PartialEq, Eq)]
pub struct PrivateChatRequest {
    pub from: GlobalPlayerId,
    pub from_name: String,
    pub to: GlobalPlayerId,
    pub to_name: String,
    pub body: String,
}

impl PrivateChatRequest {
    pub fn new(
        from: GlobalPlayerId,
        from_name: String,
        to: GlobalPlayerId,
        to_name: String,
        body: String,
    ) -> (r: Self)
        ensures
            r == (PrivateChatRequest { from, from_name, to, to_name, body }),
    {
        PrivateChatRequest { from, from_name, to, to_name, body }
    }
}

impl Clone for PrivateChatRequest {
    fn clone(&self) -> (r: Self)
        ensures
            r == *self,
    {
        PrivateChatRequest {
            from: self.from,
            from_name: self.from_name.clone(),
            to: self.to,
            to_name: self.to_name.clone(),
            body: self.body.clone(),
        }
    }
}

/// A message for a team.
#[derive(Debug, PartialEq, Eq)]
pub struct TeamChatBroadcast {
    pub sender: GlobalPlayerId,
    pub sender_name: String,
    pub team: String,
    pub body: String,
}

impl TeamChatBroadcast {
    pub fn new(sender: GlobalPlayerId, sender_name: String, team: String, body: String) -> (b: Self)
        ensures
            b == (TeamChatBroadcast { sender, sender_name, team, body }),
    {
        TeamChatBroadcast { sender, sender_name, team, body }
    }
}

impl Clone for TeamChatBroadcast {
    fn clone(&self) -> (r: Self)
        ensures
            r == *self,
    {
        TeamChatBroadcast {
            sender: self.sender,
            sender_name: self.sender_name.clone(),
            team: self.team.clone(),
            body: self.body.clone(),
        }
    }
}

/// Something that a player does, put in words.
#[derive(Debug, PartialEq, Eq)]
pub struct EmoteChatBroadcast {
    pub sender: GlobalPlayerId,
    pub sender_name: String,
    pub body: String,
}

impl EmoteChatBroadcast {
    pub fn new(sender: GlobalPlayerId, sender_name: String, body: String) -> (b: Self)
        ensures
            b == (EmoteChatBroadcast { sender, sender_name, body }),
    {
        EmoteChatBroadcast { sender, sender_name, body }
    }
}

impl Clone for EmoteChatBroadcast {
    fn clone(&self) -> (r: Self)
        ensures
            r == *self,
    {
        EmoteChatBroadcast {
            sender: self.sender,
            sender_name: self.sender_name.clone(),
            body: self.body.clone(),
        }
    }
}

/// An announcement.
#[derive(Debug, PartialEq, Eq)]
pub struct SayChatBroadcast {
    pub sender: GlobalPlayerId,
    pub sender_name: String,
    pub body: String,
}

impl SayChatBroadcast {
    pub fn new(sender: GlobalPlayerId, sender_name: String, body: String) -> (b: Self)
        ensures
            b == (SayChatBroadcast { sender, sender_name, body }),
    {
        SayChatBroadcast { sender, sender_name, body }
    }
}

impl Clone for SayChatBroadcast {
    fn clone(&self) -> (r: Self)
        ensures
            r == *self,
    {
        SayChatBroadcast {
            sender: self.sender,
            sender_name: self.sender_name.clone(),
            body: self.body.clone(),
        }
    }
}

/// What peers tell each other about chat.
#[derive(Debug, PartialEq, Eq)]
pub enum ChatControlMessage {
    Public(PublicChatBroadcast),
    Private(PrivateChatRequest),
    Team(TeamChatBroadcast),
    Emote(EmoteChatBroadcast),
    Say(SayChatBroadcast),
}

/// Encoded bytes on their way to a peer.
#[derive(Debug, Clone, PartialEq, Eq)]
pub struct ChatParcel {
    pub peer: u16,
    pub kind: StreamKind,
    pub bytes: Vec<u8>,
}

impl ChatParcel {
    pub fn new(peer: u16, kind: StreamKind, bytes: Vec<u8>) -> (p: Self)
        ensures
            p == (ChatParcel { peer, kind, bytes }),
    {
        ChatParcel { peer, kind, bytes }
    }
}

/// The stream of chat messages.
pub fn chat_control_kind() -> (k: StreamKind)
    ensures
        k == StreamKind::Control,
{
    StreamKind::Control
}

/// Whether a message is neither empty nor too long.
pub fn is_valid_chat_body(body: &str) -> (b: bool)
    ensures
        b == (body@.len() > 0 && byte_len(body@) <= MAX_CHAT_BODY_LEN),
{
    !body.is_empty() && byte_count(body) <= MAX_CHAT_BODY_LEN
}

/// Whether a name is neither empty nor too long.
pub fn is_valid_chat_name(name: &str) -> (b: bool)
    ensures
        b == (name@.len() > 0 && byte_len(name@) <= MAX_CHAT_NAME_LEN),
{
    !name.is_empty() && byte_count(name) <= MAX_CHAT_NAME_LEN
}

/// The name under which a player is looked up.
pub fn canonical_chat_key(name: &str) -> (r: String)
    ensures
        r@ == lowercase_of(name@),
{
    lowercased(name)
}

/// A parcel with the encoded message for one of the peers.
pub open spec fn carries(parcel: ChatParcel, peers: Seq<u16>, bytes: Seq<u8>) -> bool {
    peers.contains(parcel.peer) && parcel.kind == StreamKind::Control && parcel.bytes@ == bytes
}

/// The parcels carry `bytes` on the control stream, one to each peer, in their order.
pub open spec fn parcels_carry(r: Seq<ChatParcel>, peers: Seq<u16>, bytes: Seq<u8>) -> bool {
    &&& r.len() == peers.len()
    &&& forall|i: int|
        0 <= i < peers.len() ==> (#[trigger] r[i]).peer == peers[i] && r[i].kind
            == StreamKind::Control && r[i].bytes@ == bytes
}

/// The parcels are the encoded message, one to each peer; an error of the
/// encoder is passed on.
pub open spec fn parcelled(
    encoded: Result<Vec<u8>, ChatSyncError>,
    peers: Seq<u16>,
    r: Result<Vec<ChatParcel>, ChatSyncError>,
) -> bool {
    match encoded {
        Ok(bytes) => r matches Ok(parcels) && parcels_carry(parcels@, peers, bytes@),
        Err(error) => r == Err::<Vec<ChatParcel>, ChatSyncError>(error),
    }
}

/// One parcel with the same encoded message for each peer, in their order.
pub fn parcels_for_peers(bytes: &[u8], peers: &[u16]) -> (r: Vec<ChatParcel>)
    ensures
        parcels_carry(r@, peers@, bytes@),
{
    let mut r: Vec<ChatParcel> = Vec::new();
    let mut i: usize = 0;
    while i < peers.len()
        invariant
            i <= peers@.len(),
            r@.len() == i,
            forall|j: int|
                0 <= j < i ==> (#[trigger] r@[j]).peer == peers@[j] && r@[j].kind
                    == StreamKind::Control && r@[j].bytes@ == bytes@,
        decreases peers@.len() - i,
    {
        r.push(ChatParcel::new(peers[i], chat_control_kind(), copy_of(bytes)));
        i = i + 1;
    }
    r
}

/// Encodes a message once and addresses it to each peer.
pub fn control_parcels_for_peers<E: Fn(&ChatControlMessage) -> Result<Vec<u8>, ChatSyncError>>(
    message: &ChatControlMessage,
    peers: &[u16],
    encode: &E,
) -> (r: Result<Vec<ChatParcel>, ChatSyncError>)
    requires
        call_requires(*encode, (message,)),
    ensures
        exists|encoded: Result<Vec<u8>, ChatSyncError>| #[trigger]
            call_ensures(*encode, (message,), encoded) && parcelled(encoded, peers@, r),
{
    match encode(message) {
        Ok(bytes) => Ok(parcels_for_peers(bytes.as_slice(), peers)),
        Err(error) => Err(error),
    }
}

/// Encodes a message for everybody once and addresses it to each peer.
pub fn public_parcels_for_peers<E: Fn(&ChatControlMessage) -> Result<Vec<u8>, ChatSyncError>>(
    broadcast: &PublicChatBroadcast,
    peers: &[u16],
    encode: &E,
) -> (r: Result<Vec<ChatParcel>, ChatSyncError>)
    requires
        call_requires(*encode, (&ChatControlMessage::Public(*broadcast),)),
    ensures
        exists|encoded: Result<Vec<u8>, ChatSyncError>| #[trigger]
            call_ensures(*encode, (&ChatControlMessage::Public(*broadcast),), encoded) && parcelled(
                encoded,
                peers@,
                r,
            ),
{
    let message = ChatControlMessage::Public(broadcast.clone());
    control_parcels_for_peers(&message, peers, encode)
}

/// Encodes a team message once and addresses it to each peer.
pub fn team_parcels_for_peers<E: Fn(&ChatControlMessage) -> Result<Vec<u8>, ChatSyncError>>(
    broadcast: &TeamChatBroadcast,
    peers: &[u16],
    encode: &E,
) -> (r: Result<Vec<ChatParcel>, ChatSyncError>)
    requires
        call_requires(*encode, (&ChatControlMessage::Team(*broadcast),)),
    ensures
        exists|encoded: Result<Vec<u8>, ChatSyncError>| #[trigger]
            call_ensures(*encode, (&ChatControlMessage::Team(*broadcast),), encoded) && parcelled(
                encoded,
                peers@,
                r,
            ),
{
    let message = ChatControlMessage::Team(broadcast.clone());
    control_parcels_for_peers(&message, peers, encode)
}

/// Encodes an emote once and addresses it to each peer.
pub fn emote_parcels_for_peers<E: Fn(&ChatControlMessage) -> Result<Vec<u8>, ChatSyncError>>(
    broadcast: &EmoteChatBroadcast,
    peers: &[u16],
    encode: &E,
) -> (r: Result<Vec<ChatParcel>, ChatSyncError>)
    requires
        call_requires(*encode, (&ChatControlMessage::Emote(*broadcast),)),
    ensures
        exists|encoded: Result<Vec<u8>, ChatSyncError>| #[trigger]
            call_ensures(*encode, (&ChatControlMessage::Emote(*broadcast),), encoded) && parcelled(
                encoded,
                peers@,
                r,
            ),
{
    let message = ChatControlMessage::Emote(broadcast.clone());
    control_parcels_for_peers(&message, peers, encode)
}

/// Encodes an announcement once and addresses it to each peer.
pub fn say_parcels_for_peers<E: Fn(&ChatControlMessage) -> Result<Vec<u8>, ChatSyncError>>(
    broadcast: &SayChatBroadcast,
    peers: &[u16],
    encode: &E,
) -> (r: Result<Vec<ChatParcel>, ChatSyncError>)
    requires
        call_requires(*encode, (&ChatControlMessage::Say(*broadcast),)),
    ensures
        exists|encoded: Result<Vec<u8>, ChatSyncError>| #[trigger]
            call_ensures(*encode, (&ChatControlMessage::Say(*broadcast),), encoded) && parcelled(
                encoded,
                peers@,
                r,
            ),
{
    let message = ChatControlMessage::Say(broadcast.clone());
    control_parcels_for_peers(&message, peers, encode)
}

/// Encodes a private message and addresses it to the host of the addressee.
pub fn private_parcel_for_host<E: Fn(&ChatControlMessage) -> Result<Vec<u8>, ChatSyncError>>(
    request: &PrivateChatRequest,
    encode: &E,
) -> (r: Result<ChatParcel, ChatSyncError>)
    requires
        call_requires(*encode, (&ChatControlMessage::Private(*request),)),
    ensures
        exists|encoded: Result<Vec<u8>, ChatSyncError>| #[trigger]
            call_ensures(*encode, (&ChatControlMessage::Private(*request),), encoded) && r == (
            match encoded {
                Ok(bytes) => Ok::<ChatParcel, ChatSyncError>(
                    ChatParcel { peer: request.to.server.0, kind: StreamKind::Control, bytes },
                ),
                Err(error) => Err(error),
            }),
{
    let message = ChatControlMessage::Private(request.clone());
    match encode(&message) {
        Ok(bytes) => Ok(private_parcel(request, bytes)),
        Err(error) => Err(error),
    }
}

/// Encodes a message once and offers it to the queue for each peer, in their
/// order. The result says how many the queue had room for; the others are lost.
pub fn try_broadcast_control_message<
    T: Fn(ChatParcel) -> bool,
    E: Fn(&ChatControlMessage) -> Result<Vec<u8>, ChatSyncError>,
>(offer: &T, message: &ChatControlMessage, peers: &[u16], encode: &E) -> (r: Result<usize, ChatSyncError>)
    requires
        call_requires(*encode, (message,)),
        forall|bytes: Vec<u8>, parcel: ChatParcel|
            #[trigger] call_ensures(*encode, (message,), Ok::<Vec<u8>, ChatSyncError>(bytes))
                && carries(parcel, peers@, bytes@) ==> #[trigger] call_requires(*offer, (parcel,)),
    ensures
        exists|encoded: Result<Vec<u8>, ChatSyncError>| #[trigger]
            call_ensures(*encode, (message,), encoded) && match encoded {
                Ok(bytes) => r matches Ok(sent) && exists|
                    parcels: Seq<ChatParcel>,
                    answers: Seq<bool>,
                | #[trigger]
                    offered(*offer, parcels, answers) && parcels_carry(parcels, peers@, bytes@)
                        && sent == taken(answers),
                Err(error) => r == Err::<usize, ChatSyncError>(error),
            },
{
    let bytes = match encode(message) {
        Ok(bytes) => bytes,
        Err(error) => {
            return Err(error);
        },
    };
    let mut sent: usize = 0;
    let mut i: usize = 0;
    let ghost mut parcels: Seq<ChatParcel> = Seq::empty();
    let ghost mut answers: Seq<bool> = Seq::empty();
    while i < peers.len()
        invariant
            i <= peers@.len(),
            parcels.len() == i,
            offered(*offer, parcels, answers),
            forall|j: int|
                0 <= j < i ==> (#[trigger] parcels[j]).peer == peers@[j] && parcels[j].kind
                    == StreamKind::Control && parcels[j].bytes@ == bytes@,
            sent == taken(answers),
            sent <= i,
            forall|parcel: ChatParcel|
                carries(parcel, peers@, bytes@) ==> #[trigger] call_requires(*offer, (parcel,)),
        decreases peers@.len() - i,
    {
        let parcel = ChatParcel::new(peers[i], chat_control_kind(), copy_of(bytes.as_slice()));
        let ghost said = parcel;
        let answer: bool = offer(parcel);
        proof {
            lemma_taken_push(answers, answer);
            parcels = parcels.push(said);
            answers = answers.push(answer);
        }
        if answer {
            sent = sent + 1;
        }
        i = i + 1;
    }
    Ok(sent)
}

/// The parcel of an encoded private message: it goes to the host of the addressee.
pub fn private_parcel(request: &PrivateChatRequest, bytes: Vec<u8>) -> (p: ChatParcel)
    ensures
        p == (ChatParcel { peer: request.to.server.0, kind: StreamKind::Control, bytes }),
{
    ChatParcel::new(request.to.server.0, chat_control_kind(), bytes)
}

/// The players of the cluster by name, as one peer sees them.
#[derive(Debug)]
pub struct ChatDirectorySnapshot {
    pub local: ServerId,
    pub players: NameDirectory,
}

impl View for ChatDirectorySnapshot {
    type V = DirectoryModel;

    open spec fn view(&self) -> DirectoryModel {
        self.players@
    }
}

/// Somebody in the directory is named `text`.
pub open spec fn is_named(m: DirectoryModel, text: Seq<char>) -> bool {
    exists|gid: GlobalPlayerId| m.names.dom().contains(gid) && #[trigger] m.names[gid] == text
}

impl ChatDirectorySnapshot {
    pub fn new(local: ServerId) -> (d: Self)
        ensures
            d.local == local,
            d@ == (DirectoryModel { by_name: Map::empty(), names: Map::empty() }),
    {
        ChatDirectorySnapshot { local, players: NameDirectory::new() }
    }

    /// Takes a player in under a name.
    pub fn insert(&mut self, gid: GlobalPlayerId, name: String)
        ensures
            final(self).local == old(self).local,
            final(self)@ == entered(old(self)@, gid, name@),
    {
        self.players.insert(gid, name);
    }

    /// Takes a player out; reports whether it was there.
    pub fn remove_gid(&mut self, gid: &GlobalPlayerId) -> (had: bool)
        ensures
            final(self).local == old(self).local,
            final(self)@ == gone(old(self)@, *gid),
            had == old(self)@.names.dom().contains(*gid),
    {
        self.players.remove(gid)
    }

    /// The player found under a name, in any case.
    pub fn locate_by_name(&self, name: &str) -> (r: Option<GlobalPlayerId>)
        ensures
            r == located(self@, name@),
            r matches Some(gid) ==> self@.names.dom().contains(gid) && lowercase_of(
                self@.names[gid],
            ) == lowercase_of(name@),
    {
        self.players.locate(name)
    }

    pub fn player_name(&self, gid: &GlobalPlayerId) -> (r: Option<&String>)
        ensures
            r is Some <==> self@.names.dom().contains(*gid),
            r matches Some(name) ==> name@ == self@.names[*gid],
    {
        self.players.name_of(gid)
    }

    pub fn host_of(&self, gid: &GlobalPlayerId) -> (s: ServerId)
        ensures
            s == gid.server,
    {
        gid.server
    }

    pub fn is_local(&self, gid: &GlobalPlayerId) -> (b: bool)
        ensures
            b == (gid.server == self.local),
    {
        gid.server.0 == self.local.0
    }

    pub fn len(&self) -> (n: usize)
        ensures
            n == self@.names.len(),
    {
        self.players.len()
    }

    pub fn is_empty(&self) -> (b: bool)
        ensures
            b == (self@.names == Map::<GlobalPlayerId, Seq<char>>::empty()),
    {
        self.players.is_empty()
    }

    /// All names, each once, in ascending order.
    pub fn all_names(&self) -> (r: Vec<String>)
        ensures
            texts_ascending(r@),
            forall|t: Seq<char>| #[trigger] has_text(r@, t) <==> is_named(self@, t),
    {
        let names = self.players.name_list();
        let mut r: Vec<String> = Vec::new();
        let mut i: usize = 0;
        while i < names.len()
            invariant
                i <= names@.len(),
                texts_ascending(r@),
                forall|t: Seq<char>| #[trigger]
                    has_text(r@, t) <==> has_text(names@.take(i as int), t),
            decreases names@.len() - i,
        {
            insert_text(&mut r, &names[i]);
            proof {
                lemma_taken_text(names@, i as int);
            }
            i = i + 1;
        }
        proof {
            assert(names@.take(i as int) =~= names@);
            assert forall|t: Seq<char>| #[trigger] has_text(r@, t) <==> is_named(self@, t) by {
                assert(has_text(names@, t) <==> is_named(self@, t));
            }
        }
        r
    }

    /// The names that start with `prefix` in any case, each once, in ascending order.
    pub fn completion_names(&self, prefix: &str) -> (r: Vec<String>)
        ensures
            texts_ascending(r@),
            forall|t: Seq<char>| #[trigger]
                has_text(r@, t) <==> is_named(self@, t) && lowercase_of(prefix@).is_prefix_of(
                    lowercase_of(t),
                ),
    {
        let folded = canonical_chat_key(prefix);
        let names = self.players.name_list();
        let mut r: Vec<String> = Vec::new();
        let mut i: usize = 0;
        while i < names.len()
            invariant
                i <= names@.len(),
                folded@ == lowercase_of(prefix@),
                texts_ascending(r@),
                forall|t: Seq<char>| #[trigger]
                    has_text(r@, t) <==> has_text(names@.take(i as int), t)
                        && folded@.is_prefix_of(lowercase_of(t)),
            decreases names@.len() - i,
        {
            let key = canonical_chat_key(names[i].as_str());
            if text_starts_with(key.as_str(), folded.as_str()) {
                insert_text(&mut r, &names[i]);
            }
            proof {
                lemma_taken_text(names@, i as int);
            }
            i = i + 1;
        }
        proof {
            assert(names@.take(i as int) =~= names@);
            assert forall|t: Seq<char>| #[trigger] has_text(r@, t) <==> is_named(self@, t)
                && lowercase_of(prefix@).is_prefix_of(lowercase_of(t)) by {
                assert(has_text(names@, t) <==> is_named(self@, t));
            }
        }
        r
    }
}

proof fn lemma_taken_text(s: Seq<String>, i: int)
    requires
        0 <= i < s.len(),
    ensures
        forall|t: Seq<char>| #[trigger]
            has_text(s.take(i + 1), t) <==> has_text(s.take(i), t) || t == s[i]@,
{
    assert forall|t: Seq<char>| #[trigger] has_text(s.take(i + 1), t) <==> has_text(s.take(i), t)
        || t == s[i]@ by {
        if has_text(s.take(i), t) {
            let j = choose|j: int| 0 <= j < i && (#[trigger] s.take(i)[j])@ == t;
            assert(s.take(i + 1)[j]@ == t);
        }
        if t == s[i]@ {
            assert(s.take(i + 1)[i]@ == t);
        }
        if has_text(s.take(i + 1), t) {
            let j = choose|j: int| 0 <= j < i + 1 && (#[trigger] s.take(i + 1)[j])@ == t;
            if j < i {
                assert(s.take(i)[j]@ == t);
            }
        }
    }
}

impl Clone for ChatDirectorySnapshot {
    fn clone(&self) -> (d: Self)
        ensures
            d.local == self.local,
            d@ == self@,
    {
        ChatDirectorySnapshot { local: self.local, players: self.players.clone() }
    }
}

/// A private message, and whether its addressee is hosted here.
#[derive(Debug, PartialEq, Eq)]
pub struct PrivateDelivery {
    pub target: GlobalPlayerId,
    pub local: bool,
    pub request: PrivateChatRequest,
}

/// The delivery of a message to `target` under the name that the directory has for it.
pub open spec fn whisper_of(
    delivery: PrivateDelivery,
    directory: ChatDirectorySnapshot,
    from: GlobalPlayerId,
    from_name: String,
    target: GlobalPlayerId,
    body: String,
) -> bool {
    &&& delivery.target == target
    &&& delivery.local == (target.server == directory.local)
    &&& delivery.request.from == from
    &&& delivery.request.from_name == from_name
    &&& delivery.request.to == target
    &&& delivery.request.to_name@ == directory@.names[target]
    &&& delivery.request.body == body
}

/// A private message to the player found under a name; nobody writes to themselves.
pub fn resolve_private_by_name(
    directory: &ChatDirectorySnapshot,
    from: GlobalPlayerId,
    from_name: String,
    target_name: &str,
    body: String,
) -> (r: Option<PrivateDelivery>)
    ensures
        r is Some <==> located(directory@, target_name@) is Some && located(
            directory@,
            target_name@,
        ) != Some(from),
        r matches Some(delivery) ==> whisper_of(
            delivery,
            *directory,
            from,
            from_name,
            located(directory@, target_name@)->0,
            body,
        ),
{
    match directory.locate_by_name(target_name) {
        None => None,
        Some(target) => resolve_private_by_id(directory, from, from_name, target, body),
    }
}

/// A private message to a player that the directory knows; nobody writes to themselves.
pub fn resolve_private_by_id(
    directory: &ChatDirectorySnapshot,
    from: GlobalPlayerId,
    from_name: String,
    target: GlobalPlayerId,
    body: String,
) -> (r: Option<PrivateDelivery>)
    ensures
        r is Some <==> target != from && directory@.names.dom().contains(target),
        r matches Some(delivery) ==> whisper_of(
            delivery,
            *directory,
            from,
            from_name,
            target,
            body,
        ),
{
    if target.server.0 == from.server.0 && target.player.0 == from.player.0 {
        return None;
    }
    match directory.player_name(&target) {
        None => None,
        Some(name) => Some(
            PrivateDelivery {
                target,
                local: directory.is_local(&target),
                request: PrivateChatRequest::new(from, from_name, target, name.clone(), body),
            },
        ),
    }
}

/// Whether the addressee is hosted here.
pub fn should_deliver_private_locally(request: &PrivateChatRequest, local: ServerId) -> (b: bool)
    ensures
        b == (request.to.server == local),
{
    request.to.server.0 == local.0
}

/// What came of a message.
#[derive(Debug, PartialEq, Eq)]
pub enum ChatInboundEffect {
    PublicDelivery(PublicChatBroadcast),
    PrivateDelivery(PrivateChatRequest),
    TeamDelivery(TeamChatBroadcast),
    EmoteDelivery(EmoteChatBroadcast),
    SayDelivery(SayChatBroadcast),
    Ignored,
}

/// What becomes of a message: it is delivered, but a private one only if its
/// addressee is hosted here.
pub open spec fn effect_of(local: ServerId, message: ChatControlMessage) -> ChatInboundEffect {
    match message {
        ChatControlMessage::Public(broadcast) => ChatInboundEffect::PublicDelivery(broadcast),
        ChatControlMessage::Private(request) => if request.to.server == local {
            ChatInboundEffect::PrivateDelivery(request)
        } else {
            ChatInboundEffect::Ignored
        },
        ChatControlMessage::Team(broadcast) => ChatInboundEffect::TeamDelivery(broadcast),
        ChatControlMessage::Emote(broadcast) => ChatInboundEffect::EmoteDelivery(broadcast),
        ChatControlMessage::Say(broadcast) => ChatInboundEffect::SayDelivery(broadcast),
    }
}

/// Takes in a decoded message.
pub fn handle_chat_message(local: ServerId, message: ChatControlMessage) -> (effect:
    ChatInboundEffect)
    ensures
        effect == effect_of(local, message),
{
    match message {
        ChatControlMessage::Public(broadcast) => ChatInboundEffect::PublicDelivery(broadcast),
        ChatControlMessage::Private(request) => {
            if should_deliver_private_locally(&request, local) {
                ChatInboundEffect::PrivateDelivery(request)
            } else {
                ChatInboundEffect::Ignored
            }
        },
        ChatControlMessage::Team(broadcast) => ChatInboundEffect::TeamDelivery(broadcast),
        ChatControlMessage::Emote(broadcast) => ChatInboundEffect::EmoteDelivery(broadcast),
        ChatControlMessage::Say(broadcast) => ChatInboundEffect::SayDelivery(broadcast),
    }
}

/// Takes in an encoded message; bytes that `decode` refuses are an error.
pub fn handle_chat_bytes<D: Fn(&[u8]) -> Result<ChatControlMessage, ChatSyncError>>(
    local: ServerId,
    bytes: &[u8],
    decode: &D,
) -> (r: Result<ChatInboundEffect, ChatSyncError>)
    requires
        call_requires(*decode, (bytes,)),
    ensures
        exists|decoded: Result<ChatControlMessage, ChatSyncError>| #[trigger]
            call_ensures(*decode, (bytes,), decoded) && r == (match decoded {
                Ok(message) => Ok::<ChatInboundEffect, ChatSyncError>(effect_of(local, message)),
                Err(error) => Err(error),
            }),
{
    match decode(bytes) {
        Ok(message) => Ok(handle_chat_message(local, message)),
        Err(error) => Err(error),
    }
}

/// Every kind of message is delivered as what it is, with what it says; a private
/// one exactly if its receiver is hosted here.
pub proof fn lemma_chat_messages_are_delivered(local: ServerId, message: ChatControlMessage)
    ensures
        match message {
            ChatControlMessage::Public(b) => effect_of(local, message)
                == ChatInboundEffect::PublicDelivery(b),
            ChatControlMessage::Team(b) => effect_of(local, message)
                == ChatInboundEffect::TeamDelivery(b),
            ChatControlMessage::Emote(b) => effect_of(local, message)
                == ChatInboundEffect::EmoteDelivery(b),
            ChatControlMessage::Say(b) => effect_of(local, message)
                == ChatInboundEffect::SayDelivery(b),
            ChatControlMessage::Private(request) => {
                &&& request.to.server == local ==> effect_of(local, message)
                    == ChatInboundEffect::PrivateDelivery(request)
                &&& request.to.server != local ==> effect_of(local, message) is Ignored
            },
        },
{
}

/// A private message names sender and receiver, each by id and name, whether the
/// receiver is hosted here, and what is said.
pub proof fn lemma_whisper_names_both(
    delivery: PrivateDelivery,
    directory: ChatDirectorySnapshot,
    from: GlobalPlayerId,
    from_name: String,
    target: GlobalPlayerId,
    body: String,
)
    requires
        whisper_of(delivery, directory, from, from_name, target, body),
    ensures
        delivery.target == target,
        delivery.local <==> target.server == directory.local,
        delivery.request.from == from,
        delivery.request.from_name == from_name,
        delivery.request.to == target,
        delivery.request.to_name@ == directory@.names[target],
        delivery.request.body == body,
{
}

/// A text is a name in the directory exactly if some player is listed under it.
pub proof fn lemma_listed_names(m: DirectoryModel, gid: GlobalPlayerId, text: Seq<char>)
    ensures
        m.names.dom().contains(gid) ==> is_named(m, m.names[gid]),
        is_named(m, text) ==> exists|g: GlobalPlayerId|
            m.names.dom().contains(g) && #[trigger] m.names[g] == text,
{
}

/// Every parcel goes to its own peer on the control stream with the same bytes.
pub proof fn lemma_chat_parcels_reach_every_peer(
    r: Seq<ChatParcel>,
    peers: Seq<u16>,
    bytes: Seq<u8>,
    i: int,
)
    requires
        parcels_carry(r, peers, bytes),
        0 <= i < peers.len(),
    ensures
        r.len() == peers.len(),
        r[i].peer == peers[i],
        r[i].kind == StreamKind::Control,
        r[i].bytes@ == bytes,
        carries(r[i], peers, bytes),
{
    assert(peers.contains(peers[i]));
}

/// What was encoded goes out to every peer, and an error of the encoder is passed
/// on.
pub proof fn lemma_chat_encoding_decides(
    encoded: Result<Vec<u8>, ChatSyncError>,
    peers: Seq<u16>,
    r: Result<Vec<ChatParcel>, ChatSyncError>,
)
    requires
        parcelled(encoded, peers, r),
    ensures
        r is Ok <==> encoded is Ok,
        encoded is Err ==> r->Err_0 == encoded->Err_0,
        encoded is Ok ==> parcels_carry(r->Ok_0@, peers, (encoded->Ok_0)@),
{
}

} // verus!
