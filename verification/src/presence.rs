//! Who is online on which peer.

use vstd::prelude::*;
use crate::bytes::copy_of;
use crate::identity::{GlobalPlayerId, ServerId};
use crate::keyed::{Key, KeyMap, lists};
use crate::offers::{lemma_taken_push, offered, taken};
use crate::protocol::{PlayerGameMode, StreamKind};
use crate::sorting::capped;
use crate::text::{byte_count, byte_len, cut_to, lowercase_of, lowercased, truncate_to};

verus! {

/// Longest player name, in bytes.
pub const PRESENCE_MAX_NAME_LEN: usize = 16;

/// Most players that a table lists.
pub const PRESENCE_MAX_ENTRIES: usize = 4096;

/// Most properties of a player.
pub const PRESENCE_MAX_PROPERTIES: usize = 4;

/// Longest name of a property, in bytes.
pub const PRESENCE_MAX_PROPERTY_NAME_LEN: usize = 64;

/// Longest value or signature of a property, in bytes.
pub const PRESENCE_MAX_PROPERTY_VALUE_LEN: usize = 8192;

/// A presence message could not be encoded or decoded.
#[derive(Debug, Clone, PartialEq, Eq)]
pub struct PresenceError {
    pub message: String,
}

/// A profile property, such as the skin.
#[derive(Debug, PartialEq, Eq)]
pub struct PresenceProperty {
    pub name: String,
    pub value: String,
    pub signature: Option<String>,
}

/// What a property says.
#[verifier::ext_equal]
pub ghost struct PropertyModel {
    pub name: Seq<char>,
    pub value: Seq<char>,
    pub signature: Option<Seq<char>>,
}

impl View for PresenceProperty {
    type V = PropertyModel;

    open spec fn view(&self) -> PropertyModel {
        PropertyModel {
            name: self.name@,
            value: self.value@,
            signature: match self.signature {
                None => None,
                Some(signature) => Some(signature@),
            },
        }
    }
}

impl PresenceProperty {
    pub fn new(name: String, value: String, signature: Option<String>) -> (p: Self)
        ensures
            p == (PresenceProperty { name, value, signature }),
    {
        PresenceProperty { name, value, signature }
    }
}

impl Clone for PresenceProperty {
    fn clone(&self) -> (p: Self)
        ensures
            p@ == self@,
    {
        let signature: Option<String> = match &self.signature {
            None => None,
            Some(signature) => Some(signature.clone()),
        };
        PresenceProperty { name: self.name.clone(), value: self.value.clone(), signature }
    }
}

/// The properties as mathematical values.
pub open spec fn property_models(s: Seq<PresenceProperty>) -> Seq<PropertyModel> {
    s.map_values(|p: PresenceProperty| p@)
}

fn copy_properties(s: &Vec<PresenceProperty>) -> (r: Vec<PresenceProperty>)
    ensures
        property_models(r@) == property_models(s@),
{
    let mut r: Vec<PresenceProperty> = Vec::new();
    let mut i: usize = 0;
    while i < s.len()
        invariant
            i <= s@.len(),
            r@.len() == i,
            forall|j: int| 0 <= j < i ==> (#[trigger] r@[j])@ == s@[j]@,
        decreases s@.len() - i,
    {
        r.push(s[i].clone());
        i = i + 1;
    }
    assert(property_models(r@) =~= property_models(s@));
    r
}

/// A player came online, or its entry changed.
#[derive(Debug, PartialEq, Eq)]
pub struct PresenceLogin {
    pub gid: GlobalPlayerId,
    pub uuid: [u8; 16],
    pub name: String,
    pub properties: Vec<PresenceProperty>,
    pub gamemode: PlayerGameMode,
    pub in_lobby: bool,
}

impl PresenceLogin {
    /// A login whose properties are cut to size.
    pub fn new(
        gid: GlobalPlayerId,
        uuid: [u8; 16],
        name: String,
        properties: Vec<PresenceProperty>,
        gamemode: PlayerGameMode,
        in_lobby: bool,
    ) -> (l: Self)
        ensures
            l.gid == gid,
            l.uuid == uuid,
            l.name == name,
            property_models(l.properties@) == sanitized(property_models(properties@)),
            l.gamemode == gamemode,
            l.in_lobby == in_lobby,
    {
        PresenceLogin {
            gid,
            uuid,
            name,
            properties: sanitize_presence_properties(properties),
            gamemode,
            in_lobby,
        }
    }
}

impl Clone for PresenceLogin {
    fn clone(&self) -> (l: Self)
        ensures
            l.gid == self.gid,
            l.uuid == self.uuid,
            l.name == self.name,
            property_models(l.properties@) == property_models(self.properties@),
            l.gamemode == self.gamemode,
            l.in_lobby == self.in_lobby,
    {
        PresenceLogin {
            gid: self.gid,
            uuid: self.uuid,
            name: self.name.clone(),
            properties: copy_properties(&self.properties),
            gamemode: self.gamemode,
            in_lobby: self.in_lobby,
        }
    }
}

/// A player went offline.
#[derive(Debug, Clone, Copy, PartialEq, Eq, Structural)]
pub struct PresenceLogout {
    pub gid: GlobalPlayerId,
}

impl PresenceLogout {
    pub fn new(gid: GlobalPlayerId) -> (l: Self)
        ensures
            l == (PresenceLogout { gid }),
    {
        PresenceLogout { gid }
    }
}

/// What peers tell each other about presence.
#[derive(Debug, PartialEq, Eq)]
pub enum PresenceControl {
    Login(PresenceLogin),
    Logout(PresenceLogout),
}

/// Encoded bytes on their way to a peer.
#[derive(Debug, Clone, PartialEq, Eq)]
pub struct PresenceParcel {
    pub peer: u16,
    pub kind: StreamKind,
    pub bytes: Vec<u8>,
}

impl PresenceParcel {
    pub fn new(peer: u16, kind: StreamKind, bytes: Vec<u8>) -> (p: Self)
        ensures
            p == (PresenceParcel { peer, kind, bytes }),
    {
        PresenceParcel { peer, kind, bytes }
    }
}

/// The stream of presence messages.
pub fn presence_control_kind() -> (k: StreamKind)
    ensures
        k == StreamKind::Control,
{
    StreamKind::Control
}

/// A name is neither empty nor too long.
pub open spec fn name_fits(name: Seq<char>) -> bool {
    name.len() > 0 && byte_len(name) <= PRESENCE_MAX_NAME_LEN
}

/// Whether a name is neither empty nor too long.
pub fn is_valid_presence_name(name: &str) -> (b: bool)
    ensures
        b == name_fits(name@),
{
    !name.is_empty() && byte_count(name) <= PRESENCE_MAX_NAME_LEN
}

/// A property has a name and a value, and nothing of it is too long.
pub open spec fn property_fits(p: PropertyModel) -> bool {
    &&& p.name.len() > 0
    &&& byte_len(p.name) <= PRESENCE_MAX_PROPERTY_NAME_LEN
    &&& p.value.len() > 0
    &&& byte_len(p.value) <= PRESENCE_MAX_PROPERTY_VALUE_LEN
    &&& p.signature matches Some(signature) ==> byte_len(signature)
        <= PRESENCE_MAX_PROPERTY_VALUE_LEN
}

/// Whether a property has a name and a value and nothing of it is too long.
pub fn is_valid_presence_property(property: &PresenceProperty) -> (b: bool)
    ensures
        b == property_fits(property@),
{
    let signature_fits: bool = match &property.signature {
        None => true,
        Some(signature) => byte_count(signature.as_str()) <= PRESENCE_MAX_PROPERTY_VALUE_LEN,
    };
    !property.name.as_str().is_empty() && byte_count(property.name.as_str())
        <= PRESENCE_MAX_PROPERTY_NAME_LEN && !property.value.as_str().is_empty() && byte_count(
        property.value.as_str(),
    ) <= PRESENCE_MAX_PROPERTY_VALUE_LEN && signature_fits
}

/// The property with each of its texts cut to size.
pub open spec fn trimmed(p: PropertyModel) -> PropertyModel {
    PropertyModel {
        name: cut_to(p.name, PRESENCE_MAX_PROPERTY_NAME_LEN as nat),
        value: cut_to(p.value, PRESENCE_MAX_PROPERTY_VALUE_LEN as nat),
        signature: match p.signature {
            None => None,
            Some(signature) => Some(cut_to(signature, PRESENCE_MAX_PROPERTY_VALUE_LEN as nat)),
        },
    }
}

/// A property has a name and a value.
pub open spec fn is_filled(p: PropertyModel) -> bool {
    p.name.len() > 0 && p.value.len() > 0
}

/// The first few filled properties, cut to size.
pub open spec fn sanitized(s: Seq<PropertyModel>) -> Seq<PropertyModel> {
    capped(
        s.filter(|p: PropertyModel| is_filled(p)),
        PRESENCE_MAX_PROPERTIES as int,
    ).map_values(|p: PropertyModel| trimmed(p))
}

/// Keeps the first few properties that have a name and a value, cut to size.
pub fn sanitize_presence_properties(properties: Vec<PresenceProperty>) -> (r: Vec<PresenceProperty>)
    ensures
        property_models(r@) == sanitized(property_models(properties@)),
{
    let ghost all = property_models(properties@);
    let ghost keep = |p: PropertyModel| is_filled(p);
    let ghost cut = |p: PropertyModel| trimmed(p);
    let mut r: Vec<PresenceProperty> = Vec::new();
    let mut i: usize = 0;
    proof {
        reveal(Seq::filter);
        assert(property_models(r@) =~= all.take(0).filter(keep).map_values(cut));
    }
    while i < properties.len() && r.len() < PRESENCE_MAX_PROPERTIES
        invariant
            i <= properties@.len(),
            all == property_models(properties@),
            keep == (|p: PropertyModel| is_filled(p)),
            cut == (|p: PropertyModel| trimmed(p)),
            r@.len() <= PRESENCE_MAX_PROPERTIES,
            property_models(r@) == all.take(i as int).filter(keep).map_values(cut),
        decreases properties@.len() - i,
    {
        let p = &properties[i];
        let ghost was = r@;
        proof {
            reveal(Seq::filter);
            assert(all.take(i + 1).drop_last() =~= all.take(i as int));
            assert(all.take(i + 1).last() == p@);
        }
        if !p.name.as_str().is_empty() && !p.value.as_str().is_empty() {
            let signature: Option<String> = match &p.signature {
                None => None,
                Some(signature) => Some(
                    truncate_to(signature.as_str(), PRESENCE_MAX_PROPERTY_VALUE_LEN),
                ),
            };
            let next = PresenceProperty::new(
                truncate_to(p.name.as_str(), PRESENCE_MAX_PROPERTY_NAME_LEN),
                truncate_to(p.value.as_str(), PRESENCE_MAX_PROPERTY_VALUE_LEN),
                signature,
            );
            r.push(next);
            proof {
                assert(next@ == trimmed(p@));
                assert(property_models(r@) =~= property_models(was).push(next@));
                let f = all.take(i as int).filter(keep);
                assert(f.push(p@).map_values(cut) =~= f.map_values(cut).push(trimmed(p@)));
            }
        }
        i = i + 1;
    }
    proof {
        let head = all.take(i as int).filter(keep);
        let tail = all.skip(i as int).filter(keep);
        assert(all =~= all.take(i as int) + all.skip(i as int));
        Seq::filter_distributes_over_add(all.take(i as int), all.skip(i as int), keep);
        assert(head.map_values(cut).len() == r@.len());
        if i >= properties@.len() {
            assert(all.take(i as int) =~= all);
            assert(capped(all.filter(keep), PRESENCE_MAX_PROPERTIES as int) =~= head);
        } else {
            assert(capped(head + tail, PRESENCE_MAX_PROPERTIES as int) =~= head);
        }
    }
    r
}

/// Properties that fit are kept as they are, up to the first few.
pub proof fn lemma_fitting_properties_stay(s: Seq<PropertyModel>)
    requires
        forall|i: int| 0 <= i < s.len() ==> property_fits(#[trigger] s[i]),
    ensures
        sanitized(s) == capped(s, PRESENCE_MAX_PROPERTIES as int),
{
    let keep = |p: PropertyModel| is_filled(p);
    crate::sorting::lemma_filter_all(s, keep);
    assert(sanitized(s) =~= capped(s, PRESENCE_MAX_PROPERTIES as int));
}

/// Whatever came in, the properties that are left fit.
pub proof fn lemma_sanitized_properties_fit(s: Seq<PropertyModel>)
    ensures
        sanitized(s).len() <= PRESENCE_MAX_PROPERTIES,
        forall|i: int| 0 <= i < sanitized(s).len() ==> property_fits(#[trigger] sanitized(s)[i]),
{
    let keep = |p: PropertyModel| is_filled(p);
    let kept = s.filter(keep);
    assert forall|i: int| 0 <= i < sanitized(s).len() implies property_fits(
        #[trigger] sanitized(s)[i],
    ) by {
        broadcast use vstd::seq_lib::group_filter_ensures;
        let p = kept[i];
        assert(keep(p));
        assert(sanitized(s)[i] == trimmed(p));
        crate::text::lemma_cut_fits(p.name, PRESENCE_MAX_PROPERTY_NAME_LEN as nat);
        crate::text::lemma_cut_fits(p.value, PRESENCE_MAX_PROPERTY_VALUE_LEN as nat);
        match p.signature {
            None => {},
            Some(signature) => {
                crate::text::lemma_cut_fits(signature, PRESENCE_MAX_PROPERTY_VALUE_LEN as nat);
            },
        }
    }
}

/// Cutting to size once is enough.
pub proof fn lemma_sanitize_idempotent(s: Seq<PropertyModel>)
    ensures
        sanitized(sanitized(s)) == sanitized(s),
{
    lemma_sanitized_properties_fit(s);
    lemma_fitting_properties_stay(sanitized(s));
    assert(capped(sanitized(s), PRESENCE_MAX_PROPERTIES as int) =~= sanitized(s));
}

/// A parcel with the encoded message for one of the peers.
pub open spec fn carries(parcel: PresenceParcel, peers: Seq<u16>, bytes: Seq<u8>) -> bool {
    peers.contains(parcel.peer) && parcel.kind == StreamKind::Control && parcel.bytes@ == bytes
}

/// The parcels carry `bytes` on the control stream, one to each peer, in their order.
pub open spec fn parcels_carry(r: Seq<PresenceParcel>, peers: Seq<u16>, bytes: Seq<u8>) -> bool {
    &&& r.len() == peers.len()
    &&& forall|i: int|
        0 <= i < peers.len() ==> (#[trigger] r[i]).peer == peers[i] && r[i].kind
            == StreamKind::Control && r[i].bytes@ == bytes
}

/// The parcels are the encoded message, one to each peer; an error of the
/// encoder is passed on.
pub open spec fn parcelled(
    encoded: Result<Vec<u8>, PresenceError>,
    peers: Seq<u16>,
    r: Result<Vec<PresenceParcel>, PresenceError>,
) -> bool {
    match encoded {
        Ok(bytes) => r matches Ok(parcels) && parcels_carry(parcels@, peers, bytes@),
        Err(error) => r == Err::<Vec<PresenceParcel>, PresenceError>(error),
    }
}

/// The message announces this login.
pub open spec fn announces(message: PresenceControl, login: PresenceLogin) -> bool {
    message matches PresenceControl::Login(said) && said.gid == login.gid && said.uuid == login.uuid
        && said.name == login.name && property_models(said.properties@) == property_models(
        login.properties@,
    ) && said.gamemode == login.gamemode && said.in_lobby == login.in_lobby
}

/// Encodes a login once and addresses it to each peer.
pub fn login_parcels_for_peers<E: Fn(&PresenceControl) -> Result<Vec<u8>, PresenceError>>(
    login: &PresenceLogin,
    peers: &[u16],
    encode: &E,
) -> (r: Result<Vec<PresenceParcel>, PresenceError>)
    requires
        forall|message: &PresenceControl|
            announces(*message, *login) ==> #[trigger] call_requires(*encode, (message,)),
    ensures
        exists|message: &PresenceControl, encoded: Result<Vec<u8>, PresenceError>| #[trigger]
            call_ensures(*encode, (message,), encoded) && announces(*message, *login) && parcelled(
                encoded,
                peers@,
                r,
            ),
{
    let message = PresenceControl::Login(login.clone());
    match encode(&message) {
        Ok(bytes) => Ok(parcels_for_peers(bytes.as_slice(), peers)),
        Err(error) => Err(error),
    }
}

/// Encodes a logout once and addresses it to each peer.
pub fn logout_parcels_for_peers<E: Fn(&PresenceControl) -> Result<Vec<u8>, PresenceError>>(
    logout: &PresenceLogout,
    peers: &[u16],
    encode: &E,
) -> (r: Result<Vec<PresenceParcel>, PresenceError>)
    requires
        call_requires(*encode, (&PresenceControl::Logout(*logout),)),
    ensures
        exists|encoded: Result<Vec<u8>, PresenceError>| #[trigger]
            call_ensures(*encode, (&PresenceControl::Logout(*logout),), encoded) && parcelled(
                encoded,
                peers@,
                r,
            ),
{
    let message = PresenceControl::Logout(*logout);
    match encode(&message) {
        Ok(bytes) => Ok(parcels_for_peers(bytes.as_slice(), peers)),
        Err(error) => Err(error),
    }
}

/// One parcel with the same encoded message for each peer, in their order.
pub fn parcels_for_peers(bytes: &[u8], peers: &[u16]) -> (r: Vec<PresenceParcel>)
    ensures
        parcels_carry(r@, peers@, bytes@),
{
    let mut r: Vec<PresenceParcel> = Vec::new();
    let mut i: usize = 0;
    while i < peers.len()
        invariant
            i <= peers@.len(),
            r@.len() == i,
            forall|j: int|
                0 <= j < i ==> (#[trigger] r@[j]).peer == peers@[j] && r@[j].kind
                    == StreamKind::Control && r@[j].bytes@ == bytes@,
        decreases peers@.len() - i,
    {
        r.push(PresenceParcel::new(peers[i], presence_control_kind(), copy_of(bytes)));
        i = i + 1;
    }
    r
}

/// Encodes a message once and offers it to the queue for each peer, in their
/// order. The result says how many the queue had room for; the others are lost.
pub fn try_broadcast_control_message<
    T: Fn(PresenceParcel) -> bool,
    E: Fn(&PresenceControl) -> Result<Vec<u8>, PresenceError>,
>(offer: &T, message: &PresenceControl, peers: &[u16], encode: &E) -> (r: Result<usize, PresenceError>)
    requires
        call_requires(*encode, (message,)),
        forall|bytes: Vec<u8>, parcel: PresenceParcel|
            #[trigger] call_ensures(*encode, (message,), Ok::<Vec<u8>, PresenceError>(bytes))
                && carries(parcel, peers@, bytes@) ==> #[trigger] call_requires(*offer, (parcel,)),
    ensures
        exists|encoded: Result<Vec<u8>, PresenceError>| #[trigger]
            call_ensures(*encode, (message,), encoded) && match encoded {
                Ok(bytes) => r matches Ok(sent) && exists|
                    parcels: Seq<PresenceParcel>,
                    answers: Seq<bool>,
                | #[trigger]
                    offered(*offer, parcels, answers) && parcels_carry(parcels, peers@, bytes@)
                        && sent == taken(answers),
                Err(error) => r == Err::<usize, PresenceError>(error),
            },
{
    let bytes = match encode(message) {
        Ok(bytes) => bytes,
        Err(error) => {
            return Err(error);
        },
    };
    let mut sent: usize = 0;
    let mut i: usize = 0;
    let ghost mut parcels: Seq<PresenceParcel> = Seq::empty();
    let ghost mut answers: Seq<bool> = Seq::empty();
    while i < peers.len()
        invariant
            i <= peers@.len(),
            parcels.len() == i,
            offered(*offer, parcels, answers),
            forall|j: int|
                0 <= j < i ==> (#[trigger] parcels[j]).peer == peers@[j] && parcels[j].kind
                    == StreamKind::Control && parcels[j].bytes@ == bytes@,
            sent == taken(answers),
            sent <= i,
            forall|parcel: PresenceParcel|
                carries(parcel, peers@, bytes@) ==> #[trigger] call_requires(*offer, (parcel,)),
        decreases peers@.len() - i,
    {
        let parcel = PresenceParcel::new(peers[i], presence_control_kind(), copy_of(bytes.as_slice()));
        let ghost said = parcel;
        let answer: bool = offer(parcel);
        proof {
            lemma_taken_push(answers, answer);
            parcels = parcels.push(said);
            answers = answers.push(answer);
        }
        if answer {
            sent = sent + 1;
        }
        i = i + 1;
    }
    Ok(sent)
}

/// A player that is online somewhere.
#[derive(Debug, PartialEq, Eq)]
pub struct RemotePlayerEntry {
    pub gid: GlobalPlayerId,
    pub uuid: [u8; 16],
    pub name: String,
    pub properties: Vec<PresenceProperty>,
    pub gamemode: PlayerGameMode,
    pub joined_at_millis: u64,
    pub in_lobby: bool,
}

/// What an entry says.
#[verifier::ext_equal]
pub ghost struct EntryModel {
    pub gid: GlobalPlayerId,
    pub uuid: [u8; 16],
    pub name: Seq<char>,
    pub properties: Seq<PropertyModel>,
    pub gamemode: PlayerGameMode,
    pub joined_at_millis: u64,
    pub in_lobby: bool,
}

impl View for RemotePlayerEntry {
    type V = EntryModel;

    open spec fn view(&self) -> EntryModel {
        EntryModel {
            gid: self.gid,
            uuid: self.uuid,
            name: self.name@,
            properties: property_models(self.properties@),
            gamemode: self.gamemode,
            joined_at_millis: self.joined_at_millis,
            in_lobby: self.in_lobby,
        }
    }
}

impl RemotePlayerEntry {
    /// An entry whose properties are cut to size.
    pub fn new(
        gid: GlobalPlayerId,
        uuid: [u8; 16],
        name: String,
        properties: Vec<PresenceProperty>,
        gamemode: PlayerGameMode,
        joined_at_millis: u64,
        in_lobby: bool,
    ) -> (e: Self)
        ensures
            e@ == (EntryModel {
                gid,
                uuid,
                name: name@,
                properties: sanitized(property_models(properties@)),
                gamemode,
                joined_at_millis,
                in_lobby,
            }),
    {
        RemotePlayerEntry {
            gid,
            uuid,
            name,
            properties: sanitize_presence_properties(properties),
            gamemode,
            joined_at_millis,
            in_lobby,
        }
    }

    pub fn host(&self) -> (s: ServerId)
        ensures
            s == self.gid.server,
    {
        self.gid.server
    }

    /// The profile by which other peers show the player; none while it waits in the lobby.
    pub fn replica_profile(&self) -> (r: Option<RemotePlayerProfile>)
        ensures
            r is Some <==> !self.in_lobby,
            r matches Some(p) ==> {
                &&& p.gid == self.gid
                &&& p.uuid == self.uuid
                &&& p.name == self.name
                &&& property_models(p.properties@) == property_models(self.properties@)
                &&& p.gamemode == self.gamemode
            },
    {
        if self.in_lobby {
            None
        } else {
            Some(
                RemotePlayerProfile {
                    gid: self.gid,
                    uuid: self.uuid,
                    name: self.name.clone(),
                    properties: copy_properties(&self.properties),
                    gamemode: self.gamemode,
                },
            )
        }
    }
}

/// What other peers show of a player.
#[derive(Debug, PartialEq, Eq)]
pub struct RemotePlayerProfile {
    pub gid: GlobalPlayerId,
    pub uuid: [u8; 16],
    pub name: String,
    pub properties: Vec<PresenceProperty>,
    pub gamemode: PlayerGameMode,
}

/// A login is accepted: its name and all its properties fit.
pub open spec fn login_fits(login: PresenceLogin) -> bool {
    &&& name_fits(login.name@)
    &&& forall|i: int|
        0 <= i < login.properties@.len() ==> property_fits((#[trigger] login.properties@[i])@)
}

/// The entry that a login makes.
pub open spec fn entry_of(login: PresenceLogin, joined_at_millis: u64) -> EntryModel {
    EntryModel {
        gid: login.gid,
        uuid: login.uuid,
        name: login.name@,
        properties: capped(
            property_models(login.properties@),
            PRESENCE_MAX_PROPERTIES as int,
        ),
        gamemode: login.gamemode,
        joined_at_millis,
        in_lobby: login.in_lobby,
    }
}

/// `gid` is the lowest player of the table.
pub open spec fn is_lowest_player(m: Map<GlobalPlayerId, EntryModel>, gid: GlobalPlayerId) -> bool {
    m.dom().contains(gid) && forall|k: GlobalPlayerId| #[trigger]
        m.dom().contains(k) ==> gid.rank() <= k.rank()
}

/// The table after an accepted login. A known player keeps its joining time; a
/// full table gives up its lowest player for a new one.
pub open spec fn logged_in(
    m: Map<GlobalPlayerId, EntryModel>,
    login: PresenceLogin,
    now_millis: u64,
    after: Map<GlobalPlayerId, EntryModel>,
) -> bool {
    if m.dom().contains(login.gid) {
        after == m.insert(
            login.gid,
            EntryModel { gid: m[login.gid].gid, ..entry_of(login, m[login.gid].joined_at_millis) },
        )
    } else if m.len() < PRESENCE_MAX_ENTRIES {
        after == m.insert(login.gid, entry_of(login, now_millis))
    } else {
        exists|out: GlobalPlayerId| #[trigger]
            is_lowest_player(m, out) && after == m.remove(out).insert(
                login.gid,
                entry_of(login, now_millis),
            )
    }
}

/// The entries as mathematical values.
pub open spec fn entry_models(m: Map<GlobalPlayerId, RemotePlayerEntry>) -> Map<
    GlobalPlayerId,
    EntryModel,
> {
    m.map_values(|e: RemotePlayerEntry| e@)
}

/// The players that are online, with a bound on their number.
#[derive(Debug)]
pub struct PresenceTable {
    entries: KeyMap<GlobalPlayerId, RemotePlayerEntry>,
}

impl View for PresenceTable {
    type V = Map<GlobalPlayerId, EntryModel>;

    closed spec fn view(&self) -> Map<GlobalPlayerId, EntryModel> {
        entry_models(self.entries@)
    }
}

impl PresenceTable {
    #[verifier::type_invariant]
    spec fn is_bounded(self) -> bool {
        &&& self.entries@.dom().finite()
        &&& self.entries@.len() <= PRESENCE_MAX_ENTRIES
    }

    pub fn new() -> (t: Self)
        ensures
            t@ == Map::<GlobalPlayerId, EntryModel>::empty(),
    {
        let t = PresenceTable { entries: KeyMap::new() };
        assert(t@ =~= Map::<GlobalPlayerId, EntryModel>::empty());
        t
    }

    /// Takes in a login; reports whether it was accepted.
    pub fn apply_login(&mut self, login: &PresenceLogin, now_millis: u64) -> (b: bool)
        ensures
            b == login_fits(*login),
            b ==> logged_in(old(self)@, *login, now_millis, final(self)@),
            !b ==> final(self)@ == old(self)@,
    {
        if !is_valid_presence_name(login.name.as_str()) {
            return false;
        }
        let mut i: usize = 0;
        while i < login.properties.len()
            invariant
                i <= login.properties@.len(),
                forall|j: int|
                    0 <= j < i ==> property_fits((#[trigger] login.properties@[j])@),
            decreases login.properties@.len() - i,
        {
            if !is_valid_presence_property(&login.properties[i]) {
                return false;
            }
            i = i + 1;
        }
        let properties = sanitize_presence_properties(copy_properties(&login.properties));
        proof {
            let given = property_models(login.properties@);
            assert forall|j: int| 0 <= j < given.len() implies property_fits(
                #[trigger] given[j],
            ) by {
                assert(property_fits(login.properties@[j]@));
            }
            lemma_fitting_properties_stay(given);
            lemma_sanitize_idempotent(given);
            use_type_invariant(&*self);
        }
        let ghost before = self@;
        let ghost held = self.entries@;
        let mut entries: KeyMap<GlobalPlayerId, RemotePlayerEntry> = KeyMap::new();
        std::mem::swap(&mut entries, &mut self.entries);
        match entries.remove(&login.gid) {
            Some(known) => {
                let entry = RemotePlayerEntry {
                    gid: known.gid,
                    uuid: login.uuid,
                    name: login.name.clone(),
                    properties,
                    gamemode: login.gamemode,
                    joined_at_millis: known.joined_at_millis,
                    in_lobby: login.in_lobby,
                };
                let _ = entries.insert(login.gid, entry);
                proof {
                    assert(entries@.dom() =~= held.dom());
                    let next = EntryModel {
                        gid: before[login.gid].gid,
                        ..entry_of(*login, before[login.gid].joined_at_millis)
                    };
                    assert(entry@ == next);
                    assert(entry_models(entries@) =~= before.insert(login.gid, next));
                }
            },
            None => {
                let ghost mut room = before;
                proof {
                    assert(entries@ =~= held);
                    assert(before.dom() =~= held.dom());
                }
                if entries.len() >= PRESENCE_MAX_ENTRIES {
                    let out = entries.key_at(0);
                    let _ = entries.remove(&out);
                    proof {
                        assert forall|k: GlobalPlayerId| #[trigger]
                            before.dom().contains(k) implies out.rank() <= k.rank() by {
                            assert(held.dom().contains(k));
                        }
                        assert(is_lowest_player(before, out));
                        room = before.remove(out);
                        assert(entries@.dom() =~= held.dom().remove(out));
                    }
                }
                proof {
                    assert(entry_models(entries@) =~= room);
                }
                let ghost rest = entries@;
                let entry = RemotePlayerEntry::new(
                    login.gid,
                    login.uuid,
                    login.name.clone(),
                    properties,
                    login.gamemode,
                    now_millis,
                    login.in_lobby,
                );
                let _ = entries.insert(login.gid, entry);
                proof {
                    assert(entry@ == entry_of(*login, now_millis));
                    assert(entry_models(entries@) =~= room.insert(login.gid, entry@));
                    assert(entries@.dom() =~= rest.dom().insert(login.gid));
                }
            },
        }
        self.entries = entries;
        true
    }

    /// Takes a player out and hands back its entry.
    pub fn apply_logout(&mut self, logout: &PresenceLogout) -> (r: Option<RemotePlayerEntry>)
        ensures
            final(self)@ == old(self)@.remove(logout.gid),
            r is Some <==> old(self)@.dom().contains(logout.gid),
            r matches Some(e) ==> e@ == old(self)@[logout.gid],
    {
        proof {
            use_type_invariant(&*self);
        }
        let ghost before = self.entries@;
        let mut entries: KeyMap<GlobalPlayerId, RemotePlayerEntry> = KeyMap::new();
        std::mem::swap(&mut entries, &mut self.entries);
        let r = entries.remove(&logout.gid);
        proof {
            assert(entries@.dom() =~= before.dom().remove(logout.gid));
            assert(entry_models(entries@) =~= entry_models(before).remove(logout.gid));
        }
        self.entries = entries;
        r
    }

    pub fn get(&self, gid: &GlobalPlayerId) -> (r: Option<&RemotePlayerEntry>)
        ensures
            r is Some <==> self@.dom().contains(*gid),
            r matches Some(e) ==> e@ == self@[*gid],
    {
        self.entries.get(gid)
    }

    /// Number of players.
    pub fn len(&self) -> (n: usize)
        ensures
            n == self@.len(),
            n <= PRESENCE_MAX_ENTRIES,
    {
        proof {
            use_type_invariant(self);
            assert(self@.dom() =~= self.entries@.dom());
        }
        self.entries.len()
    }

    pub fn is_empty(&self) -> (b: bool)
        ensures
            b == (self@ == Map::<GlobalPlayerId, EntryModel>::empty()),
    {
        let b: bool = self.entries.is_empty();
        proof {
            if b {
                assert(self@ =~= Map::<GlobalPlayerId, EntryModel>::empty());
            } else if self@ == Map::<GlobalPlayerId, EntryModel>::empty() {
                assert(self.entries@.dom() =~= self@.dom());
                assert(self.entries@ =~= Map::<GlobalPlayerId, RemotePlayerEntry>::empty());
            }
        }
        b
    }

    /// The players in ascending order.
    pub fn players(&self) -> (r: Vec<GlobalPlayerId>)
        ensures
            lists(r@, self@.dom()),
            r@.len() == self@.len(),
    {
        assert(self@.dom() =~= self.entries@.dom());
        self.entries.key_list()
    }

    /// The players that are online with their entries, in the order of the players.
    pub fn entries_iter(&self) -> (r: Vec<(GlobalPlayerId, &RemotePlayerEntry)>)
        ensures
            lists(r@.map_values(|e: (GlobalPlayerId, &RemotePlayerEntry)| e.0), self@.dom()),
            forall|i: int| 0 <= i < r@.len() ==> (#[trigger] r@[i]).1@ == self@[r@[i].0],
            r@.len() == self@.len(),
    {
        let keys = self.entries.key_list();
        let mut r: Vec<(GlobalPlayerId, &RemotePlayerEntry)> = Vec::new();
        let mut i: usize = 0;
        proof {
            assert(self@.dom() =~= self.entries@.dom());
        }
        while i < keys.len()
            invariant
                i <= keys@.len(),
                keys@ == self.entries.keys(),
                r@.len() == i,
                forall|j: int| 0 <= j < i ==> (#[trigger] r@[j]).0 == keys@[j] && r@[j].1@
                    == self@[keys@[j]],
            decreases keys@.len() - i,
        {
            r.push((keys[i], self.entries.value_at(i)));
            i = i + 1;
        }
        proof {
            assert(r@.map_values(|e: (GlobalPlayerId, &RemotePlayerEntry)| e.0) =~= keys@);
        }
        r
    }

    /// The lowest player with a name, in any case.
    pub fn locate_by_name(&self, name: &str) -> (r: Option<GlobalPlayerId>)
        ensures
            r is None <==> forall|k: GlobalPlayerId| #[trigger]
                self@.dom().contains(k) ==> lowercase_of(self@[k].name) != lowercase_of(name@),
            r matches Some(gid) ==> {
                &&& self@.dom().contains(gid)
                &&& lowercase_of(self@[gid].name) == lowercase_of(name@)
                &&& forall|k: GlobalPlayerId| #[trigger]
                    self@.dom().contains(k) && lowercase_of(self@[k].name) == lowercase_of(name@)
                        ==> gid.rank() <= k.rank()
            },
    {
        let folded = lowercased(name);
        let n: usize = self.entries.len();
        let ghost keys = self.entries.keys();
        let mut i: usize = 0;
        proof {
            assert(self@.dom() =~= self.entries@.dom());
        }
        while i < n
            invariant
                i <= n,
                n == keys.len(),
                keys == self.entries.keys(),
                folded@ == lowercase_of(name@),
                self@.dom() == self.entries@.dom(),
                lists(keys, self@.dom()),
                forall|j: int|
                    0 <= j < i ==> lowercase_of(self@[#[trigger] keys[j]].name) != folded@,
            decreases n - i,
        {
            let entry = self.entries.value_at(i);
            let key = lowercased(entry.name.as_str());
            if key == folded {
                let gid = self.entries.key_at(i);
                proof {
                    assert forall|k: GlobalPlayerId| #[trigger]
                        self@.dom().contains(k) && lowercase_of(self@[k].name)
                            == lowercase_of(name@) implies gid.rank() <= k.rank() by {
                        assert(keys.contains(k));
                        let j = choose|j: int| 0 <= j < keys.len() && keys[j] == k;
                        if j > i {
                            assert(keys[i as int].rank() < keys[j].rank());
                        }
                    }
                }
                return Some(gid);
            }
            i = i + 1;
        }
        proof {
            assert forall|k: GlobalPlayerId| #[trigger] self@.dom().contains(k) implies lowercase_of(
                self@[k].name,
            ) != lowercase_of(name@) by {
                assert(keys.contains(k));
            }
        }
        None
    }
}

impl Default for PresenceTable {
    fn default() -> (t: Self)
        ensures
            t@ == Map::<GlobalPlayerId, EntryModel>::empty(),
    {
        PresenceTable::new()
    }
}

/// A player that logged in is listed with the data of its last login, and a
/// repeated login keeps the time at which it joined.
pub proof fn lemma_login_is_listed(
    m: Map<GlobalPlayerId, EntryModel>,
    login: PresenceLogin,
    now_millis: u64,
    after: Map<GlobalPlayerId, EntryModel>,
)
    requires
        logged_in(m, login, now_millis, after),
    ensures
        after.dom().contains(login.gid),
        after[login.gid].name == login.name@,
        after[login.gid].uuid == login.uuid,
        after[login.gid].in_lobby == login.in_lobby,
        after[login.gid].joined_at_millis == (if m.dom().contains(login.gid) {
            m[login.gid].joined_at_millis
        } else {
            now_millis
        }),
{
}

/// Logging out undoes the login of a player that was not there before, unless
/// the table was full and gave up another player for it.
pub proof fn lemma_logout_undoes_login(
    m: Map<GlobalPlayerId, EntryModel>,
    login: PresenceLogin,
    now_millis: u64,
    after: Map<GlobalPlayerId, EntryModel>,
)
    requires
        logged_in(m, login, now_millis, after),
        !m.dom().contains(login.gid),
        m.len() < PRESENCE_MAX_ENTRIES,
    ensures
        after.remove(login.gid) == m,
{
    assert(after.remove(login.gid) =~= m);
}

/// What came of a message.
#[derive(Debug, PartialEq, Eq)]
pub enum PresenceInboundEffect {
    LoginApplied(PresenceLogin),
    LogoutApplied {
        logout: PresenceLogout,
        removed: Option<RemotePlayerEntry>,
    },
    Ignored,
}

/// A message does this: a login that fits is applied, another is ignored; a
/// logout takes the player out.
pub open spec fn message_handled(
    before: Map<GlobalPlayerId, EntryModel>,
    message: PresenceControl,
    now_millis: u64,
    after: Map<GlobalPlayerId, EntryModel>,
    effect: PresenceInboundEffect,
) -> bool {
    match message {
        PresenceControl::Login(login) => if login_fits(login) {
            effect == PresenceInboundEffect::LoginApplied(login) && logged_in(
                before,
                login,
                now_millis,
                after,
            )
        } else {
            effect == PresenceInboundEffect::Ignored && after == before
        },
        PresenceControl::Logout(logout) => {
            &&& after == before.remove(logout.gid)
            &&& effect matches PresenceInboundEffect::LogoutApplied { logout: said, removed }
                && said == logout && (removed is Some <==> before.dom().contains(logout.gid)) && (
            removed matches Some(e) ==> e@ == before[logout.gid])
        },
    }
}

/// Takes in a decoded message.
pub fn handle_presence_message(
    table: &mut PresenceTable,
    message: PresenceControl,
    now_millis: u64,
) -> (effect: PresenceInboundEffect)
    ensures
        message_handled(old(table)@, message, now_millis, final(table)@, effect),
{
    match message {
        PresenceControl::Login(login) => {
            if table.apply_login(&login, now_millis) {
                PresenceInboundEffect::LoginApplied(login)
            } else {
                PresenceInboundEffect::Ignored
            }
        },
        PresenceControl::Logout(logout) => {
            let removed = table.apply_logout(&logout);
            PresenceInboundEffect::LogoutApplied { logout, removed }
        },
    }
}

/// Takes in an encoded message; bytes that `decode` refuses change nothing.
pub fn handle_presence_bytes<D: Fn(&[u8]) -> Result<PresenceControl, PresenceError>>(
    table: &mut PresenceTable,
    bytes: &[u8],
    now_millis: u64,
    decode: &D,
) -> (r: Result<PresenceInboundEffect, PresenceError>)
    requires
        call_requires(*decode, (bytes,)),
    ensures
        exists|decoded: Result<PresenceControl, PresenceError>| #[trigger]
            call_ensures(*decode, (bytes,), decoded) && match decoded {
                Ok(message) => r matches Ok(effect) && message_handled(
                    old(table)@,
                    message,
                    now_millis,
                    final(table)@,
                    effect,
                ),
                Err(error) => r == Err::<PresenceInboundEffect, PresenceError>(error)
                    && final(table)@ == old(table)@,
            },
{
    match decode(bytes) {
        Ok(message) => Ok(handle_presence_message(table, message, now_millis)),
        Err(error) => Err(error),
    }
}

/// A name fits with one to sixteen bytes, a property with a name of one to
/// sixty-four bytes, a value of one to 8192 and a signature of at most as many.
pub proof fn lemma_presence_limits(name: Seq<char>, p: PropertyModel)
    ensures
        name_fits(name) <==> name.len() > 0 && byte_len(name) <= 16,
        property_fits(p) <==> {
            &&& p.name.len() > 0 && byte_len(p.name) <= 64
            &&& p.value.len() > 0 && byte_len(p.value) <= 8192
            &&& p.signature matches Some(text) ==> byte_len(text) <= 8192
        },
{
}

/// A login fits exactly if its name and each of its properties do.
pub proof fn lemma_fitting_logins(login: PresenceLogin)
    ensures
        login_fits(login) <==> name_fits(login.name@) && forall|i: int|
            0 <= i < login.properties@.len() ==> property_fits((#[trigger] login.properties@[i])@),
{
}

/// A trimmed property has the starts of the texts of the property, each as long as
/// fits.
pub proof fn lemma_trimming_cuts_each_text(p: PropertyModel)
    ensures
        trimmed(p).name == cut_to(p.name, 64),
        trimmed(p).value == cut_to(p.value, 8192),
        p.signature is None ==> trimmed(p).signature is None,
        p.signature matches Some(text) ==> trimmed(p).signature == Some(cut_to(text, 8192)),
{
}

/// One more property is kept exactly if it has a name and a value and fewer than
/// four were kept before.
pub proof fn lemma_first_filled_properties_are_kept(s: Seq<PropertyModel>, p: PropertyModel)
    ensures
        sanitized(Seq::<PropertyModel>::empty()).len() == 0,
        sanitized(s).len() <= 4,
        sanitized(s.push(p)) == (if p.name.len() > 0 && p.value.len() > 0 && sanitized(s).len() < 4 {
            sanitized(s).push(trimmed(p))
        } else {
            sanitized(s)
        }),
{
    reveal(Seq::filter);
    assert(s.push(p).drop_last() =~= s);
    let keep = |p: PropertyModel| is_filled(p);
    let kept = s.filter(keep);
    if is_filled(p) {
        assert(s.push(p).filter(keep) == kept.push(p));
        if kept.len() < 4 {
            assert(sanitized(s.push(p)) =~= sanitized(s).push(trimmed(p)));
        } else {
            assert(kept.push(p).take(4) =~= kept.take(4));
            assert(kept.take(4) =~= capped(kept, 4));
            assert(sanitized(s.push(p)) =~= sanitized(s));
        }
    }
}

/// A player that logged in is listed with every field of its login and the first
/// four properties. Everyone else is listed as before, unless the player is new
/// and the table full: then exactly the lowest player is given up for it.
pub proof fn lemma_login_touches_one_entry(
    m: Map<GlobalPlayerId, EntryModel>,
    login: PresenceLogin,
    now_millis: u64,
    after: Map<GlobalPlayerId, EntryModel>,
    other: GlobalPlayerId,
)
    requires
        logged_in(m, login, now_millis, after),
        m.dom().contains(login.gid) ==> m[login.gid].gid == login.gid,
    ensures
        after.dom().contains(login.gid),
        after[login.gid].gid == login.gid,
        after[login.gid].uuid == login.uuid,
        after[login.gid].name == login.name@,
        after[login.gid].gamemode == login.gamemode,
        after[login.gid].in_lobby == login.in_lobby,
        after[login.gid].joined_at_millis == (if m.dom().contains(login.gid) {
            m[login.gid].joined_at_millis
        } else {
            now_millis
        }),
        login.properties@.len() <= 4 ==> after[login.gid].properties == property_models(
            login.properties@,
        ),
        login.properties@.len() > 4 ==> after[login.gid].properties == property_models(
            login.properties@,
        ).take(4),
        other != login.gid && after.dom().contains(other) ==> m.dom().contains(other)
            && after[other] == m[other],
        other != login.gid && m.dom().contains(other) && !after.dom().contains(other)
            ==> !m.dom().contains(login.gid) && m.len() >= 4096 && forall|k: GlobalPlayerId|
            #[trigger] m.dom().contains(k) ==> other.rank() <= k.rank(),
{
}

/// A login that fits is applied and any other ignored; a logout takes exactly its
/// player out and hands back what was known of it.
pub proof fn lemma_presence_messages_take_effect(
    before: Map<GlobalPlayerId, EntryModel>,
    message: PresenceControl,
    now_millis: u64,
    after: Map<GlobalPlayerId, EntryModel>,
    effect: PresenceInboundEffect,
    other: GlobalPlayerId,
)
    requires
        message_handled(before, message, now_millis, after, effect),
    ensures
        match message {
            PresenceControl::Login(login) => {
                &&& login_fits(login) ==> effect == PresenceInboundEffect::LoginApplied(login)
                    && after.dom().contains(login.gid) && after[login.gid].name == login.name@
                &&& !login_fits(login) ==> effect is Ignored && after == before
            },
            PresenceControl::Logout(logout) => {
                &&& effect is LogoutApplied
                &&& effect->logout == logout
                &&& effect->removed is Some <==> before.dom().contains(logout.gid)
                &&& effect->removed matches Some(e) ==> e@ == before[logout.gid]
                &&& !after.dom().contains(logout.gid)
                &&& other != logout.gid ==> (after.dom().contains(other)
                    <==> before.dom().contains(other))
                &&& other != logout.gid && before.dom().contains(other) ==> after[other]
                    == before[other]
            },
        },
{
    match message {
        PresenceControl::Login(login) => {
            if login_fits(login) {
                lemma_login_is_listed(before, login, now_millis, after);
            }
        },
        _ => {},
    }
}

/// Every parcel goes to its own peer on the control stream with the same bytes.
pub proof fn lemma_presence_parcels_reach_every_peer(
    r: Seq<PresenceParcel>,
    peers: Seq<u16>,
    bytes: Seq<u8>,
    i: int,
)
    requires
        parcels_carry(r, peers, bytes),
        0 <= i < peers.len(),
    ensures
        r.len() == peers.len(),
        r[i].peer == peers[i],
        r[i].kind == StreamKind::Control,
        r[i].bytes@ == bytes,
        carries(r[i], peers, bytes),
{
    assert(peers.contains(peers[i]));
}

/// A message that announces a login says everything of it.
pub proof fn lemma_announcement_says_everything(message: PresenceControl, login: PresenceLogin)
    requires
        announces(message, login),
    ensures
        message matches PresenceControl::Login(said) && {
            &&& said.gid == login.gid
            &&& said.uuid == login.uuid
            &&& said.name@ == login.name@
            &&& property_models(said.properties@) == property_models(login.properties@)
            &&& said.gamemode == login.gamemode
            &&& said.in_lobby == login.in_lobby
        },
{
}

/// What was encoded goes out to every peer, and an error of the encoder is passed
/// on.
pub proof fn lemma_presence_encoding_decides(
    encoded: Result<Vec<u8>, PresenceError>,
    peers: Seq<u16>,
    r: Result<Vec<PresenceParcel>, PresenceError>,
)
    requires
        parcelled(encoded, peers, r),
    ensures
        r is Ok <==> encoded is Ok,
        encoded is Err ==> r->Err_0 == encoded->Err_0,
        encoded is Ok ==> parcels_carry(r->Ok_0@, peers, (encoded->Ok_0)@),
{
}

} // verus!
