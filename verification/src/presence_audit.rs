//! Audit of what is shown of the players online: the count, the list, the tab
//! list and the sample in the server description, and hidden players in none
//! of them.

use vstd::prelude::*;
use crate::bytes::same_id;
use crate::identity::GlobalPlayerId;
use crate::keyed::{Key, KeySet, ascending, listed, lists};
use crate::presence::{
    EntryModel, PresenceLogin, PresenceLogout, PresenceTable, PropertyModel, is_valid_presence_name,
    name_fits, property_models,
};
use crate::protocol::PlayerGameMode;
use crate::sorting::{capped, sort_stable, stable_sorted};
use crate::text::{has_text, lowercase_of, lowercased};

verus! {

/// A player as it is shown.
#[derive(Debug, PartialEq, Eq)]
pub struct VisiblePlayer {
    pub gid: GlobalPlayerId,
    pub uuid: [u8; 16],
    pub name: String,
}

/// What is shown of a player.
#[verifier::ext_equal]
pub ghost struct VisibleModel {
    pub gid: GlobalPlayerId,
    pub uuid: [u8; 16],
    pub name: Seq<char>,
}

impl View for VisiblePlayer {
    type V = VisibleModel;

    open spec fn view(&self) -> VisibleModel {
        VisibleModel { gid: self.gid, uuid: self.uuid, name: self.name@ }
    }
}

impl VisiblePlayer {
    pub fn new(gid: GlobalPlayerId, uuid: [u8; 16], name: String) -> (p: Self)
        ensures
            p == (VisiblePlayer { gid, uuid, name }),
    {
        VisiblePlayer { gid, uuid, name }
    }
}

impl Clone for VisiblePlayer {
    fn clone(&self) -> (p: Self)
        ensures
            p == *self,
    {
        VisiblePlayer { gid: self.gid, uuid: self.uuid, name: self.name.clone() }
    }
}

/// Where players are shown.
#[derive(Debug, Clone, Copy, PartialEq, Eq, Structural)]
pub enum SurfaceKind {
    Online,
    Tab,
    Motd,
}

/// Everything that is shown.
#[derive(Debug, PartialEq, Eq)]
pub struct PresenceSurfaces {
    pub count: usize,
    pub online: Vec<VisiblePlayer>,
    pub tab: Vec<VisiblePlayer>,
    pub motd_sample: Vec<VisiblePlayer>,
}

impl PresenceSurfaces {
    pub fn new(
        count: usize,
        online: Vec<VisiblePlayer>,
        tab: Vec<VisiblePlayer>,
        motd_sample: Vec<VisiblePlayer>,
    ) -> (s: Self)
        ensures
            s == (PresenceSurfaces { count, online, tab, motd_sample }),
    {
        PresenceSurfaces { count, online, tab, motd_sample }
    }
}

/// Something that is not as it should be.
#[derive(Debug, PartialEq, Eq)]
pub enum AuditIssue {
    CountMismatch { expected: usize, advertised: usize },
    OnlineGhost { gid: GlobalPlayerId },
    OnlineMissing { gid: GlobalPlayerId },
    OnlineOrder,
    TabGhost { gid: GlobalPlayerId },
    TabMissing { gid: GlobalPlayerId },
    TabOrder,
    MotdGhost { gid: GlobalPlayerId },
    MotdMissing { gid: GlobalPlayerId },
    MotdOrder,
    MotdOverLimit { len: usize, limit: usize },
    HiddenLeaked { gid: GlobalPlayerId, surface: SurfaceKind },
    DuplicateAdvertised { gid: GlobalPlayerId, surface: SurfaceKind },
    GhostEntry { gid: GlobalPlayerId },
    MissingEntry { gid: GlobalPlayerId },
    UuidMismatch { gid: GlobalPlayerId },
    NameMismatch { gid: GlobalPlayerId },
    InvalidName { gid: GlobalPlayerId },
    DuplicateUuid { uuid: [u8; 16] },
    DuplicateName { name: String },
}

/// What an audit found.
#[derive(Debug, PartialEq, Eq)]
pub struct AuditReport {
    pub issues: Vec<AuditIssue>,
}

impl AuditReport {
    pub fn new() -> (r: Self)
        ensures
            r.issues@ == Seq::<AuditIssue>::empty(),
    {
        AuditReport { issues: Vec::new() }
    }

    pub fn push(&mut self, issue: AuditIssue)
        ensures
            final(self).issues@ == old(self).issues@.push(issue),
    {
        self.issues.push(issue);
    }

    /// Whether nothing was found.
    pub fn is_consistent(&self) -> (b: bool)
        ensures
            b == (self.issues@.len() == 0),
    {
        self.issues.len() == 0
    }

    pub fn len(&self) -> (n: usize)
        ensures
            n == self.issues@.len(),
    {
        self.issues.len()
    }

    pub fn is_empty(&self) -> (b: bool)
        ensures
            b == (self.issues@.len() == 0),
    {
        self.issues.len() == 0
    }

    /// Whether a hidden player is shown somewhere.
    pub fn has_hidden_leak(&self) -> (b: bool)
        ensures
            b == exists|i: int|
                0 <= i < self.issues@.len() && (#[trigger] self.issues@[i]) is HiddenLeaked,
    {
        let mut i: usize = 0;
        while i < self.issues.len()
            invariant
                i <= self.issues@.len(),
                forall|j: int| 0 <= j < i ==> !((#[trigger] self.issues@[j]) is HiddenLeaked),
            decreases self.issues@.len() - i,
        {
            if matches!(&self.issues[i], AuditIssue::HiddenLeaked { .. }) {
                assert(self.issues@[i as int] is HiddenLeaked);
                return true;
            }
            i = i + 1;
        }
        false
    }
}

impl Default for AuditReport {
    fn default() -> (r: Self)
        ensures
            r.issues@ == Seq::<AuditIssue>::empty(),
    {
        AuditReport::new()
    }
}

/// A player is hidden by one of its ids.
pub open spec fn hidden_by(
    gid: GlobalPlayerId,
    uuid: [u8; 16],
    hidden_gids: Set<GlobalPlayerId>,
    hidden_uuids: Set<[u8; 16]>,
) -> bool {
    hidden_gids.contains(gid) || hidden_uuids.contains(uuid)
}

/// Whether a player is hidden by one of its ids.
pub fn is_hidden(
    gid: &GlobalPlayerId,
    uuid: &[u8; 16],
    hidden_gids: &KeySet<GlobalPlayerId>,
    hidden_uuids: &KeySet<[u8; 16]>,
) -> (b: bool)
    ensures
        b == hidden_by(*gid, *uuid, hidden_gids@, hidden_uuids@),
{
    hidden_gids.contains(gid) || hidden_uuids.contains(uuid)
}

/// The players of `keys` that are not hidden, as they are shown.
pub open spec fn shown_of(
    keys: Seq<GlobalPlayerId>,
    table: Map<GlobalPlayerId, EntryModel>,
    hidden_gids: Set<GlobalPlayerId>,
    hidden_uuids: Set<[u8; 16]>,
) -> Seq<VisibleModel>
    decreases keys.len(),
{
    if keys.len() == 0 {
        Seq::empty()
    } else {
        let before = shown_of(keys.drop_last(), table, hidden_gids, hidden_uuids);
        let gid = keys.last();
        let entry = table[gid];
        if hidden_by(gid, entry.uuid, hidden_gids, hidden_uuids) {
            before
        } else {
            before.push(VisibleModel { gid, uuid: entry.uuid, name: entry.name })
        }
    }
}

/// The players as mathematical values.
pub open spec fn player_models(s: Seq<VisiblePlayer>) -> Seq<VisibleModel> {
    s.map_values(|p: VisiblePlayer| p@)
}

/// The players online that are not hidden, in the order of their ids.
pub fn visible_roster(
    table: &PresenceTable,
    hidden_gids: &KeySet<GlobalPlayerId>,
    hidden_uuids: &KeySet<[u8; 16]>,
) -> (roster: Vec<VisiblePlayer>)
    ensures
        player_models(roster@) == shown_of(
            listed(table@.dom()),
            table@,
            hidden_gids@,
            hidden_uuids@,
        ),
        lists(listed(table@.dom()), table@.dom()),
{
    let keys = table.players();
    let mut roster: Vec<VisiblePlayer> = Vec::new();
    let mut i: usize = 0;
    proof {
        crate::keyed::lemma_listed(keys@, table@.dom());
        assert(player_models(roster@) =~= Seq::<VisibleModel>::empty());
    }
    while i < keys.len()
        invariant
            i <= keys@.len(),
            lists(keys@, table@.dom()),
            player_models(roster@) == shown_of(
                keys@.take(i as int),
                table@,
                hidden_gids@,
                hidden_uuids@,
            ),
        decreases keys@.len() - i,
    {
        let gid = keys[i];
        let ghost was = roster@;
        proof {
            assert(keys@.contains(keys@[i as int]));
            assert(keys@.take(i + 1).drop_last() =~= keys@.take(i as int));
        }
        match table.get(&gid) {
            None => {},
            Some(entry) => {
                if !is_hidden(&gid, &entry.uuid, hidden_gids, hidden_uuids) {
                    let next = VisiblePlayer::new(gid, entry.uuid, entry.name.clone());
                    roster.push(next);
                    proof {
                        assert(player_models(roster@) =~= player_models(was).push(next@));
                    }
                }
            },
        }
        i = i + 1;
    }
    proof {
        assert(keys@.take(i as int) =~= keys@);
    }
    roster
}

fn copy_roster(roster: &[VisiblePlayer], count: usize) -> (r: Vec<VisiblePlayer>)
    requires
        count <= roster@.len(),
    ensures
        r@ == roster@.take(count as int),
{
    let mut r: Vec<VisiblePlayer> = Vec::new();
    let mut i: usize = 0;
    while i < count
        invariant
            i <= count <= roster@.len(),
            r@ == roster@.take(i as int),
        decreases count - i,
    {
        r.push(roster[i].clone());
        assert(r@ =~= roster@.take(i + 1));
        i = i + 1;
    }
    r
}

/// The first players of a roster.
pub fn motd_capped(roster: &[VisiblePlayer], limit: usize) -> (r: Vec<VisiblePlayer>)
    ensures
        r@ == capped(roster@, limit as int),
{
    if roster.len() <= limit {
        let r = copy_roster(roster, roster.len());
        assert(r@ =~= roster@);
        r
    } else {
        copy_roster(roster, limit)
    }
}

/// The surfaces show the roster.
pub open spec fn surfaces_show(
    s: PresenceSurfaces,
    roster: Seq<VisiblePlayer>,
    motd_limit: usize,
) -> bool {
    &&& s.count == roster.len()
    &&& s.online@ == roster
    &&& s.tab@ == roster
    &&& s.motd_sample@ == capped(roster, motd_limit as int)
}

/// What is to be shown of a roster.
pub fn surfaces_for_roster(roster: &[VisiblePlayer], motd_limit: usize) -> (s: PresenceSurfaces)
    ensures
        surfaces_show(s, roster@, motd_limit),
{
    let online = copy_roster(roster, roster.len());
    let tab = copy_roster(roster, roster.len());
    assert(online@ =~= roster@);
    assert(tab@ =~= roster@);
    PresenceSurfaces::new(roster.len(), online, tab, motd_capped(roster, motd_limit))
}

/// What is to be shown of the players online.
pub fn surfaces_from_table(
    table: &PresenceTable,
    hidden_gids: &KeySet<GlobalPlayerId>,
    hidden_uuids: &KeySet<[u8; 16]>,
    motd_limit: usize,
) -> (s: PresenceSurfaces)
    ensures
        surfaces_show(s, s.online@, motd_limit),
        player_models(s.online@) == shown_of(
            listed(table@.dom()),
            table@,
            hidden_gids@,
            hidden_uuids@,
        ),
        lists(listed(table@.dom()), table@.dom()),
{
    let roster = visible_roster(table, hidden_gids, hidden_uuids);
    surfaces_for_roster(roster.as_slice(), motd_limit)
}

/// What is sent when a player is hidden.
pub fn logout_for_hidden(gid: GlobalPlayerId) -> (l: PresenceLogout)
    ensures
        l == (PresenceLogout { gid }),
{
    PresenceLogout::new(gid)
}

/// What is sent when a player is shown again.
pub fn login_for_unhidden(entry: &VisiblePlayer) -> (l: PresenceLogin)
    ensures
        l.gid == entry.gid,
        l.uuid == entry.uuid,
        l.name == entry.name,
        l.properties@.len() == 0,
        l.gamemode == PlayerGameMode::Survival,
        !l.in_lobby,
{
    let none: Vec<crate::presence::PresenceProperty> = Vec::new();
    let l = PresenceLogin::new(
        entry.gid,
        entry.uuid,
        entry.name.clone(),
        none,
        PlayerGameMode::Survival,
        false,
    );
    proof {
        reveal(Seq::filter);
        assert(property_models(none@) =~= Seq::<PropertyModel>::empty());
        assert(property_models(l.properties@).len() == l.properties@.len());
    }
    l
}

/// The ids of a view, in its order.
pub open spec fn ids_of(view: Seq<VisiblePlayer>) -> Seq<GlobalPlayerId> {
    view.map_values(|p: VisiblePlayer| p.gid)
}

/// The ids of a view in ascending order, repeated ones included.
pub open spec fn sorted_ids_of(view: Seq<VisiblePlayer>) -> Seq<GlobalPlayerId> {
    stable_sorted(ids_of(view), |a: GlobalPlayerId, b: GlobalPlayerId| a.rank() < b.rank())
}

/// The ids of a view, in its order.
pub fn ordered_gids(view: &[VisiblePlayer]) -> (r: Vec<GlobalPlayerId>)
    ensures
        r@ == ids_of(view@),
{
    let mut r: Vec<GlobalPlayerId> = Vec::new();
    let mut i: usize = 0;
    while i < view.len()
        invariant
            i <= view@.len(),
            r@.len() == i,
            forall|j: int| 0 <= j < i ==> #[trigger] r@[j] == view@[j].gid,
        decreases view@.len() - i,
    {
        r.push(view[i].gid);
        i = i + 1;
    }
    assert(r@ =~= ids_of(view@));
    r
}

/// The ids of a view in ascending order, repeated ones included.
pub fn sorted_gids(view: &[VisiblePlayer]) -> (r: Vec<GlobalPlayerId>)
    ensures
        r@ == sorted_ids_of(view@),
{
    let mut r = ordered_gids(view);
    let before = |a: &GlobalPlayerId, b: &GlobalPlayerId| -> (r: bool)
        ensures
            r == (a.rank() < b.rank()),
        { a.precedes(b) };
    sort_stable(
        r.as_mut_slice(),
        before,
        Ghost(|a: GlobalPlayerId, b: GlobalPlayerId| a.rank() < b.rank()),
    );
    r
}

/// What a view lacks is reported so.
pub open spec fn missing_on(surface: SurfaceKind, gid: GlobalPlayerId) -> AuditIssue {
    match surface {
        SurfaceKind::Online => AuditIssue::OnlineMissing { gid },
        SurfaceKind::Tab => AuditIssue::TabMissing { gid },
        SurfaceKind::Motd => AuditIssue::MotdMissing { gid },
    }
}

/// What a view shows in excess is reported so.
pub open spec fn ghost_on(surface: SurfaceKind, gid: GlobalPlayerId) -> AuditIssue {
    match surface {
        SurfaceKind::Online => AuditIssue::OnlineGhost { gid },
        SurfaceKind::Tab => AuditIssue::TabGhost { gid },
        SurfaceKind::Motd => AuditIssue::MotdGhost { gid },
    }
}

/// A view out of order is reported so.
pub open spec fn disorder_on(surface: SurfaceKind) -> AuditIssue {
    match surface {
        SurfaceKind::Online => AuditIssue::OnlineOrder,
        SurfaceKind::Tab => AuditIssue::TabOrder,
        SurfaceKind::Motd => AuditIssue::MotdOrder,
    }
}

/// A player is shown in excess or is missing, on a surface or in a roster.
pub open spec fn absence(
    surface: Option<SurfaceKind>,
    in_excess: bool,
    gid: GlobalPlayerId,
) -> AuditIssue {
    match surface {
        Some(on) => if in_excess {
            ghost_on(on, gid)
        } else {
            missing_on(on, gid)
        },
        None => if in_excess {
            AuditIssue::GhostEntry { gid }
        } else {
            AuditIssue::MissingEntry { gid }
        },
    }
}

/// For each of `gids` that `present` lacks, in their order, a report.
pub open spec fn absent_from(
    gids: Seq<GlobalPlayerId>,
    present: Set<GlobalPlayerId>,
    surface: Option<SurfaceKind>,
    in_excess: bool,
) -> Seq<AuditIssue>
    decreases gids.len(),
{
    if gids.len() == 0 {
        Seq::empty()
    } else {
        let before = absent_from(gids.drop_last(), present, surface, in_excess);
        if present.contains(gids.last()) {
            before
        } else {
            before.push(absence(surface, in_excess, gids.last()))
        }
    }
}

/// For each of `gids` that stands further ahead too, in their order, a report.
pub open spec fn repeated_in(gids: Seq<GlobalPlayerId>, surface: SurfaceKind) -> Seq<AuditIssue>
    decreases gids.len(),
{
    if gids.len() == 0 {
        Seq::empty()
    } else {
        let before = repeated_in(gids.drop_last(), surface);
        if gids.drop_last().contains(gids.last()) {
            before.push(AuditIssue::DuplicateAdvertised { gid: gids.last(), surface })
        } else {
            before
        }
    }
}

/// The issues of one view against what it should show.
#[verifier::opaque]
pub open spec fn list_issues(
    expected: Seq<VisiblePlayer>,
    advertised: Seq<VisiblePlayer>,
    surface: SurfaceKind,
    motd_limit: Option<usize>,
) -> Seq<AuditIssue> {
    let missing = absent_from(
        sorted_ids_of(expected),
        ids_of(advertised).to_set(),
        Some(surface),
        false,
    );
    let ghosts = absent_from(
        sorted_ids_of(advertised),
        ids_of(expected).to_set(),
        Some(surface),
        true,
    );
    let twice = repeated_in(sorted_ids_of(advertised), surface);
    let order = if ids_of(advertised) != sorted_ids_of(advertised) {
        seq![disorder_on(surface)]
    } else {
        Seq::empty()
    };
    let over = match motd_limit {
        Some(limit) => if advertised.len() > limit {
            seq![AuditIssue::MotdOverLimit { len: advertised.len() as usize, limit }]
        } else {
            Seq::empty()
        },
        None => Seq::empty(),
    };
    missing + ghosts + twice + order + over
}

fn report_absent(
    report: &mut AuditReport,
    gids: &Vec<GlobalPlayerId>,
    present: &KeySet<GlobalPlayerId>,
    surface: Option<SurfaceKind>,
    in_excess: bool,
)
    ensures
        final(report).issues@ == old(report).issues@ + absent_from(
            gids@,
            present@,
            surface,
            in_excess,
        ),
{
    let ghost start = report.issues@;
    let mut i: usize = 0;
    proof {
        assert(start + absent_from(gids@.take(0), present@, surface, in_excess) =~= start);
    }
    while i < gids.len()
        invariant
            i <= gids@.len(),
            report.issues@ == start + absent_from(
                gids@.take(i as int),
                present@,
                surface,
                in_excess,
            ),
        decreases gids@.len() - i,
    {
        let gid = gids[i];
        proof {
            assert(gids@.take(i + 1).drop_last() =~= gids@.take(i as int));
        }
        if !present.contains(&gid) {
            let issue = match (surface, in_excess) {
                (Some(SurfaceKind::Online), true) => AuditIssue::OnlineGhost { gid },
                (Some(SurfaceKind::Tab), true) => AuditIssue::TabGhost { gid },
                (Some(SurfaceKind::Motd), true) => AuditIssue::MotdGhost { gid },
                (Some(SurfaceKind::Online), false) => AuditIssue::OnlineMissing { gid },
                (Some(SurfaceKind::Tab), false) => AuditIssue::TabMissing { gid },
                (Some(SurfaceKind::Motd), false) => AuditIssue::MotdMissing { gid },
                (None, true) => AuditIssue::GhostEntry { gid },
                (None, false) => AuditIssue::MissingEntry { gid },
            };
            report.push(issue);
        }
        proof {
            assert(report.issues@ =~= start + absent_from(
                gids@.take(i + 1),
                present@,
                surface,
                in_excess,
            ));
        }
        i = i + 1;
    }
    proof {
        assert(gids@.take(i as int) =~= gids@);
    }
}

fn audit_surface_list(
    report: &mut AuditReport,
    expected: &[VisiblePlayer],
    advertised: &[VisiblePlayer],
    surface: SurfaceKind,
    motd_limit: Option<usize>,
)
    ensures
        final(report).issues@ == old(report).issues@ + list_issues(
            expected@,
            advertised@,
            surface,
            motd_limit,
        ),
{
    let ghost start = report.issues@;
    let expected_gids = sorted_gids(expected);
    let advertised_gids = sorted_gids(advertised);
    let ordered = ordered_gids(advertised);
    let expected_ordered = ordered_gids(expected);
    let expected_set: KeySet<GlobalPlayerId> = KeySet::from_slice(expected_ordered.as_slice());
    let advertised_set: KeySet<GlobalPlayerId> = KeySet::from_slice(ordered.as_slice());
    report_absent(report, &expected_gids, &advertised_set, Some(surface), false);
    report_absent(report, &advertised_gids, &expected_set, Some(surface), true);
    let ghost mid = report.issues@;
    let mut seen: KeySet<GlobalPlayerId> = KeySet::new();
    let mut i: usize = 0;
    proof {
        assert(mid + repeated_in(advertised_gids@.take(0), surface) =~= mid);
        assert(seen@ =~= advertised_gids@.take(0).to_set());
    }
    while i < advertised_gids.len()
        invariant
            i <= advertised_gids@.len(),
            seen@ == advertised_gids@.take(i as int).to_set(),
            report.issues@ == mid + repeated_in(advertised_gids@.take(i as int), surface),
        decreases advertised_gids@.len() - i,
    {
        let gid = advertised_gids[i];
        proof {
            assert(advertised_gids@.take(i + 1).drop_last() =~= advertised_gids@.take(i as int));
            crate::keyed::lemma_take_set(advertised_gids@, i as int);
        }
        let fresh: bool = seen.insert(gid);
        if !fresh {
            report.push(AuditIssue::DuplicateAdvertised { gid, surface });
        }
        proof {
            assert(report.issues@ =~= mid + repeated_in(advertised_gids@.take(i + 1), surface));
        }
        i = i + 1;
    }
    proof {
        assert(advertised_gids@.take(i as int) =~= advertised_gids@);
    }
    if !crate::keyed::same_keys(&ordered, &advertised_gids) {
        let issue = match surface {
            SurfaceKind::Online => AuditIssue::OnlineOrder,
            SurfaceKind::Tab => AuditIssue::TabOrder,
            SurfaceKind::Motd => AuditIssue::MotdOrder,
        };
        report.push(issue);
    }
    match motd_limit {
        None => {},
        Some(limit) => {
            if advertised.len() > limit {
                report.push(AuditIssue::MotdOverLimit { len: advertised.len(), limit });
            }
        },
    }
    proof {
        reveal(list_issues);
        assert(report.issues@ =~= start + list_issues(expected@, advertised@, surface, motd_limit));
    }
}

/// The hidden players of a view, in its order.
pub open spec fn leaks_in(
    view: Seq<VisiblePlayer>,
    surface: SurfaceKind,
    hidden_gids: Set<GlobalPlayerId>,
    hidden_uuids: Set<[u8; 16]>,
) -> Seq<AuditIssue>
    decreases view.len(),
{
    if view.len() == 0 {
        Seq::empty()
    } else {
        let before = leaks_in(view.drop_last(), surface, hidden_gids, hidden_uuids);
        if hidden_by(view.last().gid, view.last().uuid, hidden_gids, hidden_uuids) {
            before.push(AuditIssue::HiddenLeaked { gid: view.last().gid, surface })
        } else {
            before
        }
    }
}

fn report_leaks(
    report: &mut AuditReport,
    view: &Vec<VisiblePlayer>,
    surface: SurfaceKind,
    hidden_gids: &KeySet<GlobalPlayerId>,
    hidden_uuids: &KeySet<[u8; 16]>,
)
    ensures
        final(report).issues@ == old(report).issues@ + leaks_in(
            view@,
            surface,
            hidden_gids@,
            hidden_uuids@,
        ),
{
    let ghost start = report.issues@;
    let mut i: usize = 0;
    proof {
        assert(start + leaks_in(view@.take(0), surface, hidden_gids@, hidden_uuids@) =~= start);
    }
    while i < view.len()
        invariant
            i <= view@.len(),
            report.issues@ == start + leaks_in(
                view@.take(i as int),
                surface,
                hidden_gids@,
                hidden_uuids@,
            ),
        decreases view@.len() - i,
    {
        let entry = &view[i];
        proof {
            assert(view@.take(i + 1).drop_last() =~= view@.take(i as int));
        }
        if is_hidden(&entry.gid, &entry.uuid, hidden_gids, hidden_uuids) {
            report.push(AuditIssue::HiddenLeaked { gid: entry.gid, surface });
        }
        proof {
            assert(report.issues@ =~= start + leaks_in(
                view@.take(i + 1),
                surface,
                hidden_gids@,
                hidden_uuids@,
            ));
        }
        i = i + 1;
    }
    proof {
        assert(view@.take(i as int) =~= view@);
    }
}

/// All issues of what is shown against what should be shown.
pub open spec fn surface_issues(
    expected: Seq<VisiblePlayer>,
    advertised: PresenceSurfaces,
    hidden_gids: Set<GlobalPlayerId>,
    hidden_uuids: Set<[u8; 16]>,
    motd_limit: usize,
) -> Seq<AuditIssue> {
    let count = if advertised.count != expected.len() {
        seq![
            AuditIssue::CountMismatch {
                expected: expected.len() as usize,
                advertised: advertised.count,
            },
        ]
    } else {
        Seq::empty()
    };
    count + list_issues(expected, advertised.online@, SurfaceKind::Online, None) + list_issues(
        expected,
        advertised.tab@,
        SurfaceKind::Tab,
        None,
    ) + list_issues(
        capped(expected, motd_limit as int),
        advertised.motd_sample@,
        SurfaceKind::Motd,
        Some(motd_limit),
    ) + leaks_in(advertised.online@, SurfaceKind::Online, hidden_gids, hidden_uuids) + leaks_in(
        advertised.tab@,
        SurfaceKind::Tab,
        hidden_gids,
        hidden_uuids,
    ) + leaks_in(advertised.motd_sample@, SurfaceKind::Motd, hidden_gids, hidden_uuids)
}

/// Holds what is shown against what should be shown.
pub fn audit_surfaces(
    expected: &[VisiblePlayer],
    advertised: &PresenceSurfaces,
    hidden_gids: &KeySet<GlobalPlayerId>,
    hidden_uuids: &KeySet<[u8; 16]>,
    motd_limit: usize,
) -> (report: AuditReport)
    ensures
        report.issues@ == surface_issues(
            expected@,
            *advertised,
            hidden_gids@,
            hidden_uuids@,
            motd_limit,
        ),
{
    let mut report = AuditReport::new();
    if advertised.count != expected.len() {
        report.push(
            AuditIssue::CountMismatch {
                expected: expected.len(),
                advertised: advertised.count,
            },
        );
    }
    audit_surface_list(
        &mut report,
        expected,
        advertised.online.as_slice(),
        SurfaceKind::Online,
        None,
    );
    audit_surface_list(
        &mut report,
        expected,
        advertised.tab.as_slice(),
        SurfaceKind::Tab,
        None,
    );
    let expected_motd = motd_capped(expected, motd_limit);
    audit_surface_list(
        &mut report,
        expected_motd.as_slice(),
        advertised.motd_sample.as_slice(),
        SurfaceKind::Motd,
        Some(motd_limit),
    );
    report_leaks(&mut report, &advertised.online, SurfaceKind::Online, hidden_gids, hidden_uuids);
    report_leaks(&mut report, &advertised.tab, SurfaceKind::Tab, hidden_gids, hidden_uuids);
    report_leaks(
        &mut report,
        &advertised.motd_sample,
        SurfaceKind::Motd,
        hidden_gids,
        hidden_uuids,
    );
    report
}

/// The last entry of a roster for a player.
pub open spec fn last_entry(roster: Seq<VisiblePlayer>, gid: GlobalPlayerId) -> Option<
    VisiblePlayer,
>
    decreases roster.len(),
{
    if roster.len() == 0 {
        None
    } else if roster.last().gid == gid {
        Some(roster.last())
    } else {
        last_entry(roster.drop_last(), gid)
    }
}

fn find_last(roster: &[VisiblePlayer], gid: &GlobalPlayerId) -> (r: Option<usize>)
    ensures
        r is None <==> last_entry(roster@, *gid) is None,
        r matches Some(i) ==> i < roster@.len() && last_entry(roster@, *gid) == Some(
            roster@[i as int],
        ),
{
    let mut i: usize = roster.len();
    proof {
        assert(roster@.take(i as int) =~= roster@);
    }
    while i > 0
        invariant
            i <= roster@.len(),
            last_entry(roster@, *gid) == last_entry(roster@.take(i as int), *gid),
        decreases i,
    {
        let p = &roster[i - 1];
        proof {
            assert(roster@.take(i as int).drop_last() =~= roster@.take(i - 1));
            assert(roster@.take(i as int).last() == roster@[i - 1]);
        }
        if p.gid.server.0 == gid.server.0 && p.gid.player.0 == gid.player.0 {
            return Some(i - 1);
        }
        i = i - 1;
    }
    None
}

/// The issues of one local entry against the roster of a peer.
pub open spec fn entry_issues(entry: VisiblePlayer, peer: Seq<VisiblePlayer>) -> Seq<AuditIssue> {
    match last_entry(peer, entry.gid) {
        None => seq![AuditIssue::MissingEntry { gid: entry.gid }],
        Some(other) => {
            let uuid = if other.uuid != entry.uuid {
                seq![AuditIssue::UuidMismatch { gid: entry.gid }]
            } else {
                Seq::empty()
            };
            let name = if other.name@ != entry.name@ {
                seq![AuditIssue::NameMismatch { gid: entry.gid }]
            } else {
                Seq::empty()
            };
            uuid + name
        },
    }
}

/// The issues of all local entries, one after the other.
pub open spec fn local_issues(local: Seq<VisiblePlayer>, peer: Seq<VisiblePlayer>) -> Seq<
    AuditIssue,
>
    decreases local.len(),
{
    if local.len() == 0 {
        Seq::empty()
    } else {
        local_issues(local.drop_last(), peer) + entry_issues(local.last(), peer)
    }
}

/// The issues of the entries of a peer: players unknown here, and hidden ones.
pub open spec fn peer_issues(
    peer: Seq<VisiblePlayer>,
    local: Seq<VisiblePlayer>,
    hidden_gids: Set<GlobalPlayerId>,
    hidden_uuids: Set<[u8; 16]>,
) -> Seq<AuditIssue>
    decreases peer.len(),
{
    if peer.len() == 0 {
        Seq::empty()
    } else {
        let entry = peer.last();
        let ghost_entry = if last_entry(local, entry.gid) is None {
            seq![AuditIssue::GhostEntry { gid: entry.gid }]
        } else {
            Seq::empty()
        };
        let leak = if hidden_by(entry.gid, entry.uuid, hidden_gids, hidden_uuids) {
            seq![AuditIssue::HiddenLeaked { gid: entry.gid, surface: SurfaceKind::Online }]
        } else {
            Seq::empty()
        };
        peer_issues(peer.drop_last(), local, hidden_gids, hidden_uuids) + ghost_entry + leak
    }
}

/// Holds the roster of a peer against the local one.
pub fn audit_peer_rosters(
    local: &[VisiblePlayer],
    peer: &[VisiblePlayer],
    hidden_gids: &KeySet<GlobalPlayerId>,
    hidden_uuids: &KeySet<[u8; 16]>,
) -> (report: AuditReport)
    ensures
        report.issues@ == local_issues(local@, peer@) + peer_issues(
            peer@,
            local@,
            hidden_gids@,
            hidden_uuids@,
        ),
{
    let mut report = AuditReport::new();
    let mut i: usize = 0;
    while i < local.len()
        invariant
            i <= local@.len(),
            report.issues@ == local_issues(local@.take(i as int), peer@),
        decreases local@.len() - i,
    {
        let entry = &local[i];
        let ghost was = report.issues@;
        proof {
            assert(local@.take(i + 1).drop_last() =~= local@.take(i as int));
        }
        match find_last(peer, &entry.gid) {
            None => {
                report.push(AuditIssue::MissingEntry { gid: entry.gid });
            },
            Some(at) => {
                let other = &peer[at];
                if !same_id(&other.uuid, &entry.uuid) {
                    report.push(AuditIssue::UuidMismatch { gid: entry.gid });
                }
                if other.name != entry.name {
                    report.push(AuditIssue::NameMismatch { gid: entry.gid });
                }
            },
        }
        proof {
            assert(report.issues@ =~= was + entry_issues(*entry, peer@));
        }
        i = i + 1;
    }
    proof {
        assert(local@.take(i as int) =~= local@);
    }
    let ghost first = report.issues@;
    let mut k: usize = 0;
    proof {
        assert(first + peer_issues(peer@.take(0), local@, hidden_gids@, hidden_uuids@) =~= first);
    }
    while k < peer.len()
        invariant
            k <= peer@.len(),
            report.issues@ == first + peer_issues(
                peer@.take(k as int),
                local@,
                hidden_gids@,
                hidden_uuids@,
            ),
        decreases peer@.len() - k,
    {
        let entry = &peer[k];
        proof {
            assert(peer@.take(k + 1).drop_last() =~= peer@.take(k as int));
        }
        if find_last(local, &entry.gid).is_none() {
            report.push(AuditIssue::GhostEntry { gid: entry.gid });
        }
        if is_hidden(&entry.gid, &entry.uuid, hidden_gids, hidden_uuids) {
            report.push(
                AuditIssue::HiddenLeaked { gid: entry.gid, surface: SurfaceKind::Online },
            );
        }
        proof {
            assert(report.issues@ =~= first + peer_issues(
                peer@.take(k + 1),
                local@,
                hidden_gids@,
                hidden_uuids@,
            ));
        }
        k = k + 1;
    }
    proof {
        assert(peer@.take(k as int) =~= peer@);
    }
    report
}

/// The issues of one entry against the entries before it.
pub open spec fn integrity_of(before: Seq<VisiblePlayer>, entry: VisiblePlayer) -> Seq<
    AuditIssue,
> {
    let gid = if exists|j: int| 0 <= j < before.len() && (#[trigger] before[j]).gid == entry.gid {
        seq![AuditIssue::GhostEntry { gid: entry.gid }]
    } else {
        Seq::empty()
    };
    let uuid = if exists|j: int| 0 <= j < before.len() && (#[trigger] before[j]).uuid
        == entry.uuid {
        seq![AuditIssue::DuplicateUuid { uuid: entry.uuid }]
    } else {
        Seq::empty()
    };
    let valid = if !name_fits(entry.name@) {
        seq![AuditIssue::InvalidName { gid: entry.gid }]
    } else {
        Seq::empty()
    };
    let name = if exists|j: int|
        0 <= j < before.len() && lowercase_of((#[trigger] before[j]).name@) == lowercase_of(
            entry.name@,
        ) {
        seq![AuditIssue::DuplicateName { name: entry.name }]
    } else {
        Seq::empty()
    };
    gid + uuid + valid + name
}

/// The issues of all entries, one after the other.
pub open spec fn integrity_issues(roster: Seq<VisiblePlayer>) -> Seq<AuditIssue>
    decreases roster.len(),
{
    if roster.len() == 0 {
        Seq::empty()
    } else {
        integrity_issues(roster.drop_last()) + integrity_of(roster.drop_last(), roster.last())
    }
}

fn holds_text(list: &Vec<String>, text: &String) -> (b: bool)
    ensures
        b == has_text(list@, text@),
{
    let mut i: usize = 0;
    while i < list.len()
        invariant
            i <= list@.len(),
            forall|j: int| 0 <= j < i ==> (#[trigger] list@[j])@ != text@,
        decreases list@.len() - i,
    {
        if list[i] == *text {
            assert(list@[i as int]@ == text@);
            return true;
        }
        i = i + 1;
    }
    false
}

/// Looks for repeated ids, unique ids and names, bad names and disorder.
#[verifier::spinoff_prover]
#[verifier::rlimit(60)]
pub fn audit_roster_integrity(roster: &[VisiblePlayer]) -> (report: AuditReport)
    ensures
        report.issues@ == integrity_issues(roster@) + (if ids_of(roster@) != sorted_ids_of(roster@) {
            seq![AuditIssue::OnlineOrder]
        } else {
            Seq::empty()
        }),
{
    let mut report = AuditReport::new();
    let mut seen_gids: KeySet<GlobalPlayerId> = KeySet::new();
    let mut seen_uuids: KeySet<[u8; 16]> = KeySet::new();
    let mut seen_names: Vec<String> = Vec::new();
    let mut i: usize = 0;
    while i < roster.len()
        invariant
            i <= roster@.len(),
            report.issues@ == integrity_issues(roster@.take(i as int)),
            seen_names@.len() == i,
            forall|j: int|
                0 <= j < i ==> (#[trigger] seen_names@[j])@ == lowercase_of(roster@[j].name@),
            forall|g: GlobalPlayerId| #[trigger]
                seen_gids@.contains(g) <==> exists|j: int|
                    0 <= j < i && (#[trigger] roster@[j]).gid == g,
            forall|u: [u8; 16]| #[trigger]
                seen_uuids@.contains(u) <==> exists|j: int|
                    0 <= j < i && (#[trigger] roster@[j]).uuid == u,
        decreases roster@.len() - i,
    {
        let entry = &roster[i];
        let ghost before = roster@.take(i as int);
        let ghost was = report.issues@;
        proof {
            assert(roster@.take(i + 1).drop_last() =~= before);
            assert(forall|j: int| 0 <= j < i ==> #[trigger] before[j] == roster@[j]);
        }
        let ghost gids_before = seen_gids@;
        let ghost uuids_before = seen_uuids@;
        let fresh_gid: bool = seen_gids.insert(entry.gid);
        if !fresh_gid {
            report.push(AuditIssue::GhostEntry { gid: entry.gid });
        }
        let fresh_uuid: bool = seen_uuids.insert(entry.uuid);
        if !fresh_uuid {
            report.push(AuditIssue::DuplicateUuid { uuid: entry.uuid });
        }
        if !is_valid_presence_name(entry.name.as_str()) {
            report.push(AuditIssue::InvalidName { gid: entry.gid });
        }
        let folded = lowercased(entry.name.as_str());
        let known: bool = holds_text(&seen_names, &folded);
        if known {
            report.push(AuditIssue::DuplicateName { name: entry.name.clone() });
        }
        proof {
            let gid_before = exists|j: int|
                0 <= j < before.len() && (#[trigger] before[j]).gid == entry.gid;
            if gids_before.contains(entry.gid) {
                let j = choose|j: int| 0 <= j < i && (#[trigger] roster@[j]).gid == entry.gid;
                assert(before[j].gid == entry.gid);
            }
            if gid_before {
                let j = choose|j: int|
                    0 <= j < before.len() && (#[trigger] before[j]).gid == entry.gid;
                assert(roster@[j].gid == entry.gid);
            }
            assert(fresh_gid == !gid_before);
            let uuid_before = exists|j: int|
                0 <= j < before.len() && (#[trigger] before[j]).uuid == entry.uuid;
            if uuids_before.contains(entry.uuid) {
                let j = choose|j: int| 0 <= j < i && (#[trigger] roster@[j]).uuid == entry.uuid;
                assert(before[j].uuid == entry.uuid);
            }
            if uuid_before {
                let j = choose|j: int|
                    0 <= j < before.len() && (#[trigger] before[j]).uuid == entry.uuid;
                assert(roster@[j].uuid == entry.uuid);
            }
            assert(fresh_uuid == !uuid_before);
            let name_before = exists|j: int|
                0 <= j < before.len() && lowercase_of((#[trigger] before[j]).name@)
                    == lowercase_of(entry.name@);
            if known {
                let j = choose|j: int|
                    0 <= j < seen_names@.len() && (#[trigger] seen_names@[j])@ == folded@;
                assert(lowercase_of(before[j].name@) == lowercase_of(entry.name@));
            }
            if name_before {
                let j = choose|j: int|
                    0 <= j < before.len() && lowercase_of((#[trigger] before[j]).name@)
                        == lowercase_of(entry.name@);
                assert(seen_names@[j]@ == folded@);
            }
            assert(known == name_before);
            assert(report.issues@ =~= was + integrity_of(before, *entry));
            assert forall|g: GlobalPlayerId| #[trigger] seen_gids@.contains(g) <==> exists|j: int|
                0 <= j < i + 1 && (#[trigger] roster@[j]).gid == g by {
                if seen_gids@.contains(g) {
                    if g == entry.gid {
                        assert(roster@[i as int].gid == g);
                    } else {
                        assert(gids_before.contains(g));
                        let j = choose|j: int| 0 <= j < i && (#[trigger] roster@[j]).gid == g;
                        assert(roster@[j].gid == g);
                    }
                }
                if exists|j: int| 0 <= j < i + 1 && (#[trigger] roster@[j]).gid == g {
                    let j = choose|j: int| 0 <= j < i + 1 && (#[trigger] roster@[j]).gid == g;
                    if j < i {
                        assert(gids_before.contains(g));
                    }
                }
            }
            assert forall|u: [u8; 16]| #[trigger] seen_uuids@.contains(u) <==> exists|j: int|
                0 <= j < i + 1 && (#[trigger] roster@[j]).uuid == u by {
                if seen_uuids@.contains(u) {
                    if u == entry.uuid {
                        assert(roster@[i as int].uuid == u);
                    } else {
                        assert(uuids_before.contains(u));
                        let j = choose|j: int| 0 <= j < i && (#[trigger] roster@[j]).uuid == u;
                        assert(roster@[j].uuid == u);
                    }
                }
                if exists|j: int| 0 <= j < i + 1 && (#[trigger] roster@[j]).uuid == u {
                    let j = choose|j: int| 0 <= j < i + 1 && (#[trigger] roster@[j]).uuid == u;
                    if j < i {
                        assert(uuids_before.contains(u));
                    }
                }
            }
        }
        seen_names.push(folded);
        i = i + 1;
    }
    proof {
        assert(roster@.take(i as int) =~= roster@);
    }
    let ordered = ordered_gids(roster);
    let sorted = sorted_gids(roster);
    if !crate::keyed::same_keys(&ordered, &sorted) {
        report.push(AuditIssue::OnlineOrder);
    }
    report
}

/// The view shows the player.
pub open spec fn shows_player(view: Seq<VisiblePlayer>, gid: GlobalPlayerId) -> bool {
    ids_of(view).contains(gid)
}

/// The entries of `view` that `other` does not show, that of `gid` left aside.
pub open spec fn unmatched(
    view: Seq<VisiblePlayer>,
    other: Seq<VisiblePlayer>,
    gid: GlobalPlayerId,
    in_excess: bool,
) -> Seq<AuditIssue> {
    absent_from(ids_of(view), ids_of(other).to_set().insert(gid), None, in_excess)
}

/// The issues of hiding a player or showing it again.
pub open spec fn transition_issues(
    before: Seq<VisiblePlayer>,
    after: Seq<VisiblePlayer>,
    gid: GlobalPlayerId,
    hidden: bool,
) -> Seq<AuditIssue> {
    let had = shows_player(before, gid);
    let still = shows_player(after, gid);
    let own = if hidden && had && still {
        seq![AuditIssue::HiddenLeaked { gid, surface: SurfaceKind::Online }]
    } else if !still && (!hidden || !had) {
        seq![AuditIssue::MissingEntry { gid }]
    } else {
        Seq::empty()
    };
    own + unmatched(after, before, gid, true) + unmatched(before, after, gid, false)
}

/// Holds the view after hiding a player, or showing it again, against the view before.
pub fn audit_hide_transition(
    before: &[VisiblePlayer],
    after: &[VisiblePlayer],
    gid: &GlobalPlayerId,
    hidden: bool,
) -> (report: AuditReport)
    ensures
        report.issues@ == transition_issues(before@, after@, *gid, hidden),
{
    let mut report = AuditReport::new();
    let before_gids = ordered_gids(before);
    let after_gids = ordered_gids(after);
    let mut before_set: KeySet<GlobalPlayerId> = KeySet::from_slice(before_gids.as_slice());
    let mut after_set: KeySet<GlobalPlayerId> = KeySet::from_slice(after_gids.as_slice());
    let had: bool = before_set.contains(gid);
    let still: bool = after_set.contains(gid);
    if hidden && had && still {
        report.push(AuditIssue::HiddenLeaked { gid: *gid, surface: SurfaceKind::Online });
    } else if !still && (!hidden || !had) {
        report.push(AuditIssue::MissingEntry { gid: *gid });
    }
    let _ = before_set.insert(*gid);
    let _ = after_set.insert(*gid);
    report_absent(&mut report, &after_gids, &before_set, None, true);
    report_absent(&mut report, &before_gids, &after_set, None, false);
    proof {
        assert(report.issues@ =~= transition_issues(before@, after@, *gid, hidden));
    }
    report
}

proof fn lemma_none_absent(
    gids: Seq<GlobalPlayerId>,
    present: Set<GlobalPlayerId>,
    surface: Option<SurfaceKind>,
    in_excess: bool,
)
    requires
        forall|i: int| 0 <= i < gids.len() ==> present.contains(#[trigger] gids[i]),
    ensures
        absent_from(gids, present, surface, in_excess) == Seq::<AuditIssue>::empty(),
    decreases gids.len(),
{
    if gids.len() > 0 {
        assert forall|i: int| 0 <= i < gids.drop_last().len() implies present.contains(
            #[trigger] gids.drop_last()[i],
        ) by {
            assert(gids.drop_last()[i] == gids[i]);
        }
        lemma_none_absent(gids.drop_last(), present, surface, in_excess);
        assert(present.contains(gids[gids.len() - 1]));
    }
}

proof fn lemma_none_repeated(gids: Seq<GlobalPlayerId>, surface: SurfaceKind)
    requires
        ascending(gids),
    ensures
        repeated_in(gids, surface) == Seq::<AuditIssue>::empty(),
    decreases gids.len(),
{
    if gids.len() > 0 {
        let rest = gids.drop_last();
        assert(ascending(rest)) by {
            assert forall|i: int, j: int| 0 <= i < j < rest.len() implies (
            #[trigger] rest[i]).rank() < (#[trigger] rest[j]).rank() by {
                assert(gids[i].rank() < gids[j].rank());
            }
        }
        lemma_none_repeated(rest, surface);
        if rest.contains(gids.last()) {
            let i = choose|i: int| 0 <= i < rest.len() && rest[i] == gids.last();
            assert(gids[i].rank() < gids[gids.len() - 1].rank());
        }
    }
}

proof fn lemma_no_leaks(
    view: Seq<VisiblePlayer>,
    surface: SurfaceKind,
    hidden_gids: Set<GlobalPlayerId>,
    hidden_uuids: Set<[u8; 16]>,
)
    requires
        forall|i: int|
            0 <= i < view.len() ==> !hidden_by(
                (#[trigger] view[i]).gid,
                view[i].uuid,
                hidden_gids,
                hidden_uuids,
            ),
    ensures
        leaks_in(view, surface, hidden_gids, hidden_uuids) == Seq::<AuditIssue>::empty(),
    decreases view.len(),
{
    if view.len() > 0 {
        let rest = view.drop_last();
        assert forall|i: int| 0 <= i < rest.len() implies !hidden_by(
            (#[trigger] rest[i]).gid,
            rest[i].uuid,
            hidden_gids,
            hidden_uuids,
        ) by {
            assert(rest[i] == view[i]);
        }
        lemma_no_leaks(rest, surface, hidden_gids, hidden_uuids);
        assert(!hidden_by(
            view[view.len() - 1].gid,
            view[view.len() - 1].uuid,
            hidden_gids,
            hidden_uuids,
        ));
    }
}

#[verifier::spinoff_prover]
proof fn lemma_same_list_passes(
    roster: Seq<VisiblePlayer>,
    surface: SurfaceKind,
    motd_limit: Option<usize>,
)
    requires
        ascending(ids_of(roster)),
        motd_limit matches Some(limit) ==> roster.len() <= limit,
    ensures
        list_issues(roster, roster, surface, motd_limit) == Seq::<AuditIssue>::empty(),
{
    let ids = ids_of(roster);
    let lt = |a: GlobalPlayerId, b: GlobalPlayerId| a.rank() < b.rank();
    assert(crate::sorting::in_order(ids, lt)) by {
        assert forall|i: int, j: int| 0 <= i < j < ids.len() implies !lt(
            #[trigger] ids[j],
            #[trigger] ids[i],
        ) by {
            assert(ids[i].rank() < ids[j].rank());
        }
    }
    crate::sorting::lemma_sort_keeps_order(ids, lt);
    assert forall|i: int| 0 <= i < ids.len() implies ids.to_set().contains(#[trigger] ids[i]) by {}
    lemma_none_absent(ids, ids.to_set(), Some(surface), false);
    lemma_none_absent(ids, ids.to_set(), Some(surface), true);
    lemma_none_repeated(ids, surface);
    reveal(list_issues);
    assert(list_issues(roster, roster, surface, motd_limit) =~= Seq::<AuditIssue>::empty());
}

/// A list in order that holds no hidden player passes, shown as it is.
#[verifier::spinoff_prover]
proof fn lemma_honest_list_passes(
    list: Seq<VisiblePlayer>,
    surface: SurfaceKind,
    hidden_gids: Set<GlobalPlayerId>,
    hidden_uuids: Set<[u8; 16]>,
    motd_limit: Option<usize>,
)
    requires
        ascending(ids_of(list)),
        motd_limit matches Some(limit) ==> list.len() <= limit,
        forall|i: int|
            0 <= i < list.len() ==> !hidden_by(
                (#[trigger] list[i]).gid,
                list[i].uuid,
                hidden_gids,
                hidden_uuids,
            ),
    ensures
        list_issues(list, list, surface, motd_limit).len() == 0,
        leaks_in(list, surface, hidden_gids, hidden_uuids).len() == 0,
{
    lemma_same_list_passes(list, surface, motd_limit);
    lemma_no_leaks(list, surface, hidden_gids, hidden_uuids);
}

/// The first players of a roster in order are in order, and none is hidden.
#[verifier::spinoff_prover]
proof fn lemma_sample_is_clean(
    roster: Seq<VisiblePlayer>,
    hidden_gids: Set<GlobalPlayerId>,
    hidden_uuids: Set<[u8; 16]>,
    limit: int,
)
    requires
        0 <= limit,
        ascending(ids_of(roster)),
        forall|i: int|
            0 <= i < roster.len() ==> !hidden_by(
                (#[trigger] roster[i]).gid,
                roster[i].uuid,
                hidden_gids,
                hidden_uuids,
            ),
    ensures
        capped(roster, limit).len() <= limit,
        ascending(ids_of(capped(roster, limit))),
        forall|i: int|
            0 <= i < capped(roster, limit).len() ==> !hidden_by(
                (#[trigger] capped(roster, limit)[i]).gid,
                capped(roster, limit)[i].uuid,
                hidden_gids,
                hidden_uuids,
            ),
{
    let sample = capped(roster, limit);
    assert forall|i: int, j: int| 0 <= i < j < ids_of(sample).len() implies (
    #[trigger] ids_of(sample)[i]).rank() < (#[trigger] ids_of(sample)[j]).rank() by {
        assert(ids_of(roster)[i].rank() < ids_of(roster)[j].rank());
    }
    assert forall|i: int| 0 <= i < sample.len() implies !hidden_by(
        (#[trigger] sample[i]).gid,
        sample[i].uuid,
        hidden_gids,
        hidden_uuids,
    ) by {
        assert(sample[i] == roster[i]);
    }
}

/// Surfaces made from a roster that is in order and holds no hidden player
/// pass the audit against that roster.
#[verifier::spinoff_prover]
pub proof fn lemma_honest_surfaces_pass(
    roster: Seq<VisiblePlayer>,
    surfaces: PresenceSurfaces,
    hidden_gids: Set<GlobalPlayerId>,
    hidden_uuids: Set<[u8; 16]>,
    motd_limit: usize,
)
    requires
        ascending(ids_of(roster)),
        forall|i: int|
            0 <= i < roster.len() ==> !hidden_by(
                (#[trigger] roster[i]).gid,
                roster[i].uuid,
                hidden_gids,
                hidden_uuids,
            ),
        surfaces_show(surfaces, roster, motd_limit),
    ensures
        surface_issues(roster, surfaces, hidden_gids, hidden_uuids, motd_limit) == Seq::<
            AuditIssue,
        >::empty(),
{
    let sample = capped(roster, motd_limit as int);
    let limit = Some(motd_limit);
    lemma_sample_is_clean(roster, hidden_gids, hidden_uuids, motd_limit as int);
    lemma_honest_list_passes(roster, SurfaceKind::Online, hidden_gids, hidden_uuids, None);
    lemma_honest_list_passes(roster, SurfaceKind::Tab, hidden_gids, hidden_uuids, None);
    lemma_honest_list_passes(sample, SurfaceKind::Motd, hidden_gids, hidden_uuids, limit);
    lemma_sum_of_none(
        list_issues(roster, surfaces.online@, SurfaceKind::Online, None),
        list_issues(roster, surfaces.tab@, SurfaceKind::Tab, None),
        list_issues(sample, surfaces.motd_sample@, SurfaceKind::Motd, limit),
        leaks_in(surfaces.online@, SurfaceKind::Online, hidden_gids, hidden_uuids),
        leaks_in(surfaces.tab@, SurfaceKind::Tab, hidden_gids, hidden_uuids),
        leaks_in(surfaces.motd_sample@, SurfaceKind::Motd, hidden_gids, hidden_uuids),
    );
}

proof fn lemma_sum_of_none(
    a: Seq<AuditIssue>,
    b: Seq<AuditIssue>,
    c: Seq<AuditIssue>,
    d: Seq<AuditIssue>,
    e: Seq<AuditIssue>,
    f: Seq<AuditIssue>,
)
    requires
        a.len() + b.len() + c.len() + d.len() + e.len() + f.len() == 0,
    ensures
        Seq::<AuditIssue>::empty() + a + b + c + d + e + f == Seq::<AuditIssue>::empty(),
{
    assert(Seq::<AuditIssue>::empty() + a + b + c + d + e + f =~= Seq::<AuditIssue>::empty());
}

/// The roster of a table is in order and shows no hidden player.
pub proof fn lemma_roster_is_clean(
    keys: Seq<GlobalPlayerId>,
    table: Map<GlobalPlayerId, EntryModel>,
    hidden_gids: Set<GlobalPlayerId>,
    hidden_uuids: Set<[u8; 16]>,
)
    requires
        ascending(keys),
    ensures
        ({
            let shown = shown_of(keys, table, hidden_gids, hidden_uuids);
            &&& forall|i: int|
                0 <= i < shown.len() ==> !hidden_by(
                    (#[trigger] shown[i]).gid,
                    shown[i].uuid,
                    hidden_gids,
                    hidden_uuids,
                ) && keys.contains(shown[i].gid)
            &&& ascending(shown.map_values(|p: VisibleModel| p.gid))
        }),
    decreases keys.len(),
{
    if keys.len() > 0 {
        let rest = keys.drop_last();
        assert(ascending(rest)) by {
            assert forall|i: int, j: int| 0 <= i < j < rest.len() implies (
            #[trigger] rest[i]).rank() < (#[trigger] rest[j]).rank() by {
                assert(keys[i].rank() < keys[j].rank());
            }
        }
        lemma_roster_is_clean(rest, table, hidden_gids, hidden_uuids);
        let before = shown_of(rest, table, hidden_gids, hidden_uuids);
        let shown = shown_of(keys, table, hidden_gids, hidden_uuids);
        let ids = shown.map_values(|p: VisibleModel| p.gid);
        let ids_before = before.map_values(|p: VisibleModel| p.gid);
        assert forall|i: int| 0 <= i < before.len() implies keys.contains(
            (#[trigger] before[i]).gid,
        ) && before[i].gid.rank() < keys.last().rank() by {
            let j = choose|j: int| 0 <= j < rest.len() && rest[j] == before[i].gid;
            assert(keys[j] == before[i].gid);
            assert(keys[j].rank() < keys[keys.len() - 1].rank());
        }
        assert(keys.contains(keys.last())) by {
            assert(keys[keys.len() - 1] == keys.last());
        }
        assert forall|i: int| 0 <= i < shown.len() implies !hidden_by(
            (#[trigger] shown[i]).gid,
            shown[i].uuid,
            hidden_gids,
            hidden_uuids,
        ) && keys.contains(shown[i].gid) by {
            if i < before.len() {
                assert(shown[i] == before[i]);
            }
        }
        assert forall|i: int, j: int| 0 <= i < j < ids.len() implies (#[trigger] ids[i]).rank() < (
        #[trigger] ids[j]).rank() by {
            assert(ids[i] == before[i].gid);
            if j < before.len() {
                assert(ids_before[i].rank() < ids_before[j].rank());
            }
        }
    }
}

/// A player is hidden by either of its ids.
pub proof fn lemma_either_id_hides(
    gid: GlobalPlayerId,
    uuid: [u8; 16],
    hidden_gids: Set<GlobalPlayerId>,
    hidden_uuids: Set<[u8; 16]>,
)
    ensures
        hidden_by(gid, uuid, hidden_gids, hidden_uuids) <==> hidden_gids.contains(gid)
            || hidden_uuids.contains(uuid),
{
}

/// One more player is shown exactly if it is not hidden, with its id, its unique
/// id and its name.
pub proof fn lemma_next_player_is_shown(
    keys: Seq<GlobalPlayerId>,
    gid: GlobalPlayerId,
    table: Map<GlobalPlayerId, EntryModel>,
    hidden_gids: Set<GlobalPlayerId>,
    hidden_uuids: Set<[u8; 16]>,
)
    ensures
        shown_of(Seq::<GlobalPlayerId>::empty(), table, hidden_gids, hidden_uuids).len() == 0,
        ({
            let before = shown_of(keys, table, hidden_gids, hidden_uuids);
            let after = shown_of(keys.push(gid), table, hidden_gids, hidden_uuids);
            if hidden_gids.contains(gid) || hidden_uuids.contains(table[gid].uuid) {
                after == before
            } else {
                &&& after.len() == before.len() + 1
                &&& after.drop_last() == before
                &&& after.last().gid == gid
                &&& after.last().uuid == table[gid].uuid
                &&& after.last().name == table[gid].name
            }
        }),
{
    assert(keys.push(gid).drop_last() =~= keys);
    let before = shown_of(keys, table, hidden_gids, hidden_uuids);
    let one = VisibleModel { gid, uuid: table[gid].uuid, name: table[gid].name };
    assert(before.push(one).drop_last() =~= before);
}

/// Count, list and tab show the whole roster, the sample as much of its start as
/// the limit allows.
pub proof fn lemma_surfaces_show_the_roster(
    s: PresenceSurfaces,
    roster: Seq<VisiblePlayer>,
    motd_limit: usize,
    i: int,
)
    requires
        surfaces_show(s, roster, motd_limit),
    ensures
        s.count == roster.len(),
        s.online@ == roster,
        s.tab@ == roster,
        s.motd_sample@.len() <= motd_limit,
        s.motd_sample@.len() == roster.len() || s.motd_sample@.len() == motd_limit,
        0 <= i < s.motd_sample@.len() ==> s.motd_sample@[i] == roster[i],
{
}

/// What is missing, in excess or out of order is reported for the surface that it
/// concerns, and for a roster as such.
pub proof fn lemma_reports_name_their_surface(gid: GlobalPlayerId)
    ensures
        missing_on(SurfaceKind::Online, gid) == (AuditIssue::OnlineMissing { gid }),
        missing_on(SurfaceKind::Tab, gid) == (AuditIssue::TabMissing { gid }),
        missing_on(SurfaceKind::Motd, gid) == (AuditIssue::MotdMissing { gid }),
        ghost_on(SurfaceKind::Online, gid) == (AuditIssue::OnlineGhost { gid }),
        ghost_on(SurfaceKind::Tab, gid) == (AuditIssue::TabGhost { gid }),
        ghost_on(SurfaceKind::Motd, gid) == (AuditIssue::MotdGhost { gid }),
        disorder_on(SurfaceKind::Online) == AuditIssue::OnlineOrder,
        disorder_on(SurfaceKind::Tab) == AuditIssue::TabOrder,
        disorder_on(SurfaceKind::Motd) == AuditIssue::MotdOrder,
        absence(None, true, gid) == (AuditIssue::GhostEntry { gid }),
        absence(None, false, gid) == (AuditIssue::MissingEntry { gid }),
        absence(Some(SurfaceKind::Online), true, gid) == (AuditIssue::OnlineGhost { gid }),
        absence(Some(SurfaceKind::Online), false, gid) == (AuditIssue::OnlineMissing { gid }),
        absence(Some(SurfaceKind::Tab), true, gid) == (AuditIssue::TabGhost { gid }),
        absence(Some(SurfaceKind::Tab), false, gid) == (AuditIssue::TabMissing { gid }),
        absence(Some(SurfaceKind::Motd), true, gid) == (AuditIssue::MotdGhost { gid }),
        absence(Some(SurfaceKind::Motd), false, gid) == (AuditIssue::MotdMissing { gid }),
{
}

/// One more id is reported exactly if it is not present.
pub proof fn lemma_next_absence_is_reported(
    gids: Seq<GlobalPlayerId>,
    gid: GlobalPlayerId,
    present: Set<GlobalPlayerId>,
    surface: Option<SurfaceKind>,
    in_excess: bool,
)
    ensures
        absent_from(Seq::<GlobalPlayerId>::empty(), present, surface, in_excess).len() == 0,
        present.contains(gid) ==> absent_from(gids.push(gid), present, surface, in_excess)
            == absent_from(gids, present, surface, in_excess),
        !present.contains(gid) ==> absent_from(gids.push(gid), present, surface, in_excess)
            == absent_from(gids, present, surface, in_excess).push(
            absence(surface, in_excess, gid),
        ),
{
    assert(gids.push(gid).drop_last() =~= gids);
}

/// One more id is reported as repeated exactly if it stands further ahead too.
pub proof fn lemma_next_repetition_is_reported(
    gids: Seq<GlobalPlayerId>,
    gid: GlobalPlayerId,
    surface: SurfaceKind,
)
    ensures
        repeated_in(Seq::<GlobalPlayerId>::empty(), surface).len() == 0,
        !gids.contains(gid) ==> repeated_in(gids.push(gid), surface) == repeated_in(gids, surface),
        gids.contains(gid) ==> repeated_in(gids.push(gid), surface) == repeated_in(
            gids,
            surface,
        ).push((AuditIssue::DuplicateAdvertised { gid, surface })),
{
    assert(gids.push(gid).drop_last() =~= gids);
}

/// One more entry is reported as leaked exactly if it is hidden.
pub proof fn lemma_next_leak_is_reported(
    view: Seq<VisiblePlayer>,
    entry: VisiblePlayer,
    surface: SurfaceKind,
    hidden_gids: Set<GlobalPlayerId>,
    hidden_uuids: Set<[u8; 16]>,
)
    ensures
        leaks_in(Seq::<VisiblePlayer>::empty(), surface, hidden_gids, hidden_uuids).len() == 0,
        ({
            let before = leaks_in(view, surface, hidden_gids, hidden_uuids);
            let after = leaks_in(view.push(entry), surface, hidden_gids, hidden_uuids);
            if hidden_gids.contains(entry.gid) || hidden_uuids.contains(entry.uuid) {
                after == before.push(AuditIssue::HiddenLeaked { gid: entry.gid, surface })
            } else {
                after == before
            }
        }),
{
    assert(view.push(entry).drop_last() =~= view);
}

proof fn lemma_absences(
    gids: Seq<GlobalPlayerId>,
    present: Set<GlobalPlayerId>,
    surface: Option<SurfaceKind>,
    in_excess: bool,
    gid: GlobalPlayerId,
)
    ensures
        absent_from(gids, present, surface, in_excess).contains(absence(surface, in_excess, gid))
            <==> gids.contains(gid) && !present.contains(gid),
        forall|i: int|
            0 <= i < absent_from(gids, present, surface, in_excess).len() ==> exists|g:
                GlobalPlayerId|
                #[trigger] absent_from(gids, present, surface, in_excess)[i] == #[trigger] absence(
                    surface,
                    in_excess,
                    g,
                ),
    decreases gids.len(),
{
    let all = absent_from(gids, present, surface, in_excess);
    if gids.len() > 0 {
        let head = gids.drop_last();
        let last = gids.last();
        let before = absent_from(head, present, surface, in_excess);
        lemma_absences(head, present, surface, in_excess, gid);
        assert(gids[gids.len() - 1] == last);
        if head.contains(gid) {
            let j = choose|j: int| 0 <= j < head.len() && head[j] == gid;
            assert(gids[j] == gid);
        }
        if gids.contains(gid) && gid != last {
            let j = choose|j: int| 0 <= j < gids.len() && gids[j] == gid;
            assert(head[j] == gid);
        }
        let x = absence(surface, in_excess, gid);
        if before.contains(x) {
            let j = choose|j: int| 0 <= j < before.len() && before[j] == x;
            assert(all[j] == x);
        }
        if !present.contains(last) {
            assert(all[before.len() as int] == absence(surface, in_excess, last));
            if all.contains(x) {
                let j = choose|j: int| 0 <= j < all.len() && all[j] == x;
                if j < before.len() {
                    assert(before[j] == x);
                }
            }
        }
    }
}

proof fn lemma_sum_contains(a: Seq<AuditIssue>, b: Seq<AuditIssue>, x: AuditIssue)
    ensures
        (a + b).contains(x) <==> a.contains(x) || b.contains(x),
{
    if a.contains(x) {
        let j = choose|j: int| 0 <= j < a.len() && a[j] == x;
        assert((a + b)[j] == x);
    }
    if b.contains(x) {
        let j = choose|j: int| 0 <= j < b.len() && b[j] == x;
        assert((a + b)[a.len() + j] == x);
    }
}

proof fn lemma_only_repetitions(gids: Seq<GlobalPlayerId>, surface: SurfaceKind)
    ensures
        forall|i: int|
            0 <= i < repeated_in(gids, surface).len() ==> (
            #[trigger] repeated_in(gids, surface)[i]) is DuplicateAdvertised,
    decreases gids.len(),
{
    if gids.len() > 0 {
        lemma_only_repetitions(gids.drop_last(), surface);
    }
}

/// The parts of the issues of one view: who is missing, who is in excess, who is
/// shown twice, whether the order is wrong and whether there are too many.
pub proof fn lemma_issues_of_a_view(
    expected: Seq<VisiblePlayer>,
    advertised: Seq<VisiblePlayer>,
    surface: SurfaceKind,
    motd_limit: Option<usize>,
    gid: GlobalPlayerId,
)
    ensures
        ({
            let issues = list_issues(expected, advertised, surface, motd_limit);
            let should = exists|i: int| 0 <= i < expected.len() && (#[trigger] expected[i]).gid == gid;
            let does = exists|i: int|
                0 <= i < advertised.len() && (#[trigger] advertised[i]).gid == gid;
            &&& issues.contains(missing_on(surface, gid)) <==> should && !does
            &&& issues.contains(ghost_on(surface, gid)) <==> does && !should
        }),
{
    reveal(list_issues);
    let lt = |a: GlobalPlayerId, b: GlobalPlayerId| a.rank() < b.rank();
    let (e, a) = (ids_of(expected), ids_of(advertised));
    crate::sorting::lemma_sort_contains(e, lt, gid);
    crate::sorting::lemma_sort_contains(a, lt, gid);
    let missing = absent_from(sorted_ids_of(expected), a.to_set(), Some(surface), false);
    let ghosts = absent_from(sorted_ids_of(advertised), e.to_set(), Some(surface), true);
    let twice = repeated_in(sorted_ids_of(advertised), surface);
    let order = if a != sorted_ids_of(advertised) {
        seq![disorder_on(surface)]
    } else {
        Seq::empty()
    };
    let over = match motd_limit {
        Some(limit) => if advertised.len() > limit {
            seq![AuditIssue::MotdOverLimit { len: advertised.len() as usize, limit }]
        } else {
            Seq::empty()
        },
        None => Seq::empty(),
    };
    lemma_absences(sorted_ids_of(expected), a.to_set(), Some(surface), false, gid);
    lemma_absences(sorted_ids_of(advertised), e.to_set(), Some(surface), true, gid);
    lemma_only_repetitions(sorted_ids_of(advertised), surface);
    lemma_ids_are_shown(expected, gid);
    lemma_ids_are_shown(advertised, gid);
    let m = missing_on(surface, gid);
    let g = ghost_on(surface, gid);
    lemma_sum_contains(missing, ghosts, m);
    lemma_sum_contains(missing + ghosts, twice, m);
    lemma_sum_contains(missing + ghosts + twice, order, m);
    lemma_sum_contains(missing + ghosts + twice + order, over, m);
    lemma_sum_contains(missing, ghosts, g);
    lemma_sum_contains(missing + ghosts, twice, g);
    lemma_sum_contains(missing + ghosts + twice, order, g);
    lemma_sum_contains(missing + ghosts + twice + order, over, g);
}

proof fn lemma_ids_are_shown(view: Seq<VisiblePlayer>, gid: GlobalPlayerId)
    ensures
        ids_of(view).contains(gid) <==> exists|i: int|
            0 <= i < view.len() && (#[trigger] view[i]).gid == gid,
        shows_player(view, gid) <==> ids_of(view).contains(gid),
{
    if ids_of(view).contains(gid) {
        let i = choose|i: int| 0 <= i < ids_of(view).len() && ids_of(view)[i] == gid;
        assert(view[i].gid == gid);
    }
    if exists|i: int| 0 <= i < view.len() && (#[trigger] view[i]).gid == gid {
        let i = choose|i: int| 0 <= i < view.len() && (#[trigger] view[i]).gid == gid;
        assert(ids_of(view)[i] == gid);
    }
}

/// The last entry of a player is found, and none exactly if it has none.
pub proof fn lemma_last_entry_is_found(
    roster: Seq<VisiblePlayer>,
    last: VisiblePlayer,
    gid: GlobalPlayerId,
)
    ensures
        last_entry(Seq::<VisiblePlayer>::empty(), gid) is None,
        last_entry(roster.push(last), last.gid) == Some(last),
        gid != last.gid ==> last_entry(roster.push(last), gid) == last_entry(roster, gid),
{
    assert(roster.push(last).drop_last() =~= roster);
}

/// A local entry that a peer lacks is reported as missing; one that it has is
/// reported for another unique id and for another name, each on its own.
pub proof fn lemma_entries_are_held_against_the_peer(
    entry: VisiblePlayer,
    peer: Seq<VisiblePlayer>,
    local: Seq<VisiblePlayer>,
)
    ensures
        local_issues(Seq::<VisiblePlayer>::empty(), peer).len() == 0,
        local_issues(local.push(entry), peer) == local_issues(local, peer) + entry_issues(
            entry,
            peer,
        ),
        match last_entry(peer, entry.gid) {
            None => entry_issues(entry, peer) == seq![
                AuditIssue::MissingEntry { gid: entry.gid },
            ],
            Some(other) => {
                &&& other.uuid == entry.uuid && other.name@ == entry.name@ ==> entry_issues(
                    entry,
                    peer,
                ).len() == 0
                &&& other.uuid != entry.uuid && other.name@ == entry.name@ ==> entry_issues(
                    entry,
                    peer,
                ) == seq![AuditIssue::UuidMismatch { gid: entry.gid }]
                &&& other.uuid == entry.uuid && other.name@ != entry.name@ ==> entry_issues(
                    entry,
                    peer,
                ) == seq![AuditIssue::NameMismatch { gid: entry.gid }]
                &&& other.uuid != entry.uuid && other.name@ != entry.name@ ==> entry_issues(
                    entry,
                    peer,
                ) == seq![
                    AuditIssue::UuidMismatch { gid: entry.gid },
                    AuditIssue::NameMismatch { gid: entry.gid },
                ]
            },
        },
{
    assert(local.push(entry).drop_last() =~= local);
}

/// An entry of a peer is reported in excess exactly if it is not known here, and
/// as leaked exactly if it is hidden here.
pub proof fn lemma_peer_entries_are_judged(
    peer: Seq<VisiblePlayer>,
    entry: VisiblePlayer,
    local: Seq<VisiblePlayer>,
    hidden_gids: Set<GlobalPlayerId>,
    hidden_uuids: Set<[u8; 16]>,
)
    ensures
        peer_issues(Seq::<VisiblePlayer>::empty(), local, hidden_gids, hidden_uuids).len() == 0,
        ({
            let before = peer_issues(peer, local, hidden_gids, hidden_uuids);
            let after = peer_issues(peer.push(entry), local, hidden_gids, hidden_uuids);
            let unknown = last_entry(local, entry.gid) is None;
            let hidden = hidden_gids.contains(entry.gid) || hidden_uuids.contains(entry.uuid);
            let excess = AuditIssue::GhostEntry { gid: entry.gid };
            let leak = AuditIssue::HiddenLeaked {
                gid: entry.gid,
                surface: SurfaceKind::Online,
            };
            &&& unknown && hidden ==> after == before + seq![excess, leak]
            &&& unknown && !hidden ==> after == before.push(excess)
            &&& !unknown && hidden ==> after == before.push(leak)
            &&& !unknown && !hidden ==> after == before
        }),
{
    assert(peer.push(entry).drop_last() =~= peer);
}

/// An entry is reported for an id, a unique id or a name in any spelling that
/// stands further ahead, and for a name that does not fit; a sound roster has no
/// issues.
pub proof fn lemma_entries_are_unique(before: Seq<VisiblePlayer>, entry: VisiblePlayer)
    ensures
        integrity_issues(Seq::<VisiblePlayer>::empty()).len() == 0,
        integrity_issues(before.push(entry)) == integrity_issues(before) + integrity_of(
            before,
            entry,
        ),
        ({
            let gid = exists|j: int| 0 <= j < before.len() && (#[trigger] before[j]).gid == entry.gid;
            let uuid = exists|j: int|
                0 <= j < before.len() && (#[trigger] before[j]).uuid == entry.uuid;
            let name = exists|j: int|
                0 <= j < before.len() && lowercase_of((#[trigger] before[j]).name@) == lowercase_of(
                    entry.name@,
                );
            let found = integrity_of(before, entry);
            &&& found.len() == (if gid {
                1int
            } else {
                0
            }) + (if uuid {
                1int
            } else {
                0
            }) + (if name_fits(entry.name@) {
                0int
            } else {
                1
            }) + (if name {
                1int
            } else {
                0
            })
            &&& gid ==> found[0] == (AuditIssue::GhostEntry { gid: entry.gid })
            &&& uuid && !gid ==> found[0] == (AuditIssue::DuplicateUuid { uuid: entry.uuid })
            &&& !uuid && !gid && !name_fits(entry.name@) ==> found[0]
                == (AuditIssue::InvalidName { gid: entry.gid })
            &&& name ==> found.last() == (AuditIssue::DuplicateName { name: entry.name })
        }),
{
    assert(before.push(entry).drop_last() =~= before);
}

/// Hiding a player that was shown is at fault exactly if it is still shown, and
/// hiding one that was not, or showing one, exactly if it is not shown afterwards.
/// Everyone else has to be shown as before.
pub proof fn lemma_transitions_are_judged(
    before: Seq<VisiblePlayer>,
    after: Seq<VisiblePlayer>,
    gid: GlobalPlayerId,
    hidden: bool,
    other: GlobalPlayerId,
)
    requires
        other != gid,
    ensures
        ({
            let issues = transition_issues(before, after, gid, hidden);
            let had = exists|i: int| 0 <= i < before.len() && (#[trigger] before[i]).gid == gid;
            let still = exists|i: int| 0 <= i < after.len() && (#[trigger] after[i]).gid == gid;
            let was = exists|i: int| 0 <= i < before.len() && (#[trigger] before[i]).gid == other;
            let is = exists|i: int| 0 <= i < after.len() && (#[trigger] after[i]).gid == other;
            let leak = AuditIssue::HiddenLeaked { gid, surface: SurfaceKind::Online };
            &&& issues.contains(leak) <==> hidden && had && still
            &&& issues.contains(AuditIssue::MissingEntry { gid }) <==> !still && (!hidden || !had)
            &&& issues.contains(AuditIssue::GhostEntry { gid: other }) <==> is && !was
            &&& issues.contains(AuditIssue::MissingEntry { gid: other }) <==> was && !is
        }),
{
    let (b, a) = (ids_of(before), ids_of(after));
    let excess = unmatched(after, before, gid, true);
    let missing = unmatched(before, after, gid, false);
    let had = shows_player(before, gid);
    let still = shows_player(after, gid);
    let own = if hidden && had && still {
        seq![AuditIssue::HiddenLeaked { gid, surface: SurfaceKind::Online }]
    } else if !still && (!hidden || !had) {
        seq![AuditIssue::MissingEntry { gid }]
    } else {
        Seq::empty()
    };
    lemma_ids_are_shown(before, gid);
    lemma_ids_are_shown(after, gid);
    lemma_ids_are_shown(before, other);
    lemma_ids_are_shown(after, other);
    lemma_absences(a, b.to_set().insert(gid), None, true, other);
    lemma_absences(b, a.to_set().insert(gid), None, false, other);
    lemma_absences(a, b.to_set().insert(gid), None, true, gid);
    lemma_absences(b, a.to_set().insert(gid), None, false, gid);
    let leak = AuditIssue::HiddenLeaked { gid, surface: SurfaceKind::Online };
    let gone = AuditIssue::MissingEntry { gid };
    let more = AuditIssue::GhostEntry { gid: other };
    let less = AuditIssue::MissingEntry { gid: other };
    lemma_sum_contains(own, excess, leak);
    lemma_sum_contains(own + excess, missing, leak);
    lemma_sum_contains(own, excess, gone);
    lemma_sum_contains(own + excess, missing, gone);
    lemma_sum_contains(own, excess, more);
    lemma_sum_contains(own + excess, missing, more);
    lemma_sum_contains(own, excess, less);
    lemma_sum_contains(own + excess, missing, less);
    if own.len() > 0 {
        assert(own.contains(own[0]));
    }
}

/// An audit of surfaces reports a wrong count first, then the issues of the list,
/// the tab and the sample, then what leaked on each of them.
pub proof fn lemma_every_surface_is_audited(
    expected: Seq<VisiblePlayer>,
    shown: PresenceSurfaces,
    hidden_gids: Set<GlobalPlayerId>,
    hidden_uuids: Set<[u8; 16]>,
    motd_limit: usize,
)
    ensures
        ({
            let all = surface_issues(expected, shown, hidden_gids, hidden_uuids, motd_limit);
            let sample = if expected.len() <= motd_limit {
                expected
            } else {
                expected.take(motd_limit as int)
            };
            let rest = list_issues(expected, shown.online@, SurfaceKind::Online, None)
                + list_issues(expected, shown.tab@, SurfaceKind::Tab, None) + list_issues(
                sample,
                shown.motd_sample@,
                SurfaceKind::Motd,
                Some(motd_limit),
            ) + leaks_in(shown.online@, SurfaceKind::Online, hidden_gids, hidden_uuids) + leaks_in(
                shown.tab@,
                SurfaceKind::Tab,
                hidden_gids,
                hidden_uuids,
            ) + leaks_in(shown.motd_sample@, SurfaceKind::Motd, hidden_gids, hidden_uuids);
            &&& shown.count == expected.len() ==> all == rest
            &&& shown.count != expected.len() ==> all.len() == rest.len() + 1 && all[0]
                is CountMismatch && all.skip(1) == rest
        }),
{
    let all = surface_issues(expected, shown, hidden_gids, hidden_uuids, motd_limit);
    let online = list_issues(expected, shown.online@, SurfaceKind::Online, None);
    if shown.count == expected.len() {
        assert(Seq::<AuditIssue>::empty() + online =~= online);
    }
}

} // verus!
