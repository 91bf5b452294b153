//! Players that are hidden from every list.

use vstd::prelude::*;
use crate::identity::GlobalPlayerId;
use crate::keyed::KeySet;
use crate::presence::{is_valid_presence_name, name_fits};
use crate::protocol::StreamKind;

verus! {

/// A hide update could not be encoded or decoded.
#[derive(Debug, Clone, PartialEq, Eq)]
pub struct HideError {
    pub message: String,
}

/// A player is hidden or shown again.
#[derive(Debug, Clone, PartialEq, Eq)]
pub struct HideUpdate {
    pub gid: GlobalPlayerId,
    pub uuid: [u8; 16],
    pub name: String,
    pub hidden: bool,
}

impl HideUpdate {
    pub fn new(gid: GlobalPlayerId, uuid: [u8; 16], name: String, hidden: bool) -> (u: Self)
        ensures
            u == (HideUpdate { gid, uuid, name, hidden }),
    {
        HideUpdate { gid, uuid, name, hidden }
    }
}

/// The stream of hide updates.
pub fn hide_control_kind() -> (k: StreamKind)
    ensures
        k == StreamKind::Control,
{
    StreamKind::Control
}

/// Whether a name is neither empty nor too long.
pub fn is_valid_hide_name(name: &str) -> (b: bool)
    ensures
        b == name_fits(name@),
{
    is_valid_presence_name(name)
}

/// The hidden ones after an update about `one`; an update with a bad name is ignored.
pub open spec fn hidden_after<A>(hidden: Set<A>, update: HideUpdate, one: A) -> Set<A> {
    if !name_fits(update.name@) {
        hidden
    } else if update.hidden {
        hidden.insert(one)
    } else {
        hidden.remove(one)
    }
}

/// Hides a player by both of its ids, or shows it again; reports whether
/// anything changed. An update with a bad name changes nothing.
pub fn apply_hide_to_sets(
    gids: &mut KeySet<GlobalPlayerId>,
    uuids: &mut KeySet<[u8; 16]>,
    update: &HideUpdate,
) -> (changed: bool)
    ensures
        changed == (final(gids)@ != old(gids)@ || final(uuids)@ != old(uuids)@),
        final(gids)@ == hidden_after(old(gids)@, *update, update.gid),
        final(uuids)@ == hidden_after(old(uuids)@, *update, update.uuid),
{
    if !is_valid_hide_name(update.name.as_str()) {
        return false;
    }
    let ghost g = gids@;
    let ghost u = uuids@;
    if update.hidden {
        let fresh_gid: bool = gids.insert(update.gid);
        let fresh_uuid: bool = uuids.insert(update.uuid);
        proof {
            if !fresh_gid {
                assert(gids@ =~= g);
            } else {
                assert(gids@.contains(update.gid) && !g.contains(update.gid));
            }
            if !fresh_uuid {
                assert(uuids@ =~= u);
            } else {
                assert(uuids@.contains(update.uuid) && !u.contains(update.uuid));
            }
        }
        fresh_gid || fresh_uuid
    } else {
        let had_gid: bool = gids.remove(&update.gid);
        let had_uuid: bool = uuids.remove(&update.uuid);
        proof {
            if !had_gid {
                assert(gids@ =~= g);
            } else {
                assert(!gids@.contains(update.gid) && g.contains(update.gid));
            }
            if !had_uuid {
                assert(uuids@ =~= u);
            } else {
                assert(!uuids@.contains(update.uuid) && u.contains(update.uuid));
            }
        }
        had_gid || had_uuid
    }
}

pub fn hide_set_contains_gid(set: &KeySet<GlobalPlayerId>, gid: &GlobalPlayerId) -> (b: bool)
    ensures
        b == set@.contains(*gid),
{
    set.contains(gid)
}

pub fn hide_set_contains_uuid(set: &KeySet<[u8; 16]>, uuid: &[u8; 16]) -> (b: bool)
    ensures
        b == set@.contains(*uuid),
{
    set.contains(uuid)
}

/// Showing a player again undoes hiding it, and an update that comes twice does
/// nothing the second time.
pub proof fn lemma_showing_undoes_hiding<A>(
    hidden: Set<A>,
    hide_update: HideUpdate,
    show_update: HideUpdate,
    one: A,
)
    requires
        name_fits(hide_update.name@),
        name_fits(show_update.name@),
        hide_update.hidden,
        !show_update.hidden,
        !hidden.contains(one),
    ensures
        hidden_after(hidden_after(hidden, hide_update, one), show_update, one) == hidden,
        hidden_after(hidden_after(hidden, hide_update, one), hide_update, one) == hidden_after(
            hidden,
            hide_update,
            one,
        ),
{
    assert(hidden.insert(one).remove(one) =~= hidden);
    assert(hidden.insert(one).insert(one) =~= hidden.insert(one));
}

/// An update with a sound name hides its player or shows it, and touches nobody
/// else; one with a bad name changes nothing.
pub proof fn lemma_hiding_concerns_one<A>(hidden: Set<A>, update: HideUpdate, one: A, other: A)
    ensures
        name_fits(update.name@) ==> (hidden_after(hidden, update, one).contains(one)
            <==> update.hidden),
        other != one ==> (hidden_after(hidden, update, one).contains(other) <==> hidden.contains(
            other,
        )),
        !name_fits(update.name@) ==> hidden_after(hidden, update, one) == hidden,
{
}

} // verus!
