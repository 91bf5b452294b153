//! The primary: it alone has a disk, saves every accepted tick and serves
//! snapshots to the secondaries. It hosts no players.

use vstd::prelude::*;
use crate::bytes::{copy_of, same_bytes, same_id};
use crate::keyed::{Key, KeyMap, listed, lists};
use crate::sorting::{sort_stable, stable_sorted};
use crate::time::TickStamp;

verus! {

/// Length of the queue of accepted ticks.
pub const DEFAULT_PRIMARY_SAVE_QUEUE_CAPACITY: usize = 64;

/// Length of the queue of snapshot requests.
pub const DEFAULT_PRIMARY_SNAPSHOT_QUEUE_CAPACITY: usize = 16;

pub const PRIMARY_HOSTS_PLAYERS: bool = false;

/// A tick that every peer accepted, with the encoded change that it brings.
#[derive(Debug, PartialEq, Eq)]
pub struct AcceptedTick {
    pub tick: TickStamp,
    pub payload: Vec<u8>,
}

/// Offers an accepted tick to the queue of the primary; a queue without room
/// gives it back.
pub fn try_submit<O: FnOnce(AcceptedTick) -> Result<(), AcceptedTick>>(
    offer: O,
    tick: TickStamp,
    payload: Vec<u8>,
) -> (r: Result<(), AcceptedTick>)
    requires
        call_requires(offer, (AcceptedTick { tick, payload },)),
    ensures
        call_ensures(offer, (AcceptedTick { tick, payload },), r),
{
    let offered = AcceptedTick { tick, payload };
    offer(offered)
}

pub fn primary_accepts_players() -> (b: bool)
    ensures
        !b,
{
    PRIMARY_HOSTS_PLAYERS
}

/// A player tried to join the primary.
#[derive(Debug, Clone, Copy, PartialEq, Eq, Structural)]
pub struct PrimaryJoinRejection;

impl PrimaryJoinRejection {
    /// Where the player should go instead.
    pub fn reason(self) -> (r: &'static str)
        ensures
            r@ == "primary hosts no players; join a secondary"@,
    {
        "primary hosts no players; join a secondary"
    }
}

/// The answer to every player that wants to join the primary.
pub fn check_player_login() -> (r: Result<(), PrimaryJoinRejection>)
    ensures
        r == Err::<(), PrimaryJoinRejection>(PrimaryJoinRejection),
{
    Err(PrimaryJoinRejection)
}

/// The saved data of one player.
#[derive(Debug, PartialEq, Eq)]
pub struct PlayerdataRecord {
    pub player_id: [u8; 16],
    pub bytes: Vec<u8>,
}

/// What a record says.
#[verifier::ext_equal]
pub ghost struct RecordModel {
    pub player_id: [u8; 16],
    pub bytes: Seq<u8>,
}

impl View for PlayerdataRecord {
    type V = RecordModel;

    open spec fn view(&self) -> RecordModel {
        RecordModel { player_id: self.player_id, bytes: self.bytes@ }
    }
}

impl PlayerdataRecord {
    pub fn new(player_id: [u8; 16], bytes: Vec<u8>) -> (r: Self)
        ensures
            r == (PlayerdataRecord { player_id, bytes }),
    {
        PlayerdataRecord { player_id, bytes }
    }

    /// Length of the data.
    pub fn len(&self) -> (n: usize)
        ensures
            n == self.bytes@.len(),
    {
        self.bytes.len()
    }

    pub fn is_empty(&self) -> (b: bool)
        ensures
            b == (self.bytes@.len() == 0),
    {
        self.bytes.len() == 0
    }
}

impl Clone for PlayerdataRecord {
    fn clone(&self) -> (r: Self)
        ensures
            r@ == self@,
    {
        PlayerdataRecord { player_id: self.player_id, bytes: copy_of(self.bytes.as_slice()) }
    }
}

/// The records as mathematical values.
pub open spec fn record_models(s: Seq<PlayerdataRecord>) -> Seq<RecordModel> {
    s.map_values(|r: PlayerdataRecord| r@)
}

/// Records are ordered by player.
pub open spec fn record_before(a: RecordModel, b: RecordModel) -> bool {
    a.player_id.rank() < b.player_id.rank()
}

fn sort_records(records: &mut Vec<PlayerdataRecord>)
    ensures
        record_models(final(records)@) == stable_sorted(
            record_models(old(records)@),
            |a: RecordModel, b: RecordModel| record_before(a, b),
        ),
{
    let ghost start = records@;
    let ghost lt = |a: PlayerdataRecord, b: PlayerdataRecord| record_before(a@, b@);
    let before = |a: &PlayerdataRecord, b: &PlayerdataRecord| -> (r: bool)
        ensures
            r == record_before(a@, b@),
        { a.player_id.precedes(&b.player_id) };
    sort_stable(records.as_mut_slice(), before, Ghost(lt));
    proof {
        crate::sorting::lemma_sort_map(
            start,
            lt,
            |r: PlayerdataRecord| r@,
            |a: RecordModel, b: RecordModel| record_before(a, b),
        );
    }
}

fn copy_records(records: &Vec<PlayerdataRecord>) -> (r: Vec<PlayerdataRecord>)
    ensures
        record_models(r@) == record_models(records@),
{
    let mut r: Vec<PlayerdataRecord> = Vec::new();
    let mut i: usize = 0;
    while i < records.len()
        invariant
            i <= records@.len(),
            r@.len() == i,
            forall|j: int| 0 <= j < i ==> (#[trigger] r@[j])@ == records@[j]@,
        decreases records@.len() - i,
    {
        r.push(records[i].clone());
        i = i + 1;
    }
    assert(record_models(r@) =~= record_models(records@));
    r
}

/// Everything that the primary saves, at one moment.
#[derive(Debug, PartialEq, Eq)]
pub struct WorldSnapshot {
    /// The newest tick in it, if there was one.
    pub tick: Option<TickStamp>,
    pub world_bytes: Vec<u8>,
    /// In the order of the players.
    pub playerdata: Vec<PlayerdataRecord>,
}

/// What a snapshot or a disk image says.
#[verifier::ext_equal]
pub ghost struct ImageModel {
    pub tick: Option<TickStamp>,
    pub world_bytes: Seq<u8>,
    pub playerdata: Seq<RecordModel>,
}

impl View for WorldSnapshot {
    type V = ImageModel;

    open spec fn view(&self) -> ImageModel {
        ImageModel {
            tick: self.tick,
            world_bytes: self.world_bytes@,
            playerdata: record_models(self.playerdata@),
        }
    }
}

impl WorldSnapshot {
    /// A snapshot with its records in the order of the players.
    pub fn new(
        tick: Option<TickStamp>,
        world_bytes: Vec<u8>,
        playerdata: Vec<PlayerdataRecord>,
    ) -> (s: Self)
        ensures
            s@ == (ImageModel {
                tick,
                world_bytes: world_bytes@,
                playerdata: stable_sorted(
                    record_models(playerdata@),
                    |a: RecordModel, b: RecordModel| record_before(a, b),
                ),
            }),
    {
        let mut records: Vec<PlayerdataRecord> = playerdata;
        sort_records(&mut records);
        WorldSnapshot { tick, world_bytes, playerdata: records }
    }

    /// Whether there is neither a world nor a record.
    pub fn is_empty(&self) -> (b: bool)
        ensures
            b == (self.world_bytes@.len() == 0 && self.playerdata@.len() == 0),
    {
        self.world_bytes.len() == 0 && self.playerdata.len() == 0
    }

    /// Number of records.
    pub fn player_count(&self) -> (n: usize)
        ensures
            n == self.playerdata@.len(),
    {
        self.playerdata.len()
    }

    /// The first record of a player.
    pub fn player(&self, player_id: &[u8; 16]) -> (r: Option<&PlayerdataRecord>)
        ensures
            r is None <==> forall|i: int|
                0 <= i < self.playerdata@.len() ==> (#[trigger] self.playerdata@[i]).player_id
                    != *player_id,
            r matches Some(record) ==> exists|i: int|
                0 <= i < self.playerdata@.len() && #[trigger] self.playerdata@[i] == *record
                    && record.player_id == *player_id && forall|j: int|
                    0 <= j < i ==> (#[trigger] self.playerdata@[j]).player_id != *player_id,
    {
        let mut i: usize = 0;
        while i < self.playerdata.len()
            invariant
                i <= self.playerdata@.len(),
                forall|j: int|
                    0 <= j < i ==> (#[trigger] self.playerdata@[j]).player_id != *player_id,
            decreases self.playerdata@.len() - i,
        {
            if same_id(&self.playerdata[i].player_id, player_id) {
                assert(self.playerdata@[i as int].player_id == *player_id);
                return Some(&self.playerdata[i]);
            }
            i = i + 1;
        }
        None
    }
}

impl Clone for WorldSnapshot {
    fn clone(&self) -> (s: Self)
        ensures
            s@ == self@,
    {
        WorldSnapshot {
            tick: self.tick,
            world_bytes: copy_of(self.world_bytes.as_slice()),
            playerdata: copy_records(&self.playerdata),
        }
    }
}

/// What the primary reads from disk at start and writes after every tick.
#[derive(Debug, PartialEq, Eq)]
pub struct PrimaryLoad {
    pub tick: Option<TickStamp>,
    pub world_bytes: Vec<u8>,
    pub playerdata: Vec<PlayerdataRecord>,
}

impl View for PrimaryLoad {
    type V = ImageModel;

    open spec fn view(&self) -> ImageModel {
        ImageModel {
            tick: self.tick,
            world_bytes: self.world_bytes@,
            playerdata: record_models(self.playerdata@),
        }
    }
}

impl PrimaryLoad {
    /// The image of a disk without a save.
    pub fn empty() -> (l: Self)
        ensures
            l@ == (ImageModel { tick: None, world_bytes: Seq::empty(), playerdata: Seq::empty() }),
    {
        let l = PrimaryLoad { tick: None, world_bytes: Vec::new(), playerdata: Vec::new() };
        assert(l@.playerdata =~= Seq::<RecordModel>::empty());
        l
    }

    /// Whether there is neither a world nor a record.
    pub fn is_empty(&self) -> (b: bool)
        ensures
            b == (self.world_bytes@.len() == 0 && self.playerdata@.len() == 0),
    {
        self.world_bytes.len() == 0 && self.playerdata.len() == 0
    }

    /// Number of records.
    pub fn player_count(&self) -> (n: usize)
        ensures
            n == self.playerdata@.len(),
    {
        self.playerdata.len()
    }
}

impl Default for PrimaryLoad {
    fn default() -> (l: Self)
        ensures
            l@ == (ImageModel { tick: None, world_bytes: Seq::empty(), playerdata: Seq::empty() }),
    {
        PrimaryLoad::empty()
    }
}

/// What the primary has staged.
#[verifier::ext_equal]
pub ghost struct StagedModel {
    pub last_tick: Option<TickStamp>,
    pub world_bytes: Seq<u8>,
    pub players: Map<[u8; 16], Seq<u8>>,
}

/// The records of a list, the last one of each player.
pub open spec fn players_of(records: Seq<RecordModel>) -> Map<[u8; 16], Seq<u8>>
    decreases records.len(),
{
    if records.len() == 0 {
        Map::empty()
    } else {
        players_of(records.drop_last()).insert(records.last().player_id, records.last().bytes)
    }
}

/// One record for each player, in the order of the players.
pub open spec fn records_of(players: Map<[u8; 16], Seq<u8>>) -> Seq<RecordModel> {
    listed(players.dom()).map_values(
        |id: [u8; 16]| RecordModel { player_id: id, bytes: players[id] },
    )
}

/// The image of what is staged.
pub open spec fn image_of(m: StagedModel) -> ImageModel {
    ImageModel {
        tick: m.last_tick,
        world_bytes: m.world_bytes,
        playerdata: records_of(m.players),
    }
}

/// What an image stages.
pub open spec fn staged_from(image: ImageModel) -> StagedModel {
    StagedModel {
        last_tick: image.tick,
        world_bytes: image.world_bytes,
        players: players_of(image.playerdata),
    }
}

/// The data of the players as mathematical values.
pub open spec fn byte_strings(m: Map<[u8; 16], Vec<u8>>) -> Map<[u8; 16], Seq<u8>> {
    m.map_values(|v: Vec<u8>| v@)
}

/// The state of the primary: the world and the players to save next.
#[derive(Debug, PartialEq, Eq)]
pub struct PrimaryState {
    last_tick: Option<TickStamp>,
    world_bytes: Vec<u8>,
    playerdata: KeyMap<[u8; 16], Vec<u8>>,
}

impl View for PrimaryState {
    type V = StagedModel;

    closed spec fn view(&self) -> StagedModel {
        StagedModel {
            last_tick: self.last_tick,
            world_bytes: self.world_bytes@,
            players: byte_strings(self.playerdata@),
        }
    }
}

impl PrimaryState {
    /// Nothing staged.
    pub fn empty() -> (s: Self)
        ensures
            s@ == (StagedModel {
                last_tick: None,
                world_bytes: Seq::empty(),
                players: Map::empty(),
            }),
    {
        let s = PrimaryState { last_tick: None, world_bytes: Vec::new(), playerdata: KeyMap::new() };
        assert(s@.players =~= Map::<[u8; 16], Seq<u8>>::empty());
        s
    }

    /// Stages what was read from disk.
    pub fn from_load(load: &PrimaryLoad) -> (s: Self)
        ensures
            s@ == staged_from(load@),
    {
        let mut playerdata: KeyMap<[u8; 16], Vec<u8>> = KeyMap::new();
        let ghost all = record_models(load.playerdata@);
        let mut i: usize = 0;
        proof {
            assert(byte_strings(playerdata@) =~= players_of(all.take(0)));
        }
        while i < load.playerdata.len()
            invariant
                i <= load.playerdata@.len(),
                all == record_models(load.playerdata@),
                byte_strings(playerdata@) == players_of(all.take(i as int)),
            decreases load.playerdata@.len() - i,
        {
            let record = &load.playerdata[i];
            let ghost was = playerdata@;
            let bytes = copy_of(record.bytes.as_slice());
            let ghost text = bytes@;
            let _ = playerdata.insert(record.player_id, bytes);
            proof {
                assert(all.take(i + 1).drop_last() =~= all.take(i as int));
                assert(all.take(i + 1).last() == record@);
                assert(byte_strings(playerdata@) =~= byte_strings(was).insert(
                    record.player_id,
                    text,
                ));
            }
            i = i + 1;
        }
        proof {
            assert(all.take(i as int) =~= all);
        }
        PrimaryState {
            last_tick: load.tick,
            world_bytes: copy_of(load.world_bytes.as_slice()),
            playerdata,
        }
    }

    fn records(&self) -> (r: Vec<PlayerdataRecord>)
        ensures
            record_models(r@) == records_of(self@.players),
            lists(listed(self@.players.dom()), self@.players.dom()),
    {
        let keys = self.playerdata.key_list();
        let mut r: Vec<PlayerdataRecord> = Vec::new();
        let mut i: usize = 0;
        proof {
            assert(self@.players.dom() =~= self.playerdata@.dom());
            crate::keyed::lemma_listed(keys@, self@.players.dom());
        }
        while i < keys.len()
            invariant
                i <= keys@.len(),
                keys@ == self.playerdata.keys(),
                lists(keys@, self.playerdata@.dom()),
                r@.len() == i,
                forall|j: int|
                    0 <= j < i ==> (#[trigger] r@[j])@ == (RecordModel {
                        player_id: keys@[j],
                        bytes: self@.players[keys@[j]],
                    }),
            decreases keys@.len() - i,
        {
            let bytes = copy_of(self.playerdata.value_at(i).as_slice());
            r.push(PlayerdataRecord::new(keys[i], bytes));
            i = i + 1;
        }
        assert(record_models(r@) =~= records_of(self@.players));
        r
    }

    /// Turns what is staged into a disk image.
    pub fn into_load(self) -> (l: PrimaryLoad)
        ensures
            l@ == image_of(self@),
            lists(listed(self@.players.dom()), self@.players.dom()),
    {
        let playerdata = self.records();
        PrimaryLoad { tick: self.last_tick, world_bytes: self.world_bytes, playerdata }
    }

    /// Stages the change of a tick as the newest world.
    pub fn apply_accepted(&mut self, tick: &AcceptedTick)
        ensures
            final(self)@ == (StagedModel {
                last_tick: Some(tick.tick),
                world_bytes: tick.payload@,
                ..old(self)@
            }),
    {
        self.note_tick(tick.tick);
        self.stage_world(copy_of(tick.payload.as_slice()));
    }

    /// Notes the newest tick.
    pub fn note_tick(&mut self, tick: TickStamp)
        ensures
            final(self)@ == (StagedModel { last_tick: Some(tick), ..old(self)@ }),
    {
        self.last_tick = Some(tick);
    }

    /// Stages a world.
    pub fn stage_world(&mut self, bytes: Vec<u8>)
        ensures
            final(self)@ == (StagedModel { world_bytes: bytes@, ..old(self)@ }),
    {
        self.world_bytes = bytes;
    }

    /// Stages the data of a player; reports whether that changed anything.
    pub fn remember_playerdata(&mut self, record: PlayerdataRecord) -> (changed: bool)
        ensures
            changed == !(old(self)@.players.dom().contains(record.player_id)
                && old(self)@.players[record.player_id] == record.bytes@),
            final(self)@ == (StagedModel {
                players: old(self)@.players.insert(record.player_id, record.bytes@),
                ..old(self)@
            }),
    {
        let ghost before = self@;
        let same: bool = match self.playerdata.get(&record.player_id) {
            None => false,
            Some(current) => same_bytes(current.as_slice(), record.bytes.as_slice()),
        };
        if same {
            proof {
                assert(before.players.insert(record.player_id, record.bytes@)
                    =~= before.players);
            }
            return false;
        }
        let ghost was = self.playerdata@;
        let ghost text = record.bytes@;
        let _ = self.playerdata.insert(record.player_id, record.bytes);
        proof {
            assert(byte_strings(self.playerdata@) =~= byte_strings(was).insert(
                record.player_id,
                text,
            ));
        }
        true
    }

    /// Drops the data of a player; reports whether there was any.
    pub fn forget_playerdata(&mut self, player_id: &[u8; 16]) -> (had: bool)
        ensures
            had == old(self)@.players.dom().contains(*player_id),
            final(self)@ == (StagedModel {
                players: old(self)@.players.remove(*player_id),
                ..old(self)@
            }),
    {
        let ghost was = self.playerdata@;
        let had: bool = self.playerdata.remove(player_id).is_some();
        proof {
            assert(byte_strings(self.playerdata@) =~= byte_strings(was).remove(*player_id));
        }
        had
    }

    /// A snapshot of what is staged.
    pub fn snapshot(&self) -> (s: WorldSnapshot)
        ensures
            s@ == image_of(self@),
            lists(listed(self@.players.dom()), self@.players.dom()),
    {
        WorldSnapshot {
            tick: self.last_tick,
            world_bytes: copy_of(self.world_bytes.as_slice()),
            playerdata: self.records(),
        }
    }

    pub fn last_tick(&self) -> (t: Option<TickStamp>)
        ensures
            t == self@.last_tick,
    {
        self.last_tick
    }

    pub fn world_bytes(&self) -> (b: &[u8])
        ensures
            b@ == self@.world_bytes,
    {
        self.world_bytes.as_slice()
    }

    /// The data of a player.
    pub fn player_bytes(&self, player_id: &[u8; 16]) -> (r: Option<&[u8]>)
        ensures
            r is Some <==> self@.players.dom().contains(*player_id),
            r matches Some(b) ==> b@ == self@.players[*player_id],
    {
        match self.playerdata.get(player_id) {
            None => None,
            Some(bytes) => Some(bytes.as_slice()),
        }
    }

    /// Number of players with data.
    pub fn player_count(&self) -> (n: usize)
        ensures
            n == self@.players.len(),
    {
        assert(self@.players.dom() =~= self.playerdata@.dom());
        self.playerdata.len()
    }

    pub fn contains_player(&self, player_id: &[u8; 16]) -> (b: bool)
        ensures
            b == self@.players.dom().contains(*player_id),
    {
        self.playerdata.contains_key(player_id)
    }

    /// Whether neither a world nor a player is staged.
    pub fn is_empty(&self) -> (b: bool)
        ensures
            b == (self@.world_bytes.len() == 0 && self@.players == Map::<
                [u8; 16],
                Seq<u8>,
            >::empty()),
    {
        let none: bool = self.playerdata.is_empty();
        proof {
            if none {
                assert(self@.players =~= Map::<[u8; 16], Seq<u8>>::empty());
            } else if self@.players == Map::<[u8; 16], Seq<u8>>::empty() {
                assert(self.playerdata@.dom() =~= self@.players.dom());
                assert(self.playerdata@ =~= Map::<[u8; 16], Vec<u8>>::empty());
            }
        }
        self.world_bytes.len() == 0 && none
    }
}

impl Clone for PrimaryState {
    fn clone(&self) -> (s: Self)
        ensures
            s@ == self@,
    {
        let s = PrimaryState {
            last_tick: self.last_tick,
            world_bytes: copy_of(self.world_bytes.as_slice()),
            playerdata: self.playerdata.clone(),
        };
        proof {
            assert(s@.players.dom() =~= self@.players.dom());
            assert forall|k: [u8; 16]| #[trigger]
                self@.players.dom().contains(k) implies s@.players[k] == self@.players[k] by {
                assert(cloned::<Vec<u8>>(self.playerdata@[k], s.playerdata@[k]));
                assert(s.playerdata@[k]@ =~= self.playerdata@[k]@);
            }
            assert(s@.players =~= self@.players);
        }
        s
    }
}

impl Default for PrimaryState {
    fn default() -> (s: Self)
        ensures
            s@ == (StagedModel {
                last_tick: None,
                world_bytes: Seq::empty(),
                players: Map::empty(),
            }),
    {
        PrimaryState::empty()
    }
}

proof fn lemma_records_give_players(
    keys: Seq<[u8; 16]>,
    players: Map<[u8; 16], Seq<u8>>,
    records: Seq<RecordModel>,
)
    requires
        records == keys.map_values(
            |id: [u8; 16]| RecordModel { player_id: id, bytes: players[id] },
        ),
    ensures
        forall|id: [u8; 16]| #[trigger] players_of(records).dom().contains(id) <==> keys.contains(id),
        forall|id: [u8; 16]| #[trigger]
            players_of(records).dom().contains(id) ==> players_of(records)[id] == players[id],
    decreases keys.len(),
{
    if keys.len() > 0 {
        let rest = keys.drop_last();
        assert(records.drop_last() =~= rest.map_values(
            |id: [u8; 16]| RecordModel { player_id: id, bytes: players[id] },
        ));
        lemma_records_give_players(rest, players, records.drop_last());
        assert(records.len() == keys.len());
        assert(records[keys.len() - 1] == RecordModel {
            player_id: keys.last(),
            bytes: players[keys.last()],
        });
        assert(players_of(records) == players_of(records.drop_last()).insert(
            keys.last(),
            players[keys.last()],
        ));
        assert forall|id: [u8; 16]| #[trigger] players_of(records).dom().contains(id)
            <==> keys.contains(id) by {
            if keys.contains(id) {
                let i = choose|i: int| 0 <= i < keys.len() && keys[i] == id;
                if i < rest.len() {
                    assert(rest[i] == id);
                    assert(rest.contains(id));
                }
            }
            if rest.contains(id) {
                let i = choose|i: int| 0 <= i < rest.len() && rest[i] == id;
                assert(keys[i] == id);
            }
            assert(keys[keys.len() - 1] == keys.last());
        }
    }
}

/// What is written to disk and read back is what was staged.
pub proof fn lemma_load_restores_state(m: StagedModel)
    requires
        m.players.dom().finite(),
    ensures
        staged_from(image_of(m)) == m,
{
    let keys = listed(m.players.dom());
    crate::keyed::lemma_finite_is_listed(m.players.dom());
    lemma_records_give_players(keys, m.players, records_of(m.players));
    let back = players_of(records_of(m.players));
    assert(back.dom() =~= m.players.dom());
    assert(back =~= m.players);
}

/// What a task that only saves does next.
#[derive(Debug, Clone, Copy, PartialEq, Eq, Structural)]
pub enum SaveTask {
    /// Take a tick from the queue, if one waits.
    TakeTick,
    /// Fold the tick in and save.
    Persist,
    /// Wait for a tick or for the order to stop.
    Wait,
    Done,
}

/// What came of looking for a tick, or of waiting for one.
#[derive(Debug, Clone, Copy, PartialEq, Eq, Structural)]
pub enum SaveReport {
    Tick,
    /// No tick waits.
    Empty,
    /// The queue is closed, or the order to stop came.
    Ended,
}

/// What the saving task does after `task` ended with `report`.
pub open spec fn save_task_after(task: SaveTask, report: SaveReport) -> SaveTask {
    match task {
        SaveTask::TakeTick => match report {
            SaveReport::Tick => SaveTask::Persist,
            SaveReport::Empty => SaveTask::Wait,
            SaveReport::Ended => SaveTask::Done,
        },
        SaveTask::Persist => SaveTask::TakeTick,
        SaveTask::Wait => if report == SaveReport::Tick {
            SaveTask::Persist
        } else {
            SaveTask::Done
        },
        SaveTask::Done => SaveTask::Done,
    }
}

/// What the saving task does after `task` ended with `report`.
pub fn next_save_task(task: SaveTask, report: SaveReport) -> (t: SaveTask)
    ensures
        t == save_task_after(task, report),
{
    match (task, report) {
        (SaveTask::TakeTick, SaveReport::Tick) => SaveTask::Persist,
        (SaveTask::TakeTick, SaveReport::Empty) => SaveTask::Wait,
        (SaveTask::TakeTick, SaveReport::Ended) => SaveTask::Done,
        (SaveTask::Persist, _) => SaveTask::TakeTick,
        (SaveTask::Wait, SaveReport::Tick) => SaveTask::Persist,
        (SaveTask::Wait, _) => SaveTask::Done,
        (SaveTask::Done, _) => SaveTask::Done,
    }
}

/// Every tick that the saving task gets hold of is saved before the task looks
/// for another or ends.
pub proof fn lemma_saver_drops_no_tick(task: SaveTask, report: SaveReport)
    requires
        task == SaveTask::TakeTick || task == SaveTask::Wait,
    ensures
        report == SaveReport::Tick <==> save_task_after(task, report) == SaveTask::Persist,
        save_task_after(SaveTask::Persist, report) == SaveTask::TakeTick,
{
}

/// What the task of the primary does next.
#[derive(Debug, Clone, Copy, PartialEq, Eq, Structural)]
pub enum PrimaryTask {
    /// Take a tick from the queue, if one waits.
    TakeTick,
    /// Fold the tick in and save.
    Persist,
    /// Answer every waiting request, then go on with the queue.
    ServeAfterTick,
    /// Answer every waiting request, then look whether anybody is left.
    ServeWaiting,
    /// Look whether both queues are closed.
    CheckClosed,
    /// Look whether the task was told to stop.
    CheckStop,
    /// Wait for something to happen.
    Wait,
    /// Fold the tick in that ended the wait, and save.
    PersistWoken,
    /// Answer every waiting request, then start over.
    ServeWoken,
    /// Answer the request that ended the wait.
    AnswerWoken,
    /// Answer every waiting request and end.
    ServeLast,
    Done,
}

/// What came of a task: `Yes` where it found what it looked for or simply did
/// its work, `No` where it did not.
#[derive(Debug, Clone, Copy, PartialEq, Eq, Structural)]
pub enum PrimaryReport {
    Yes,
    No,
    Woken(PrimaryWake),
}

/// What ended a wait.
#[derive(Debug, Clone, Copy, PartialEq, Eq, Structural)]
pub enum PrimaryWake {
    Tick,
    Snapshot,
    Stop,
}

/// What the task does after `task` ended with `report`.
pub open spec fn task_after(task: PrimaryTask, report: PrimaryReport) -> PrimaryTask {
    match task {
        PrimaryTask::TakeTick => if report == PrimaryReport::Yes {
            PrimaryTask::Persist
        } else {
            PrimaryTask::ServeWaiting
        },
        PrimaryTask::Persist => PrimaryTask::ServeAfterTick,
        PrimaryTask::ServeAfterTick => PrimaryTask::TakeTick,
        PrimaryTask::ServeWaiting => PrimaryTask::CheckClosed,
        PrimaryTask::CheckClosed => if report == PrimaryReport::Yes {
            PrimaryTask::ServeLast
        } else {
            PrimaryTask::CheckStop
        },
        PrimaryTask::CheckStop => if report == PrimaryReport::Yes {
            PrimaryTask::ServeLast
        } else {
            PrimaryTask::Wait
        },
        PrimaryTask::Wait => match report {
            PrimaryReport::Woken(PrimaryWake::Tick) => PrimaryTask::PersistWoken,
            PrimaryReport::Woken(PrimaryWake::Snapshot) => PrimaryTask::AnswerWoken,
            _ => PrimaryTask::ServeLast,
        },
        PrimaryTask::PersistWoken => PrimaryTask::ServeWoken,
        PrimaryTask::ServeWoken => PrimaryTask::TakeTick,
        PrimaryTask::AnswerWoken => PrimaryTask::TakeTick,
        PrimaryTask::ServeLast => PrimaryTask::Done,
        PrimaryTask::Done => PrimaryTask::Done,
    }
}

/// What the task does after `task` ended with `report`.
pub fn next_primary_task(task: PrimaryTask, report: PrimaryReport) -> (t: PrimaryTask)
    ensures
        t == task_after(task, report),
{
    match (task, report) {
        (PrimaryTask::TakeTick, PrimaryReport::Yes) => PrimaryTask::Persist,
        (PrimaryTask::TakeTick, _) => PrimaryTask::ServeWaiting,
        (PrimaryTask::Persist, _) => PrimaryTask::ServeAfterTick,
        (PrimaryTask::ServeAfterTick, _) => PrimaryTask::TakeTick,
        (PrimaryTask::ServeWaiting, _) => PrimaryTask::CheckClosed,
        (PrimaryTask::CheckClosed, PrimaryReport::Yes) => PrimaryTask::ServeLast,
        (PrimaryTask::CheckClosed, _) => PrimaryTask::CheckStop,
        (PrimaryTask::CheckStop, PrimaryReport::Yes) => PrimaryTask::ServeLast,
        (PrimaryTask::CheckStop, _) => PrimaryTask::Wait,
        (PrimaryTask::Wait, PrimaryReport::Woken(PrimaryWake::Tick)) => PrimaryTask::PersistWoken,
        (PrimaryTask::Wait, PrimaryReport::Woken(PrimaryWake::Snapshot)) =>
            PrimaryTask::AnswerWoken,
        (PrimaryTask::Wait, _) => PrimaryTask::ServeLast,
        (PrimaryTask::PersistWoken, _) => PrimaryTask::ServeWoken,
        (PrimaryTask::ServeWoken, _) => PrimaryTask::TakeTick,
        (PrimaryTask::AnswerWoken, _) => PrimaryTask::TakeTick,
        (PrimaryTask::ServeLast, _) => PrimaryTask::Done,
        (PrimaryTask::Done, _) => PrimaryTask::Done,
    }
}

/// What ends a wait, if anything does: the order to stop comes first, then a
/// tick, then a request, and last that nobody is left to send either.
pub fn primary_wake(stop: bool, tick: bool, snapshot: bool, all_closed: bool) -> (w: Option<
    PrimaryWake,
>)
    ensures
        w == (if stop {
            Some(PrimaryWake::Stop)
        } else if tick {
            Some(PrimaryWake::Tick)
        } else if snapshot {
            Some(PrimaryWake::Snapshot)
        } else if all_closed {
            Some(PrimaryWake::Stop)
        } else {
            None
        }),
{
    if stop {
        Some(PrimaryWake::Stop)
    } else if tick {
        Some(PrimaryWake::Tick)
    } else if snapshot {
        Some(PrimaryWake::Snapshot)
    } else if all_closed {
        Some(PrimaryWake::Stop)
    } else {
        None
    }
}

/// A tick that was taken is saved before anything else, requests are answered
/// after every save, and the task ends only behind a last round of answers.
pub proof fn lemma_every_tick_is_saved(task: PrimaryTask, report: PrimaryReport, then: PrimaryReport)
    ensures
        task == PrimaryTask::TakeTick && report == PrimaryReport::Yes ==> task_after(task, report)
            == PrimaryTask::Persist && task_after(PrimaryTask::Persist, then)
            == PrimaryTask::ServeAfterTick,
        task == PrimaryTask::Wait && report == PrimaryReport::Woken(PrimaryWake::Tick)
            ==> task_after(task, report) == PrimaryTask::PersistWoken && task_after(
            PrimaryTask::PersistWoken,
            then,
        ) == PrimaryTask::ServeWoken,
        task_after(task, report) == PrimaryTask::Done ==> task == PrimaryTask::ServeLast || task
            == PrimaryTask::Done,
{
}

/// Of several records of one player the last counts.
pub proof fn lemma_last_record_counts(records: Seq<RecordModel>, last: RecordModel, other: [u8; 16])
    ensures
        players_of(Seq::<RecordModel>::empty()) == Map::<[u8; 16], Seq<u8>>::empty(),
        ({
            let before = players_of(records);
            let after = players_of(records.push(last));
            &&& after.dom().contains(last.player_id)
            &&& after[last.player_id] == last.bytes
            &&& other != last.player_id ==> (after.dom().contains(other)
                <==> before.dom().contains(other))
            &&& other != last.player_id && before.dom().contains(other) ==> after[other]
                == before[other]
        }),
{
    assert(records.push(last).drop_last() =~= records);
}

/// An image carries the tick and the world that are staged and one record for
/// each player with its data, in the order of the players; loading stages all of
/// that again.
pub proof fn lemma_image_carries_everything(m: StagedModel, image: ImageModel, i: int)
    requires
        m.players.dom().finite(),
    ensures
        image_of(m).tick == m.last_tick,
        image_of(m).world_bytes == m.world_bytes,
        ({
            let records = image_of(m).playerdata;
            &&& 0 <= i < records.len() ==> m.players.dom().contains(records[i].player_id)
                && records[i].bytes == m.players[records[i].player_id]
            &&& forall|a: int, b: int|
                0 <= a < b < records.len() ==> #[trigger] records[a].player_id.rank()
                    < #[trigger] records[b].player_id.rank()
            &&& forall|id: [u8; 16]| #[trigger]
                m.players.dom().contains(id) ==> exists|k: int|
                    0 <= k < records.len() && #[trigger] records[k].player_id == id
        }),
        staged_from(image).last_tick == image.tick,
        staged_from(image).world_bytes == image.world_bytes,
        staged_from(image).players == players_of(image.playerdata),
{
    let keys = listed(m.players.dom());
    crate::keyed::lemma_finite_is_listed(m.players.dom());
    let records = image_of(m).playerdata;
    if 0 <= i < records.len() {
        assert(keys.contains(keys[i]));
    }
    assert forall|id: [u8; 16]| #[trigger] m.players.dom().contains(id) implies exists|k: int|
        0 <= k < records.len() && #[trigger] records[k].player_id == id by {
        assert(keys.contains(id));
        let k = choose|k: int| 0 <= k < keys.len() && keys[k] == id;
        assert(records[k].player_id == id);
    }
}

/// Records go by the bytes of their players' ids.
pub proof fn lemma_records_go_by_player(a: RecordModel, b: RecordModel)
    ensures
        record_before(a, b) <==> crate::bytes::bytes_rank(a.player_id@) < crate::bytes::bytes_rank(
            b.player_id@,
        ),
{
}

/// The saver takes ticks as long as there are any, saves each that it took, waits
/// only where none is there, and ends exactly when there will be no more.
pub proof fn lemma_saver_goes_round(report: SaveReport)
    ensures
        save_task_after(SaveTask::TakeTick, SaveReport::Tick) == SaveTask::Persist,
        save_task_after(SaveTask::TakeTick, SaveReport::Empty) == SaveTask::Wait,
        save_task_after(SaveTask::TakeTick, SaveReport::Ended) == SaveTask::Done,
        save_task_after(SaveTask::Persist, report) == SaveTask::TakeTick,
        save_task_after(SaveTask::Wait, SaveReport::Tick) == SaveTask::Persist,
        report != SaveReport::Tick ==> save_task_after(SaveTask::Wait, report) == SaveTask::Done,
        save_task_after(SaveTask::Done, report) == SaveTask::Done,
{
}

/// The primary takes ticks as long as there are any and answers requests after
/// each; without one it answers those that wait, looks whether it is to end, and
/// waits for what comes first. It ends behind a last round of answers, exactly if
/// the ticks ended or it was told to stop.
pub proof fn lemma_primary_goes_round(report: PrimaryReport)
    ensures
        report == PrimaryReport::Yes ==> task_after(PrimaryTask::TakeTick, report)
            == PrimaryTask::Persist && task_after(PrimaryTask::CheckClosed, report)
            == PrimaryTask::ServeLast && task_after(PrimaryTask::CheckStop, report)
            == PrimaryTask::ServeLast,
        report != PrimaryReport::Yes ==> task_after(PrimaryTask::TakeTick, report)
            == PrimaryTask::ServeWaiting && task_after(PrimaryTask::CheckClosed, report)
            == PrimaryTask::CheckStop && task_after(PrimaryTask::CheckStop, report)
            == PrimaryTask::Wait,
        task_after(PrimaryTask::Persist, report) == PrimaryTask::ServeAfterTick,
        task_after(PrimaryTask::ServeAfterTick, report) == PrimaryTask::TakeTick,
        task_after(PrimaryTask::ServeWaiting, report) == PrimaryTask::CheckClosed,
        report == PrimaryReport::Woken(PrimaryWake::Tick) ==> task_after(PrimaryTask::Wait, report)
            == PrimaryTask::PersistWoken,
        report == PrimaryReport::Woken(PrimaryWake::Snapshot) ==> task_after(
            PrimaryTask::Wait,
            report,
        ) == PrimaryTask::AnswerWoken,
        report != PrimaryReport::Woken(PrimaryWake::Tick) && report != PrimaryReport::Woken(
            PrimaryWake::Snapshot,
        ) ==> task_after(PrimaryTask::Wait, report) == PrimaryTask::ServeLast,
        task_after(PrimaryTask::PersistWoken, report) == PrimaryTask::ServeWoken,
        task_after(PrimaryTask::ServeWoken, report) == PrimaryTask::TakeTick,
        task_after(PrimaryTask::AnswerWoken, report) == PrimaryTask::TakeTick,
        task_after(PrimaryTask::ServeLast, report) == PrimaryTask::Done,
        task_after(PrimaryTask::Done, report) == PrimaryTask::Done,
{
}

} // verus!
