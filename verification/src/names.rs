//! Players by name: a directory that finds a player under its name in any case.

use vstd::prelude::*;
use crate::identity::GlobalPlayerId;
use crate::keyed::{KeyMap, listed, lists};
use crate::text::{lowercase_of, lowercased};

verus! {

/// The position of `name` in an index.
pub open spec fn is_at(s: Seq<(String, GlobalPlayerId)>, name: Seq<char>, i: int) -> bool {
    0 <= i < s.len() && s[i].0@ == name
}

/// The names of an index and the players they lead to.
pub open spec fn index_map(s: Seq<(String, GlobalPlayerId)>) -> Map<Seq<char>, GlobalPlayerId> {
    Map::new(
        |name: Seq<char>| exists|i: int| #[trigger] is_at(s, name, i),
        |name: Seq<char>| s[choose|i: int| #[trigger] is_at(s, name, i)].1,
    )
}

/// No name stands in the index twice.
pub open spec fn names_differ(s: Seq<(String, GlobalPlayerId)>) -> bool {
    forall|i: int, j: int|
        0 <= i < j < s.len() ==> (#[trigger] s[i]).0@ != (#[trigger] s[j]).0@
}

proof fn lemma_index_entry(s: Seq<(String, GlobalPlayerId)>, i: int)
    requires
        names_differ(s),
        0 <= i < s.len(),
    ensures
        index_map(s).dom().contains(s[i].0@),
        index_map(s)[s[i].0@] == s[i].1,
{
    let name = s[i].0@;
    assert(is_at(s, name, i));
    let j = choose|j: int| #[trigger] is_at(s, name, j);
    assert(is_at(s, name, j));
    if j < i {
        assert(s[j].0@ != s[i].0@);
    }
    if i < j {
        assert(s[i].0@ != s[j].0@);
    }
}

/// Which player a name leads to.
#[derive(Debug)]
pub struct NameIndex {
    entries: Vec<(String, GlobalPlayerId)>,
}

impl View for NameIndex {
    type V = Map<Seq<char>, GlobalPlayerId>;

    closed spec fn view(&self) -> Map<Seq<char>, GlobalPlayerId> {
        index_map(self.entries@)
    }
}

impl NameIndex {
    #[verifier::type_invariant]
    spec fn keeps_names_apart(self) -> bool {
        names_differ(self.entries@)
    }

    pub fn new() -> (x: Self)
        ensures
            x@ == Map::<Seq<char>, GlobalPlayerId>::empty(),
    {
        let x = NameIndex { entries: Vec::new() };
        assert(x@ =~= Map::<Seq<char>, GlobalPlayerId>::empty());
        x
    }

    fn find(&self, name: &String) -> (r: Option<usize>)
        ensures
            r is Some <==> self@.dom().contains(name@),
            r matches Some(i) ==> i < self.entries@.len() && self.entries@[i as int].0@ == name@
                && self.entries@[i as int].1 == self@[name@],
    {
        proof {
            use_type_invariant(self);
        }
        let mut i: usize = 0;
        while i < self.entries.len()
            invariant
                i <= self.entries@.len(),
                names_differ(self.entries@),
                forall|j: int| 0 <= j < i ==> (#[trigger] self.entries@[j]).0@ != name@,
            decreases self.entries@.len() - i,
        {
            if self.entries[i].0 == *name {
                proof {
                    lemma_index_entry(self.entries@, i as int);
                }
                return Some(i);
            }
            i = i + 1;
        }
        proof {
            if self@.dom().contains(name@) {
                let j = choose|j: int| #[trigger] is_at(self.entries@, name@, j);
                assert(self.entries@[j].0@ == name@);
            }
        }
        None
    }

    fn copied(&self) -> (x: Self)
        ensures
            x@ == self@,
    {
        let mut entries: Vec<(String, GlobalPlayerId)> = Vec::new();
        let mut i: usize = 0;
        while i < self.entries.len()
            invariant
                i <= self.entries@.len(),
                entries@ == self.entries@.take(i as int),
            decreases self.entries@.len() - i,
        {
            entries.push((self.entries[i].0.clone(), self.entries[i].1));
            assert(entries@ =~= self.entries@.take(i + 1));
            i = i + 1;
        }
        proof {
            assert(entries@ =~= self.entries@);
            use_type_invariant(self);
        }
        NameIndex { entries }
    }

    /// The player that a name leads to.
    pub fn get(&self, name: &String) -> (r: Option<GlobalPlayerId>)
        ensures
            r == (if self@.dom().contains(name@) {
                Some(self@[name@])
            } else {
                None::<GlobalPlayerId>
            }),
    {
        match self.find(name) {
            None => None,
            Some(i) => Some(self.entries[i].1),
        }
    }

    /// Takes a name out.
    pub fn remove(&mut self, name: &String)
        ensures
            final(self)@ == old(self)@.remove(name@),
    {
        match self.find(name) {
            None => {
                assert(self@.remove(name@) =~= self@);
            },
            Some(i) => {
                proof {
                    use_type_invariant(&*self);
                }
                let ghost before = self.entries@;
                let mut entries: Vec<(String, GlobalPlayerId)> = Vec::new();
                std::mem::swap(&mut entries, &mut self.entries);
                let _ = entries.remove(i);
                proof {
                    lemma_index_without(before, i as int);
                    assert(entries@ =~= before.remove(i as int));
                }
                self.entries = entries;
            },
        }
    }

    /// Lets a name lead to a player.
    pub fn insert(&mut self, name: String, gid: GlobalPlayerId)
        ensures
            final(self)@ == old(self)@.insert(name@, gid),
    {
        let ghost start = self@;
        self.remove(&name);
        proof {
            use_type_invariant(&*self);
        }
        let ghost before = self.entries@;
        let mut entries: Vec<(String, GlobalPlayerId)> = Vec::new();
        std::mem::swap(&mut entries, &mut self.entries);
        entries.push((name, gid));
        proof {
            let after = entries@;
            assert(!index_map(before).dom().contains(name@));
            assert forall|j: int| 0 <= j < before.len() implies (#[trigger] before[j]).0@
                != name@ by {
                lemma_index_entry(before, j);
            }
            assert(names_differ(after));
            assert forall|n: Seq<char>| #[trigger]
                index_map(after).dom().contains(n) <==> index_map(before).dom().contains(n) || n
                == name@ by {
                if index_map(before).dom().contains(n) {
                    let j = choose|j: int| #[trigger] is_at(before, n, j);
                    assert(is_at(after, n, j));
                }
                if n == name@ {
                    assert(is_at(after, n, before.len() as int));
                }
                if index_map(after).dom().contains(n) {
                    let j = choose|j: int| #[trigger] is_at(after, n, j);
                    if j < before.len() {
                        assert(is_at(before, n, j));
                    }
                }
            }
            assert(index_map(after).dom() =~= index_map(before).insert(name@, gid).dom());
            assert forall|n: Seq<char>| #[trigger]
                index_map(after).dom().contains(n) implies index_map(after)[n] == index_map(
                before,
            ).insert(name@, gid)[n] by {
                let j = choose|j: int| #[trigger] is_at(after, n, j);
                lemma_index_entry(after, j);
                if j < before.len() {
                    lemma_index_entry(before, j);
                }
            }
            assert(index_map(after) =~= index_map(before).insert(name@, gid));
            assert(start.remove(name@).insert(name@, gid) =~= start.insert(name@, gid));
        }
        self.entries = entries;
    }
}

proof fn lemma_index_without(s: Seq<(String, GlobalPlayerId)>, i: int)
    requires
        names_differ(s),
        0 <= i < s.len(),
    ensures
        names_differ(s.remove(i)),
        index_map(s.remove(i)) == index_map(s).remove(s[i].0@),
{
    let t = s.remove(i);
    let name = s[i].0@;
    assert(names_differ(t)) by {
        assert forall|a: int, b: int| 0 <= a < b < t.len() implies (#[trigger] t[a]).0@ != (
        #[trigger] t[b]).0@ by {
            let x = if a < i {
                a
            } else {
                a + 1
            };
            let y = if b < i {
                b
            } else {
                b + 1
            };
            assert(t[a] == s[x] && t[b] == s[y]);
        }
    }
    assert forall|n: Seq<char>| #[trigger] index_map(t).dom().contains(n) <==> index_map(
        s,
    ).dom().contains(n) && n != name by {
        if index_map(t).dom().contains(n) {
            let j = choose|j: int| #[trigger] is_at(t, n, j);
            let x = if j < i {
                j
            } else {
                j + 1
            };
            assert(t[j] == s[x]);
            assert(is_at(s, n, x));
            if x < i {
                assert(s[x].0@ != s[i].0@);
            } else {
                assert(s[i].0@ != s[x].0@);
            }
        }
        if index_map(s).dom().contains(n) && n != name {
            let x = choose|x: int| #[trigger] is_at(s, n, x);
            let j = if x < i {
                x
            } else {
                x - 1
            };
            assert(t[j] == s[x]);
            assert(is_at(t, n, j));
        }
    }
    assert(index_map(t).dom() =~= index_map(s).remove(name).dom());
    assert forall|n: Seq<char>| #[trigger] index_map(t).dom().contains(n) implies index_map(t)[n]
        == index_map(s)[n] by {
        let j = choose|j: int| #[trigger] is_at(t, n, j);
        let x = if j < i {
            j
        } else {
            j + 1
        };
        assert(t[j] == s[x]);
        lemma_index_entry(t, j);
        lemma_index_entry(s, x);
    }
    assert(index_map(t) =~= index_map(s).remove(name));
}

/// The players of a directory: each by its name, and the names in lower case.
#[verifier::ext_equal]
pub ghost struct DirectoryModel {
    pub by_name: Map<Seq<char>, GlobalPlayerId>,
    pub names: Map<GlobalPlayerId, Seq<char>>,
}

/// Every name of the index is that of the player it leads to.
pub open spec fn names_lead_home(m: DirectoryModel) -> bool {
    forall|n: Seq<char>| #[trigger]
        m.by_name.dom().contains(n) ==> m.names.dom().contains(m.by_name[n]) && lowercase_of(
            m.names[m.by_name[n]],
        ) == n
}

/// The directory after `gid` came in under `name`; its former name is forgotten.
pub open spec fn entered(m: DirectoryModel, gid: GlobalPlayerId, name: Seq<char>) -> DirectoryModel {
    let rest = gone(m, gid);
    DirectoryModel {
        by_name: rest.by_name.insert(lowercase_of(name), gid),
        names: m.names.insert(gid, name),
    }
}

/// The directory without `gid` and without its name.
pub open spec fn gone(m: DirectoryModel, gid: GlobalPlayerId) -> DirectoryModel {
    if m.names.dom().contains(gid) {
        DirectoryModel {
            by_name: m.by_name.remove(lowercase_of(m.names[gid])),
            names: m.names.remove(gid),
        }
    } else {
        m
    }
}

/// The player found under `name`.
pub open spec fn located(m: DirectoryModel, name: Seq<char>) -> Option<GlobalPlayerId> {
    if m.by_name.dom().contains(lowercase_of(name)) {
        Some(m.by_name[lowercase_of(name)])
    } else {
        None
    }
}

/// The names of the players as mathematical values.
pub open spec fn name_texts(m: Map<GlobalPlayerId, String>) -> Map<GlobalPlayerId, Seq<char>> {
    m.map_values(|s: String| s@)
}

/// Players and their names.
#[derive(Debug)]
pub struct NameDirectory {
    by_name: NameIndex,
    names: KeyMap<GlobalPlayerId, String>,
}

impl View for NameDirectory {
    type V = DirectoryModel;

    closed spec fn view(&self) -> DirectoryModel {
        DirectoryModel { by_name: self.by_name@, names: name_texts(self.names@) }
    }
}

impl NameDirectory {
    #[verifier::type_invariant]
    spec fn leads_home(self) -> bool {
        names_lead_home(DirectoryModel { by_name: self.by_name@, names: name_texts(self.names@) })
    }

    pub fn new() -> (d: Self)
        ensures
            d@ == (DirectoryModel { by_name: Map::empty(), names: Map::empty() }),
    {
        let d = NameDirectory { by_name: NameIndex::new(), names: KeyMap::new() };
        assert(d@.names =~= Map::<GlobalPlayerId, Seq<char>>::empty());
        d
    }

    /// Takes a player in under a name.
    pub fn insert(&mut self, gid: GlobalPlayerId, name: String)
        ensures
            final(self)@ == entered(old(self)@, gid, name@),
    {
        let _ = self.remove(&gid);
        proof {
            use_type_invariant(&*self);
        }
        let ghost rest = self@;
        let mut by_name = NameIndex::new();
        let mut names: KeyMap<GlobalPlayerId, String> = KeyMap::new();
        std::mem::swap(&mut by_name, &mut self.by_name);
        std::mem::swap(&mut names, &mut self.names);
        let folded = lowercased(name.as_str());
        let ghost text = name@;
        by_name.insert(folded, gid);
        let _ = names.insert(gid, name);
        proof {
            assert(name_texts(names@) =~= rest.names.insert(gid, text));
            assert(!rest.names.dom().contains(gid));
            let after = DirectoryModel { by_name: by_name@, names: name_texts(names@) };
            assert forall|n: Seq<char>| #[trigger]
                after.by_name.dom().contains(n) implies after.names.dom().contains(
                after.by_name[n],
            ) && lowercase_of(after.names[after.by_name[n]]) == n by {
                if n != lowercase_of(text) {
                    assert(rest.by_name.dom().contains(n));
                }
            }
            assert(old(self)@.names.remove(gid).insert(gid, text) =~= old(self)@.names.insert(
                gid,
                text,
            ));
            assert(rest.names.insert(gid, text) =~= old(self)@.names.insert(gid, text));
        }
        *self = NameDirectory { by_name, names };
    }

    /// Takes a player out; reports whether it was there.
    pub fn remove(&mut self, gid: &GlobalPlayerId) -> (had: bool)
        ensures
            final(self)@ == gone(old(self)@, *gid),
            had == old(self)@.names.dom().contains(*gid),
    {
        proof {
            use_type_invariant(&*self);
        }
        let ghost before = self@;
        let mut by_name = NameIndex::new();
        let mut names: KeyMap<GlobalPlayerId, String> = KeyMap::new();
        let had: bool = self.names.contains_key(gid);
        if !had {
            return false;
        }
        proof {
            assert(before.names.dom().contains(*gid));
        }
        std::mem::swap(&mut by_name, &mut self.by_name);
        std::mem::swap(&mut names, &mut self.names);
        match names.remove(gid) {
            None => {},
            Some(name) => {
                let folded = lowercased(name.as_str());
                by_name.remove(&folded);
            },
        }
        proof {
            let after = DirectoryModel { by_name: by_name@, names: name_texts(names@) };
            assert(after.names =~= before.names.remove(*gid));
            assert forall|n: Seq<char>| #[trigger]
                after.by_name.dom().contains(n) implies after.names.dom().contains(
                after.by_name[n],
            ) && lowercase_of(after.names[after.by_name[n]]) == n by {
                assert(before.by_name.dom().contains(n));
            }
        }
        *self = NameDirectory { by_name, names };
        true
    }

    /// The player found under a name, in any case.
    pub fn locate(&self, name: &str) -> (r: Option<GlobalPlayerId>)
        ensures
            r == located(self@, name@),
            r matches Some(gid) ==> self@.names.dom().contains(gid) && lowercase_of(
                self@.names[gid],
            ) == lowercase_of(name@),
    {
        proof {
            use_type_invariant(self);
        }
        let folded = lowercased(name);
        self.by_name.get(&folded)
    }

    /// The name of a player.
    pub fn name_of(&self, gid: &GlobalPlayerId) -> (r: Option<&String>)
        ensures
            r is Some <==> self@.names.dom().contains(*gid),
            r matches Some(name) ==> name@ == self@.names[*gid],
    {
        self.names.get(gid)
    }

    /// Number of players.
    pub fn len(&self) -> (n: usize)
        ensures
            n == self@.names.len(),
    {
        assert(self@.names.dom() =~= self.names@.dom());
        self.names.len()
    }

    pub fn is_empty(&self) -> (b: bool)
        ensures
            b == (self@.names == Map::<GlobalPlayerId, Seq<char>>::empty()),
    {
        let b: bool = self.names.is_empty();
        proof {
            if b {
                assert(self@.names =~= Map::<GlobalPlayerId, Seq<char>>::empty());
            } else if self@.names == Map::<GlobalPlayerId, Seq<char>>::empty() {
                assert(self.names@.dom() =~= self@.names.dom());
                assert(self.names@ =~= Map::<GlobalPlayerId, String>::empty());
            }
        }
        b
    }

    /// The names of the players that the index lists, in the order of the players.
    pub fn name_list(&self) -> (r: Vec<String>)
        ensures
            lists(listed(self@.names.dom()), self@.names.dom()),
            r@.len() == listed(self@.names.dom()).len(),
            forall|i: int|
                0 <= i < r@.len() ==> (#[trigger] r@[i])@ == self@.names[listed(
                    self@.names.dom(),
                )[i]],
            forall|t: Seq<char>| #[trigger]
                crate::text::has_text(r@, t) <==> exists|gid: GlobalPlayerId|
                    self@.names.dom().contains(gid) && #[trigger] self@.names[gid] == t,
    {
        let keys = self.names.key_list();
        let mut r: Vec<String> = Vec::new();
        let mut i: usize = 0;
        proof {
            assert(self@.names.dom() =~= self.names@.dom());
            crate::keyed::lemma_listed(keys@, self@.names.dom());
        }
        while i < keys.len()
            invariant
                i <= keys@.len(),
                keys@ == self.names.keys(),
                crate::keyed::lists(keys@, self.names@.dom()),
                r@.len() == i,
                forall|j: int| 0 <= j < i ==> (#[trigger] r@[j])@ == self@.names[keys@[j]],
            decreases keys@.len() - i,
        {
            r.push(self.names.value_at(i).clone());
            i = i + 1;
        }
        proof {
            assert forall|t: Seq<char>| #[trigger] crate::text::has_text(r@, t) <==> exists|
                gid: GlobalPlayerId,
            |
                self@.names.dom().contains(gid) && #[trigger] self@.names[gid] == t by {
                if crate::text::has_text(r@, t) {
                    let j = choose|j: int| 0 <= j < r@.len() && (#[trigger] r@[j])@ == t;
                    let gid = keys@[j];
                    assert(keys@.contains(gid));
                    assert(self.names@.dom().contains(gid));
                    assert(self@.names.dom().contains(gid) && self@.names[gid] == t);
                }
                if exists|gid: GlobalPlayerId|
                    self@.names.dom().contains(gid) && #[trigger] self@.names[gid] == t {
                    let gid = choose|gid: GlobalPlayerId|
                        self@.names.dom().contains(gid) && #[trigger] self@.names[gid] == t;
                    assert(self.names@.dom().contains(gid));
                    assert(keys@.contains(gid));
                    let j = choose|j: int| 0 <= j < keys@.len() && keys@[j] == gid;
                    assert(r@[j]@ == t);
                }
            }
        }
        r
    }
}

impl Clone for NameDirectory {
    fn clone(&self) -> (d: Self)
        ensures
            d@ == self@,
    {
        proof {
            use_type_invariant(self);
        }
        let by_name = self.by_name.copied();
        let names = self.names.clone();
        proof {
            assert(name_texts(names@) =~= name_texts(self.names@)) by {
                assert forall|k: GlobalPlayerId| #[trigger]
                    self.names@.dom().contains(k) implies names@[k]@ == self.names@[k]@ by {
                    assert(cloned::<String>(self.names@[k], names@[k]));
                }
            }
        }
        NameDirectory { by_name, names }
    }
}

/// Whoever came in under a name is found under every spelling that folds to
/// it, and no other spelling than its former name finds somebody else.
pub proof fn lemma_entered_is_found(
    m: DirectoryModel,
    gid: GlobalPlayerId,
    name: Seq<char>,
    asked: Seq<char>,
)
    ensures
        lowercase_of(asked) == lowercase_of(name) ==> located(entered(m, gid, name), asked) == Some(
            gid,
        ),
        lowercase_of(asked) != lowercase_of(name) && !(m.names.dom().contains(gid) && lowercase_of(
            asked,
        ) == lowercase_of(m.names[gid])) ==> located(entered(m, gid, name), asked) == located(
            m,
            asked,
        ),
{
}

/// Whoever left is found under no name, where every name led to its player.
pub proof fn lemma_gone_is_not_found(m: DirectoryModel, gid: GlobalPlayerId, asked: Seq<char>)
    requires
        names_lead_home(m),
    ensures
        located(gone(m, gid), asked) != Some(gid),
        names_lead_home(gone(m, gid)),
{
    assert forall|n: Seq<char>| #[trigger] gone(m, gid).by_name.dom().contains(n) implies gone(
        m,
        gid,
    ).names.dom().contains(gone(m, gid).by_name[n]) && lowercase_of(
        gone(m, gid).names[gone(m, gid).by_name[n]],
    ) == n by {
        assert(m.by_name.dom().contains(n));
    }
}

/// Whoever came in is listed under its name, everyone else under the name they
/// had; whoever left is not listed, and everyone else stays.
pub proof fn lemma_names_are_per_player(
    m: DirectoryModel,
    gid: GlobalPlayerId,
    name: Seq<char>,
    other: GlobalPlayerId,
)
    ensures
        entered(m, gid, name).names.dom().contains(gid),
        entered(m, gid, name).names[gid] == name,
        !gone(m, gid).names.dom().contains(gid),
        other != gid ==> {
            &&& entered(m, gid, name).names.dom().contains(other) <==> m.names.dom().contains(other)
            &&& gone(m, gid).names.dom().contains(other) <==> m.names.dom().contains(other)
            &&& m.names.dom().contains(other) ==> entered(m, gid, name).names[other]
                == m.names[other] && gone(m, gid).names[other] == m.names[other]
        },
{
}

/// A name is asked for in any spelling, and finds the player that it leads to.
pub proof fn lemma_names_are_found_by_folding(m: DirectoryModel, asked: Seq<char>)
    ensures
        located(m, asked) is Some <==> m.by_name.dom().contains(lowercase_of(asked)),
        located(m, asked) matches Some(g) ==> g == m.by_name[lowercase_of(asked)],
{
}

/// Leaving takes nobody else's name out of the directory.
pub proof fn lemma_leaving_keeps_other_names(
    m: DirectoryModel,
    gid: GlobalPlayerId,
    asked: Seq<char>,
)
    ensures
        !(m.names.dom().contains(gid) && lowercase_of(asked) == lowercase_of(m.names[gid]))
            ==> located(gone(m, gid), asked) == located(m, asked),
{
}

} // verus!
