//! The data model: statuses, user actions, epics, stories, and the store
//! state with its integrity-preserving operations.

use std::collections::HashMap;
use vstd::prelude::*;

verus! {

broadcast use vstd::std_specs::hash::group_hash_axioms;

/// A user-intent command produced by page input handling and dispatched by
/// the navigator.
#[derive(Clone, Copy, Debug, PartialEq, Eq, Structural)]
pub enum Action {
    NavigateToEpicDetail { epic_id: u32 },
    NavigateToStoryDetail { epic_id: u32, story_id: u32 },
    NavigateToPreviousPage,
    CreateEpic,
    UpdateEpicStatus { epic_id: u32 },
    DeleteEpic { epic_id: u32 },
    CreateStory { epic_id: u32 },
    UpdateStoryStatus { story_id: u32 },
    DeleteStory { epic_id: u32, story_id: u32 },
    Exit,
}

/// The workflow state of an epic or story. Any value may replace any value;
/// there are no transition restrictions.
#[derive(Clone, Copy, Debug, PartialEq, Eq, Structural)]
pub enum Status {
    Open,
    InProgress,
    Resolved,
    Closed,
}

impl Status {
    /// The display text of each status, as shown to the operator.
    pub open spec fn label_spec(self) -> Seq<char> {
        match self {
            Status::Open => "OPEN"@,
            Status::InProgress => "IN PROGRESS"@,
            Status::Resolved => "RESOLVED"@,
            Status::Closed => "CLOSED"@,
        }
    }

    /// Renders the status as its display text.
    pub fn label(&self) -> (r: String)
        ensures
            r@ == self.label_spec(),
    {
        match self {
            Status::Open => "OPEN".to_owned(),
            Status::InProgress => "IN PROGRESS".to_owned(),
            Status::Resolved => "RESOLVED".to_owned(),
            Status::Closed => "CLOSED".to_owned(),
        }
    }

    /// The status selected by a numeric menu choice: 1 through 4 pick a
    /// status, anything else is no answer.
    pub open spec fn of_choice(n: u32) -> Option<Status> {
        if n == 1 {
            Some(Status::Open)
        } else if n == 2 {
            Some(Status::InProgress)
        } else if n == 3 {
            Some(Status::Resolved)
        } else if n == 4 {
            Some(Status::Closed)
        } else {
            None
        }
    }

    /// Maps a numeric menu choice to a status, or to no answer when the
    /// choice is out of range.
    pub fn from_choice(n: u32) -> (r: Option<Status>)
        ensures
            r == Status::of_choice(n),
    {
        match n {
            1 => Some(Status::Open),
            2 => Some(Status::InProgress),
            3 => Some(Status::Resolved),
            4 => Some(Status::Closed),
            _ => None,
        }
    }
}

/// The mathematical value of an [`Epic`].
#[verifier::ext_equal]
pub struct EpicView {
    pub name: Seq<char>,
    pub description: Seq<char>,
    pub status: Status,
    pub stories: Seq<u32>,
}

/// A top-level unit of work owning an ordered list of story ids. The bodies
/// of the stories live in the store's stories mapping, not here.
#[derive(Clone, Debug, PartialEq, Eq)]
pub struct Epic {
    pub name: String,
    pub description: String,
    pub status: Status,
    pub stories: Vec<u32>,
}

impl View for Epic {
    type V = EpicView;

    open spec fn view(&self) -> EpicView {
        EpicView {
            name: self.name@,
            description: self.description@,
            status: self.status,
            stories: self.stories@,
        }
    }
}

impl Epic {
    /// A fresh epic: open, with no stories yet.
    pub fn new(name: String, description: String) -> (e: Epic)
        ensures
            e@.name == name@,
            e@.description == description@,
            e@.status == Status::Open,
            e@.stories == Seq::<u32>::empty(),
    {
        Epic { name, description, status: Status::Open, stories: Vec::new() }
    }
}

/// The mathematical value of a [`Story`].
#[verifier::ext_equal]
pub struct StoryView {
    pub name: Seq<char>,
    pub description: Seq<char>,
    pub status: Status,
}

/// A leaf unit of work belonging to exactly one epic's story list.
#[derive(Clone, Debug, PartialEq, Eq)]
pub struct Story {
    pub name: String,
    pub description: String,
    pub status: Status,
}

impl View for Story {
    type V = StoryView;

    open spec fn view(&self) -> StoryView {
        StoryView { name: self.name@, description: self.description@, status: self.status }
    }
}

impl Story {
    /// A fresh story: open.
    pub fn new(name: String, description: String) -> (s: Story)
        ensures
            s@.name == name@,
            s@.description == description@,
            s@.status == Status::Open,
    {
        Story { name, description, status: Status::Open }
    }
}

/// The failures a store operation can report. I/O and serialization
/// failures belong to the persistence layer around the library, not to the
/// store logic itself.
#[derive(Clone, Copy, Debug, PartialEq, Eq, Structural)]
pub enum DbError {
    /// The epic or story id named by the operation has no entry.
    NotFound,
    /// Both entities exist, but the story is missing from its epic's list.
    Inconsistent,
}

/// A sequence of ids in strictly ascending order (and therefore without
/// duplicates).
pub open spec fn strictly_sorted(s: Seq<u32>) -> bool {
    forall|i: int, j: int| 0 <= i < j < s.len() ==> s[i] < s[j]
}

/// The mathematical value of a [`DBState`]: the id counter and the two
/// entity mappings.
#[verifier::ext_equal]
pub struct StoreView {
    pub last_item_id: u32,
    pub epics: Map<u32, EpicView>,
    pub stories: Map<u32, StoryView>,
}

impl StoreView {
    /// The epic `eid` exists and lists the story id `sid`.
    pub open spec fn story_in_epic(self, eid: u32, sid: u32) -> bool {
        self.epics.contains_key(eid) && self.epics[eid].stories.contains(sid)
    }

    /// Referential integrity of the store:
    /// - every entity id was drawn from the counter, so none exceeds it;
    /// - epic ids and story ids never collide (one shared namespace);
    /// - each epic's story list is strictly ascending;
    /// - every listed story id has a story entry, and every story entry is
    ///   listed by exactly one epic.
    pub open spec fn wf(self) -> bool {
        &&& forall|id: u32| #[trigger] self.epics.contains_key(id) ==> id <= self.last_item_id
        &&& forall|id: u32| #[trigger] self.stories.contains_key(id) ==> id <= self.last_item_id
        &&& forall|id: u32| #[trigger] self.stories.contains_key(id) ==> !self.epics.contains_key(
            id,
        )
        &&& forall|eid: u32| #[trigger] self.epics.contains_key(eid) ==> strictly_sorted(
            self.epics[eid].stories,
        )
        &&& forall|eid: u32, sid: u32| #[trigger] self.story_in_epic(eid, sid)
            ==> self.stories.contains_key(sid)
        &&& forall|sid: u32| #[trigger] self.stories.contains_key(sid) ==> exists|eid: u32|
            self.story_in_epic(eid, sid)
        &&& forall|e1: u32, e2: u32, sid: u32|
            self.story_in_epic(e1, sid) && self.story_in_epic(e2, sid) ==> e1 == e2
    }

    /// Inserting an epic: the next id is allocated and the epic stored
    /// under it. Always succeeds.
    pub open spec fn create_epic(self, epic: EpicView) -> (StoreView, u32) {
        let id = (self.last_item_id + 1) as u32;
        (
            StoreView {
                last_item_id: id,
                epics: self.epics.insert(id, epic),
                stories: self.stories,
            },
            id,
        )
    }

    /// Inserting a story under an existing epic: the next id is allocated,
    /// appended to the epic's list, and the story stored under it. Fails
    /// with `NotFound` when the epic is absent, leaving the store unchanged.
    pub open spec fn create_story(self, story: StoryView, epic_id: u32) -> (
        StoreView,
        Result<u32, DbError>,
    ) {
        if !self.epics.contains_key(epic_id) {
            (self, Err(DbError::NotFound))
        } else {
            let id = (self.last_item_id + 1) as u32;
            let epic = self.epics[epic_id];
            let epic2 = EpicView { stories: epic.stories.push(id), ..epic };
            (
                StoreView {
                    last_item_id: id,
                    epics: self.epics.insert(epic_id, epic2),
                    stories: self.stories.insert(id, story),
                },
                Ok(id),
            )
        }
    }

    /// Deleting an epic cascades: the epic entry goes, and so does every
    /// story entry its list names. Fails with `NotFound` when the epic is
    /// absent, leaving the store unchanged.
    pub open spec fn delete_epic(self, epic_id: u32) -> (StoreView, Result<(), DbError>) {
        if !self.epics.contains_key(epic_id) {
            (self, Err(DbError::NotFound))
        } else {
            (
                StoreView {
                    last_item_id: self.last_item_id,
                    epics: self.epics.remove(epic_id),
                    stories: self.stories.remove_keys(self.epics[epic_id].stories.to_set()),
                },
                Ok(()),
            )
        }
    }

    /// Deleting a story: the story entry and its id in the owning epic's
    /// list both go. Fails with `NotFound` when either entity is absent,
    /// and with `Inconsistent` when both exist but the epic's list does not
    /// name the story; in every failure the store is unchanged.
    pub open spec fn delete_story(self, story_id: u32, epic_id: u32) -> (
        StoreView,
        Result<(), DbError>,
    ) {
        if !self.epics.contains_key(epic_id) || !self.stories.contains_key(story_id) {
            (self, Err(DbError::NotFound))
        } else {
            let epic = self.epics[epic_id];
            if epic.stories.contains(story_id) {
                let epic2 = EpicView {
                    stories: epic.stories.remove(epic.stories.index_of(story_id)),
                    ..epic
                };
                (
                    StoreView {
                        last_item_id: self.last_item_id,
                        epics: self.epics.insert(epic_id, epic2),
                        stories: self.stories.remove(story_id),
                    },
                    Ok(()),
                )
            } else {
                (self, Err(DbError::Inconsistent))
            }
        }
    }

    /// Replacing an epic's status. Fails with `NotFound` when the epic is
    /// absent, leaving the store unchanged.
    pub open spec fn update_epic_status(self, epic_id: u32, status: Status) -> (
        StoreView,
        Result<(), DbError>,
    ) {
        if !self.epics.contains_key(epic_id) {
            (self, Err(DbError::NotFound))
        } else {
            let epic2 = EpicView { status, ..self.epics[epic_id] };
            (
                StoreView {
                    last_item_id: self.last_item_id,
                    epics: self.epics.insert(epic_id, epic2),
                    stories: self.stories,
                },
                Ok(()),
            )
        }
    }

    /// Replacing a story's status. Fails with `NotFound` when the story is
    /// absent, leaving the store unchanged.
    pub open spec fn update_story_status(self, story_id: u32, status: Status) -> (
        StoreView,
        Result<(), DbError>,
    ) {
        if !self.stories.contains_key(story_id) {
            (self, Err(DbError::NotFound))
        } else {
            let story2 = StoryView { status, ..self.stories[story_id] };
            (
                StoreView {
                    last_item_id: self.last_item_id,
                    epics: self.epics,
                    stories: self.stories.insert(story_id, story2),
                },
                Ok(()),
            )
        }
    }
}

/// The persisted state of the tracker: the id counter and the two entity
/// mappings. Epics and stories draw ids from the same counter, so an id
/// names at most one entity of either kind.
#[derive(Clone, Debug, PartialEq, Eq)]
pub struct DBState {
    pub last_item_id: u32,
    pub epics: HashMap<u32, Epic>,
    pub stories: HashMap<u32, Story>,
}

impl View for DBState {
    type V = StoreView;

    open spec fn view(&self) -> StoreView {
        StoreView {
            last_item_id: self.last_item_id,
            epics: self.epics@.map_values(|e: Epic| e@),
            stories: self.stories@.map_values(|s: Story| s@),
        }
    }
}

proof fn lemma_strictly_sorted_remove(s: Seq<u32>, i: int)
    requires
        strictly_sorted(s),
        0 <= i < s.len(),
    ensures
        strictly_sorted(s.remove(i)),
{
    assert forall|a: int, b: int| 0 <= a < b < s.remove(i).len() implies s.remove(i)[a] < s.remove(
        i,
    )[b] by {
        let a2 = if a < i {
            a
        } else {
            a + 1
        };
        let b2 = if b < i {
            b
        } else {
            b + 1
        };
        assert(s.remove(i)[a] == s[a2]);
        assert(s.remove(i)[b] == s[b2]);
    }
}

proof fn lemma_sorted_index_unique(s: Seq<u32>, i: int, j: int)
    requires
        strictly_sorted(s),
        0 <= i < s.len(),
        0 <= j < s.len(),
        s[i] == s[j],
    ensures
        i == j,
{
}

fn find_index(v: &Vec<u32>, x: u32) -> (r: Option<usize>)
    ensures
        match r {
            Some(i) => i < v@.len() && v@[i as int] == x,
            None => !v@.contains(x),
        },
{
    let mut i: usize = 0;
    while i < v.len()
        invariant
            i <= v@.len(),
            forall|j: int| 0 <= j < i ==> v@[j] != x,
        decreases v@.len() - i,
    {
        if v[i] == x {
            return Some(i);
        }
        i = i + 1;
    }
    proof {
        if v@.contains(x) {
            let j = choose|j: int| 0 <= j < v@.len() && v@[j] == x;
            assert(v@[j] != x);
        }
    }
    None
}

/// The epic entry at position `i` lists the story id `sid`.
pub open spec fn entry_listed(es: Seq<(u32, Epic)>, i: int, sid: u32) -> bool {
    0 <= i < es.len() && es[i].1@.stories.contains(sid)
}

/// Parsed content that denotes a well-formed store: entity ids are unique
/// per kind, within the counter, and disjoint across the two kinds; every
/// epic's list is strictly ascending; and the listed story ids and the
/// story entries correspond one to one.
pub open spec fn entries_valid(
    last: u32,
    es: Seq<(u32, Epic)>,
    ss: Seq<(u32, Story)>,
) -> bool {
    &&& forall|a: int, b: int| 0 <= a < b < es.len() ==> es[a].0 != es[b].0
    &&& forall|a: int, b: int| 0 <= a < b < ss.len() ==> ss[a].0 != ss[b].0
    &&& forall|a: int| 0 <= a < es.len() ==> (#[trigger] es[a].0) <= last
    &&& forall|a: int| 0 <= a < ss.len() ==> (#[trigger] ss[a].0) <= last
    &&& forall|a: int, b: int| 0 <= a < es.len() && 0 <= b < ss.len() ==> es[a].0 != ss[b].0
    &&& forall|a: int| 0 <= a < es.len() ==> strictly_sorted((#[trigger] es[a].1)@.stories)
    &&& forall|a: int, sid: u32| #[trigger]
        entry_listed(es, a, sid) ==> exists|b: int| 0 <= b < ss.len() && ss[b].0 == sid
    &&& forall|b: int| 0 <= b < ss.len() ==> some_entry_lists(es, (#[trigger] ss[b].0))
    &&& forall|a1: int, a2: int, sid: u32|
        entry_listed(es, a1, sid) && entry_listed(es, a2, sid) ==> a1 == a2
}

proof fn lemma_sorted_chain(s: Seq<u32>, i: int, j: int)
    requires
        forall|k: int| 0 < k < s.len() ==> s[k - 1] < (#[trigger] s[k]),
        0 <= i < j < s.len(),
    ensures
        s[i] < s[j],
    decreases j - i,
{
    if j > i + 1 {
        lemma_sorted_chain(s, i, j - 1);
    }
}

proof fn lemma_sorted_from_adjacent(s: Seq<u32>)
    requires
        forall|k: int| 0 < k < s.len() ==> s[k - 1] < (#[trigger] s[k]),
    ensures
        strictly_sorted(s),
{
    assert forall|i: int, j: int| 0 <= i < j < s.len() implies s[i] < s[j] by {
        lemma_sorted_chain(s, i, j);
    }
}

/// Some epic entry lists the story id `sid`.
pub open spec fn some_entry_lists(es: Seq<(u32, Epic)>, sid: u32) -> bool {
    exists|a: int| entry_listed(es, a, sid)
}

/// Some epic entry carries the id `k`.
pub open spec fn some_epic_entry_has_key(es: Seq<(u32, Epic)>, k: u32) -> bool {
    exists|a: int| 0 <= a < es.len() && es[a].0 == k
}

/// Some story entry carries the id `k`.
pub open spec fn some_story_entry_has_key(ss: Seq<(u32, Story)>, k: u32) -> bool {
    exists|b: int| 0 <= b < ss.len() && ss[b].0 == k
}

proof fn lemma_epic_key_exists(es: Seq<(u32, Epic)>, a0: int, k: u32)
    requires
        0 <= a0 < es.len(),
        es[a0].0 == k,
    ensures
        some_epic_entry_has_key(es, k),
{
}

proof fn lemma_story_key_exists(ss: Seq<(u32, Story)>, b0: int, k: u32)
    requires
        0 <= b0 < ss.len(),
        ss[b0].0 == k,
    ensures
        some_story_entry_has_key(ss, k),
{
}

proof fn lemma_listed_exists(es: Seq<(u32, Epic)>, a0: int, sid: u32)
    requires
        entry_listed(es, a0, sid),
    ensures
        some_entry_lists(es, sid),
{
}

fn entries_are_valid(
    last_item_id: u32,
    epic_entries: &Vec<(u32, Epic)>,
    story_entries: &Vec<(u32, Story)>,
) -> (b: bool)
    ensures
        b == entries_valid(last_item_id, epic_entries@, story_entries@),
{
    let ghost es = epic_entries@;
    let ghost ss = story_entries@;
    let n_e = epic_entries.len();
    let n_s = story_entries.len();

    let mut story_idx: HashMap<u32, ()> = HashMap::new();
    let mut j: usize = 0;
    while j < n_s
        invariant
            j <= n_s,
            n_s == ss.len(),
            ss == story_entries@,
            forall|a: int, b: int| 0 <= a < b < j ==> ss[a].0 != ss[b].0,
            forall|a: int| 0 <= a < j ==> (#[trigger] ss[a].0) <= last_item_id,
            forall|k: u32| #[trigger]
                story_idx@.contains_key(k) <==> exists|a: int| 0 <= a < j && ss[a].0 == k,
        decreases n_s - j,
    {
        let sid = story_entries[j].0;
        assert(sid == ss[j as int].0);
        if sid > last_item_id {
            proof {
                if entries_valid(last_item_id, es, ss) {
                    assert(ss[j as int].0 <= last_item_id);
                    assert(false);
                }
            }
            return false;
        }
        if story_idx.contains_key(&sid) {
            proof {
                let a = choose|a: int| 0 <= a < j && ss[a].0 == sid;
                if entries_valid(last_item_id, es, ss) {
                    assert(ss[a].0 != ss[j as int].0);
                    assert(false);
                }
            }
            return false;
        }
        story_idx.insert(sid, ());
        j = j + 1;
        proof {
            assert forall|k: u32| story_idx@.contains_key(k) implies exists|a: int|
                0 <= a < j && ss[a].0 == k by {
                if k == sid {
                    assert(ss[j - 1].0 == k);
                } else {
                    let a = choose|a: int| 0 <= a < j - 1 && ss[a].0 == k;
                    assert(0 <= a < j && ss[a].0 == k);
                }
            }
        }
    }

    let mut epic_idx: HashMap<u32, ()> = HashMap::new();
    let mut owner_idx: HashMap<u32, ()> = HashMap::new();
    let mut i: usize = 0;
    while i < n_e
        invariant
            i <= n_e,
            n_e == es.len(),
            n_s == ss.len(),
            es == epic_entries@,
            ss == story_entries@,
            forall|a: int, b: int| 0 <= a < b < n_s ==> ss[a].0 != ss[b].0,
            forall|a: int| 0 <= a < n_s ==> (#[trigger] ss[a].0) <= last_item_id,
            forall|k: u32| #[trigger]
                story_idx@.contains_key(k) <==> exists|a: int| 0 <= a < n_s && ss[a].0 == k,
            forall|a: int, b: int| 0 <= a < b < i ==> es[a].0 != es[b].0,
            forall|a: int| 0 <= a < i ==> (#[trigger] es[a].0) <= last_item_id,
            forall|a: int, b: int| 0 <= a < i && 0 <= b < n_s ==> es[a].0 != ss[b].0,
            forall|a: int| 0 <= a < i ==> strictly_sorted((#[trigger] es[a].1)@.stories),
            forall|a: int, sid: u32| #[trigger]
                entry_listed(es, a, sid) && a < i ==> story_idx@.contains_key(sid),
            forall|a1: int, a2: int, sid: u32|
                entry_listed(es, a1, sid) && entry_listed(es, a2, sid) && a1 < i && a2 < i
                    ==> a1 == a2,
            forall|k: u32| #[trigger]
                epic_idx@.contains_key(k) <==> exists|a: int| 0 <= a < i && es[a].0 == k,
            forall|sid: u32| #[trigger]
                owner_idx@.contains_key(sid) <==> exists|a: int|
                    0 <= a < i && entry_listed(es, a, sid),
        decreases n_e - i,
    {
        let entry = &epic_entries[i];
        let eid = entry.0;
        assert(*entry == es[i as int]);
        if eid > last_item_id {
            proof {
                if entries_valid(last_item_id, es, ss) {
                    assert(es[i as int].0 <= last_item_id);
                    assert(false);
                }
            }
            return false;
        }
        if epic_idx.contains_key(&eid) {
            proof {
                let a = choose|a: int| 0 <= a < i && es[a].0 == eid;
                if entries_valid(last_item_id, es, ss) {
                    assert(es[a].0 != es[i as int].0);
                    assert(false);
                }
            }
            return false;
        }
        if story_idx.contains_key(&eid) {
            proof {
                let b = choose|b: int| 0 <= b < n_s && ss[b].0 == eid;
                if entries_valid(last_item_id, es, ss) {
                    assert(es[i as int].0 != ss[b].0);
                    assert(false);
                }
            }
            return false;
        }
        let list = &entry.1.stories;
        let ghost lseq = list@;
        let m = list.len();
        let mut k: usize = 1;
        while k < m
            invariant
                1 <= k,
                m == lseq.len(),
                lseq == list@,
                i < n_e,
                n_e == es.len(),
                n_s == ss.len(),
                es == epic_entries@,
                ss == story_entries@,
                lseq == es[i as int].1@.stories,
                forall|t: int| 0 < t < k && t < m ==> lseq[t - 1] < (#[trigger] lseq[t]),
            decreases m - k,
        {
            if list[k - 1] >= list[k] {
                proof {
                    assert(lseq[k as int - 1] >= lseq[k as int]);
                    assert(es[i as int].1@.stories == lseq);
                    if entries_valid(last_item_id, es, ss) {
                        assert(strictly_sorted((es[i as int].1)@.stories));
                        assert(lseq[k as int - 1] < lseq[k as int]);
                        assert(false);
                    }
                }
                return false;
            }
            k = k + 1;
        }
        proof {
            lemma_sorted_from_adjacent(lseq);
            assert(strictly_sorted(es[i as int].1@.stories));
        }
        let mut k2: usize = 0;
        while k2 < m
            invariant
                k2 <= m,
                i < n_e,
                m == lseq.len(),
                lseq == list@,
                lseq == es[i as int].1@.stories,
                n_e == es.len(),
                n_s == ss.len(),
                es == epic_entries@,
                ss == story_entries@,
                forall|k: u32| #[trigger]
                    story_idx@.contains_key(k) <==> exists|a: int| 0 <= a < n_s && ss[a].0 == k,
                forall|t: int| 0 <= t < k2 ==> story_idx@.contains_key(#[trigger] lseq[t]),
                forall|t: int|
                    0 <= t < k2 ==> !(exists|a: int|
                        0 <= a < i && entry_listed(es, a, #[trigger] lseq[t])),
                strictly_sorted(lseq),
                forall|sid: u32| #[trigger]
                    owner_idx@.contains_key(sid) <==> ((exists|a: int|
                        0 <= a < i && entry_listed(es, a, sid)) || (exists|t: int|
                        0 <= t < k2 && lseq[t] == sid)),
            decreases m - k2,
        {
            let sid = list[k2];
            assert(lseq[k2 as int] == sid);
            if !story_idx.contains_key(&sid) {
                proof {
                    assert(entry_listed(es, i as int, sid));
                    if entries_valid(last_item_id, es, ss) {
                        let b = choose|b: int| 0 <= b < ss.len() && ss[b].0 == sid;
                        assert(story_idx@.contains_key(sid));
                        assert(false);
                    }
                }
                return false;
            }
            if owner_idx.contains_key(&sid) {
                proof {
                    if exists|a: int| 0 <= a < i && entry_listed(es, a, sid) {
                        let a = choose|a: int| 0 <= a < i && entry_listed(es, a, sid);
                        assert(entry_listed(es, i as int, sid));
                        if entries_valid(last_item_id, es, ss) {
                            assert(a == i as int);
                            assert(false);
                        }
                    } else {
                        let t = choose|t: int| 0 <= t < k2 && lseq[t] == sid;
                        assert(lseq[t] < lseq[k2 as int]);
                        assert(false);
                    }
                }
                return false;
            }
            owner_idx.insert(sid, ());
            k2 = k2 + 1;
            proof {
                assert forall|s2: u32| owner_idx@.contains_key(s2) implies ((exists|a: int|
                    0 <= a < i && entry_listed(es, a, s2)) || (exists|t: int|
                    0 <= t < k2 && lseq[t] == s2)) by {
                    if s2 == sid {
                        assert(lseq[k2 - 1] == s2);
                    }
                }
                assert forall|t: int| 0 <= t < k2 implies story_idx@.contains_key(
                    #[trigger] lseq[t],
                ) by {
                    if t == k2 - 1 {
                        assert(lseq[t] == sid);
                    }
                }
            }
        }
        epic_idx.insert(eid, ());
        i = i + 1;
        proof {
            let iprev = (i - 1) as int;
            assert forall|sid: u32| (exists|t: int| 0 <= t < m && lseq[t] == sid) implies
                entry_listed(es, iprev, sid) by {}
            assert forall|sid: u32| entry_listed(es, iprev, sid) implies (exists|t: int|
                0 <= t < m && lseq[t] == sid) by {}
            assert forall|k: u32| epic_idx@.contains_key(k) implies exists|a: int|
                0 <= a < i && es[a].0 == k by {
                if k == eid {
                    assert(es[iprev].0 == k);
                } else {
                    let a = choose|a: int| 0 <= a < iprev && es[a].0 == k;
                    assert(0 <= a < i && es[a].0 == k);
                }
            }
            assert forall|sid: u32| owner_idx@.contains_key(sid) implies exists|a: int|
                0 <= a < i && entry_listed(es, a, sid) by {
                if exists|a: int| 0 <= a < iprev && entry_listed(es, a, sid) {
                    let a = choose|a: int| 0 <= a < iprev && entry_listed(es, a, sid);
                    assert(0 <= a < i && entry_listed(es, a, sid));
                } else {
                    let t = choose|t: int| 0 <= t < m && lseq[t] == sid;
                    assert(entry_listed(es, iprev, sid));
                }
            }
            assert forall|sid: u32| (exists|a: int| 0 <= a < i && entry_listed(es, a, sid))
                implies owner_idx@.contains_key(sid) by {
                let a = choose|a: int| 0 <= a < i && entry_listed(es, a, sid);
                if a < iprev {
                    assert(owner_idx@.contains_key(sid));
                } else {
                    let t = choose|t: int| 0 <= t < lseq.len() && lseq[t] == sid;
                    assert(owner_idx@.contains_key(sid));
                }
            }
            assert forall|a: int, sid: u32| #[trigger]
                entry_listed(es, a, sid) && a < i implies story_idx@.contains_key(sid) by {
                if a == iprev {
                    let t = choose|t: int| 0 <= t < lseq.len() && lseq[t] == sid;
                    assert(story_idx@.contains_key(lseq[t]));
                }
            }
            assert forall|a1: int, a2: int, sid: u32|
                entry_listed(es, a1, sid) && entry_listed(es, a2, sid) && a1 < i && a2 < i
                    implies a1 == a2 by {
                if a1 == iprev && a2 < iprev {
                    let t = choose|t: int| 0 <= t < lseq.len() && lseq[t] == sid;
                    assert(!(exists|a: int| 0 <= a < iprev && entry_listed(es, a, lseq[t])));
                }
                if a2 == iprev && a1 < iprev {
                    let t = choose|t: int| 0 <= t < lseq.len() && lseq[t] == sid;
                    assert(!(exists|a: int| 0 <= a < iprev && entry_listed(es, a, lseq[t])));
                }
            }
        }
    }

    let mut j2: usize = 0;
    while j2 < n_s
        invariant
            j2 <= n_s,
            n_e == es.len(),
            n_s == ss.len(),
            es == epic_entries@,
            ss == story_entries@,
            forall|a: int, b: int| 0 <= a < b < n_s ==> ss[a].0 != ss[b].0,
            forall|a: int| 0 <= a < n_s ==> (#[trigger] ss[a].0) <= last_item_id,
            forall|k: u32| #[trigger]
                story_idx@.contains_key(k) <==> exists|a: int| 0 <= a < n_s && ss[a].0 == k,
            forall|a: int, b: int| 0 <= a < b < n_e ==> es[a].0 != es[b].0,
            forall|a: int| 0 <= a < n_e ==> (#[trigger] es[a].0) <= last_item_id,
            forall|a: int, b: int| 0 <= a < n_e && 0 <= b < n_s ==> es[a].0 != ss[b].0,
            forall|a: int| 0 <= a < n_e ==> strictly_sorted((#[trigger] es[a].1)@.stories),
            forall|a: int, sid: u32| #[trigger]
                entry_listed(es, a, sid) && a < n_e ==> story_idx@.contains_key(sid),
            forall|a1: int, a2: int, sid: u32|
                entry_listed(es, a1, sid) && entry_listed(es, a2, sid) ==> a1 == a2,
            forall|sid: u32| #[trigger]
                owner_idx@.contains_key(sid) <==> exists|a: int|
                    0 <= a < n_e && entry_listed(es, a, sid),
            forall|b: int| 0 <= b < j2 ==> some_entry_lists(es, (#[trigger] ss[b].0)),
        decreases n_s - j2,
    {
        let sid = story_entries[j2].0;
        assert(sid == ss[j2 as int].0);
        if !owner_idx.contains_key(&sid) {
            proof {
                if entries_valid(last_item_id, es, ss) {
                    assert(some_entry_lists(es, ss[j2 as int].0));
                    let a = choose|a: int| entry_listed(es, a, (ss[j2 as int].0));
                    assert(0 <= a < n_e && entry_listed(es, a, sid));
                    assert(owner_idx@.contains_key(sid));
                    assert(false);
                }
            }
            return false;
        }
        j2 = j2 + 1;
        proof {
            assert(owner_idx@.contains_key(sid));
            let a0 = choose|a: int| 0 <= a < n_e && entry_listed(es, a, sid);
            assert(entry_listed(es, a0, sid));
            assert(sid == ss[(j2 - 1) as int].0);
            assert forall|b: int| 0 <= b < j2 implies some_entry_lists(
                es,
                (#[trigger] ss[b].0),
            ) by {
                if b == j2 - 1 {
                    lemma_listed_exists(es, a0, ss[b].0);
                }
            }
        }
    }
    proof {
        assert forall|a: int, sid: u32| #[trigger] entry_listed(es, a, sid) implies exists|b: int|
            0 <= b < ss.len() && ss[b].0 == sid by {
            assert(story_idx@.contains_key(sid));
        }
    }
    true
}

impl DBState {
    /// An empty store: counter at zero, no entities.
    pub fn new() -> (s: DBState)
        ensures
            s@ == (StoreView {
                last_item_id: 0,
                epics: Map::<u32, EpicView>::empty(),
                stories: Map::<u32, StoryView>::empty(),
            }),
            s@.wf(),
    {
        let s = DBState { last_item_id: 0, epics: HashMap::new(), stories: HashMap::new() };
        proof {
            assert(s@.epics =~= Map::<u32, EpicView>::empty());
            assert(s@.stories =~= Map::<u32, StoryView>::empty());
        }
        s
    }

    /// Builds a store from parsed content — the counter and the epic and
    /// story entries — after checking referential integrity. Returns the
    /// store exactly when the entries denote a well-formed one (see
    /// [`entries_valid`]); the result then holds precisely the given
    /// entries under the given counter. Malformed content gets `None`.
    pub fn from_entries(
        last_item_id: u32,
        epic_entries: Vec<(u32, Epic)>,
        story_entries: Vec<(u32, Story)>,
    ) -> (r: Option<DBState>)
        ensures
            r is Some <==> entries_valid(last_item_id, epic_entries@, story_entries@),
            (match r {
                Some(db) => {
                    &&& db@.wf()
                    &&& db@.last_item_id == last_item_id
                    &&& forall|a: int|
                        0 <= a < epic_entries@.len() ==> db@.epics.contains_key(
                            (#[trigger] epic_entries@[a].0),
                        ) && db@.epics[epic_entries@[a].0] == epic_entries@[a].1@
                    &&& forall|k: u32| #[trigger]
                        db@.epics.contains_key(k) ==> some_epic_entry_has_key(epic_entries@, k)
                    &&& forall|b: int|
                        0 <= b < story_entries@.len() ==> db@.stories.contains_key(
                            (#[trigger] story_entries@[b].0),
                        ) && db@.stories[story_entries@[b].0] == story_entries@[b].1@
                    &&& forall|k: u32| #[trigger]
                        db@.stories.contains_key(k) ==> some_story_entry_has_key(
                            story_entries@,
                            k,
                        )
                },
                None => true,
            }),
    {
        if !entries_are_valid(last_item_id, &epic_entries, &story_entries) {
            return None;
        }
        let ghost es = epic_entries@;
        let ghost ss = story_entries@;
        let ghost n_e = es.len();
        let ghost n_s = ss.len();

        let mut epics_rest = epic_entries;
        let mut epics: HashMap<u32, Epic> = HashMap::new();
        while epics_rest.len() > 0
            invariant
                epics_rest@.len() <= n_e,
                epics_rest@ == es.take(epics_rest@.len() as int),
                n_e == es.len(),
                forall|a: int, b: int| 0 <= a < b < n_e ==> es[a].0 != es[b].0,
                forall|a: int|
                    epics_rest@.len() <= a < n_e ==> epics@.contains_key((#[trigger] es[a].0))
                        && epics@[es[a].0] == es[a].1,
                forall|k: u32| #[trigger]
                    epics@.contains_key(k) ==> some_epic_entry_has_key(es, k),
            decreases epics_rest@.len(),
        {
            let ghost m = epics_rest@.len() - 1;
            let pair = epics_rest.pop().unwrap();
            proof {
                assert(es.take(m + 1).drop_last() =~= es.take(m));
                assert(es.take(m + 1).last() == es[m]);
                assert(pair == es[m]);
            }
            let (key, value) = pair;
            epics.insert(key, value);
            proof {
                lemma_epic_key_exists(es, m, key);
                assert forall|a: int| epics_rest@.len() <= a < n_e implies epics@.contains_key(
                    (#[trigger] es[a].0),
                ) && epics@[es[a].0] == es[a].1 by {
                    if a != m {
                        assert(es[m].0 != es[a].0);
                    }
                }
            }
        }

        let mut stories_rest = story_entries;
        let mut stories: HashMap<u32, Story> = HashMap::new();
        while stories_rest.len() > 0
            invariant
                stories_rest@.len() <= n_s,
                stories_rest@ == ss.take(stories_rest@.len() as int),
                n_s == ss.len(),
                forall|a: int, b: int| 0 <= a < b < n_s ==> ss[a].0 != ss[b].0,
                forall|b: int|
                    stories_rest@.len() <= b < n_s ==> stories@.contains_key(
                        (#[trigger] ss[b].0),
                    ) && stories@[ss[b].0] == ss[b].1,
                forall|k: u32| #[trigger]
                    stories@.contains_key(k) ==> some_story_entry_has_key(ss, k),
            decreases stories_rest@.len(),
        {
            let ghost m = stories_rest@.len() - 1;
            let pair = stories_rest.pop().unwrap();
            proof {
                assert(ss.take(m + 1).drop_last() =~= ss.take(m));
                assert(ss.take(m + 1).last() == ss[m]);
                assert(pair == ss[m]);
            }
            let (key, value) = pair;
            stories.insert(key, value);
            proof {
                lemma_story_key_exists(ss, m, key);
                assert forall|b: int| stories_rest@.len() <= b < n_s implies stories@.contains_key(
                    (#[trigger] ss[b].0),
                ) && stories@[ss[b].0] == ss[b].1 by {
                    if b != m {
                        assert(ss[m].0 != ss[b].0);
                    }
                }
            }
        }

        let db = DBState { last_item_id, epics, stories };
        proof {
            Self::lemma_entries_to_wf(db, last_item_id, es, ss);
        }
        Some(db)
    }

    /// A store holding exactly a valid set of entries is well-formed.
    proof fn lemma_entries_to_wf(
        db: DBState,
        last_item_id: u32,
        es: Seq<(u32, Epic)>,
        ss: Seq<(u32, Story)>,
    )
        requires
            entries_valid(last_item_id, es, ss),
            db.last_item_id == last_item_id,
            forall|a: int|
                0 <= a < es.len() ==> db@.epics.contains_key((#[trigger] es[a].0))
                    && db@.epics[es[a].0] == es[a].1@,
            forall|k: u32| #[trigger] db@.epics.contains_key(k) ==> some_epic_entry_has_key(es, k),
            forall|b: int|
                0 <= b < ss.len() ==> db@.stories.contains_key((#[trigger] ss[b].0))
                    && db@.stories[ss[b].0] == ss[b].1@,
            forall|k: u32| #[trigger]
                db@.stories.contains_key(k) ==> some_story_entry_has_key(ss, k),
        ensures
            db@.wf(),
    {
        let v = db@;
        assert forall|id: u32| #[trigger] v.epics.contains_key(id) implies id <= v.last_item_id by {
            let a = choose|a: int| 0 <= a < es.len() && es[a].0 == id;
            assert(es[a].0 <= last_item_id);
        }
        assert forall|id: u32| #[trigger] v.stories.contains_key(id) implies id
            <= v.last_item_id by {
            let b = choose|b: int| 0 <= b < ss.len() && ss[b].0 == id;
            assert(ss[b].0 <= last_item_id);
        }
        assert forall|id: u32| #[trigger] v.stories.contains_key(id) implies !v.epics.contains_key(
            id,
        ) by {
            let b = choose|b: int| 0 <= b < ss.len() && ss[b].0 == id;
            if v.epics.contains_key(id) {
                let a = choose|a: int| 0 <= a < es.len() && es[a].0 == id;
                assert(es[a].0 != ss[b].0);
            }
        }
        assert forall|eid: u32| #[trigger] v.epics.contains_key(eid) implies strictly_sorted(
            v.epics[eid].stories,
        ) by {
            let a = choose|a: int| 0 <= a < es.len() && es[a].0 == eid;
            assert(v.epics[eid] == es[a].1@);
            assert(strictly_sorted((es[a].1)@.stories));
        }
        assert forall|eid: u32, sid: u32| #[trigger] v.story_in_epic(eid, sid) implies
            v.stories.contains_key(sid) by {
            let a = choose|a: int| 0 <= a < es.len() && es[a].0 == eid;
            assert(v.epics[eid] == es[a].1@);
            assert(entry_listed(es, a, sid));
            let b = choose|b: int| 0 <= b < ss.len() && ss[b].0 == sid;
            assert(v.stories.contains_key(ss[b].0));
        }
        assert forall|sid: u32| #[trigger] v.stories.contains_key(sid) implies exists|eid: u32|
            v.story_in_epic(eid, sid) by {
            let b = choose|b: int| 0 <= b < ss.len() && ss[b].0 == sid;
            assert(some_entry_lists(es, ss[b].0));
            let a = choose|a: int| entry_listed(es, a, sid);
            assert(v.epics.contains_key(es[a].0));
            assert(v.epics[es[a].0] == es[a].1@);
            assert(v.story_in_epic(es[a].0, sid));
        }
        assert forall|e1: u32, e2: u32, sid: u32|
            v.story_in_epic(e1, sid) && v.story_in_epic(e2, sid) implies e1 == e2 by {
            if v.story_in_epic(e1, sid) && v.story_in_epic(e2, sid) {
                let a1 = choose|a: int| 0 <= a < es.len() && es[a].0 == e1;
                let a2 = choose|a: int| 0 <= a < es.len() && es[a].0 == e2;
                assert(v.epics[e1] == es[a1].1@);
                assert(v.epics[e2] == es[a2].1@);
                assert(entry_listed(es, a1, sid));
                assert(entry_listed(es, a2, sid));
                assert(a1 == a2);
            }
        }
    }

    /// Stores a new epic under the next id and returns that id.
    pub fn new_epic(&mut self, epic: Epic) -> (id: u32)
        requires
            old(self)@.wf(),
            old(self)@.last_item_id < u32::MAX,
            epic@.stories.len() == 0,
        ensures
            final(self)@ == old(self)@.create_epic(epic@).0,
            id == old(self)@.create_epic(epic@).1,
            final(self)@.wf(),
    {
        proof {
            old(self)@.lemma_create_epic_wf(epic@);
        }
        self.last_item_id = self.last_item_id + 1;
        let id = self.last_item_id;
        self.epics.insert(id, epic);
        proof {
            assert(self@ =~= old(self)@.create_epic(epic@).0);
        }
        id
    }

    /// Stores a new story under the next id, appends that id to the owning
    /// epic's list, and returns the id; `NotFound` when the epic is absent.
    pub fn new_story(&mut self, story: Story, epic_id: u32) -> (r: Result<u32, DbError>)
        requires
            old(self)@.wf(),
            old(self)@.last_item_id < u32::MAX,
        ensures
            final(self)@ == old(self)@.create_story(story@, epic_id).0,
            r == old(self)@.create_story(story@, epic_id).1,
            final(self)@.wf(),
    {
        proof {
            old(self)@.lemma_create_story_wf(story@, epic_id);
        }
        let ghost storyv = story@;
        match self.epics.remove(&epic_id) {
            None => {
                proof {
                    assert(self@.epics =~= old(self)@.epics);
                    assert(self@ =~= old(self)@);
                }
                Err(DbError::NotFound)
            },
            Some(mut epic) => {
                self.last_item_id = self.last_item_id + 1;
                let id = self.last_item_id;
                epic.stories.push(id);
                let ghost epic2v = epic@;
                self.epics.insert(epic_id, epic);
                self.stories.insert(id, story);
                proof {
                    assert(old(self)@.epics.contains_key(epic_id));
                    assert(epic2v == EpicView {
                        stories: old(self)@.epics[epic_id].stories.push(id),
                        ..old(self)@.epics[epic_id]
                    });
                    assert(self@.epics =~= old(self)@.epics.insert(epic_id, epic2v));
                    assert(self@.stories =~= old(self)@.stories.insert(id, storyv));
                    assert(self@ =~= old(self)@.create_story(storyv, epic_id).0);
                }
                Ok(id)
            },
        }
    }

    /// Removes an epic and every story entry its list names (the cascade
    /// tolerates ids that have no story entry); `NotFound` when the epic is
    /// absent.
    pub fn delete_epic(&mut self, epic_id: u32) -> (r: Result<(), DbError>)
        requires
            old(self)@.wf(),
        ensures
            final(self)@ == old(self)@.delete_epic(epic_id).0,
            r == old(self)@.delete_epic(epic_id).1,
            final(self)@.wf(),
    {
        proof {
            old(self)@.lemma_delete_epic_wf(epic_id);
        }
        match self.epics.remove(&epic_id) {
            None => {
                proof {
                    assert(self@.epics =~= old(self)@.epics);
                    assert(self@ =~= old(self)@);
                }
                Err(DbError::NotFound)
            },
            Some(epic) => {
                let ghost s = epic.stories@;
                let n = epic.stories.len();
                let mut i: usize = 0;
                while i < n
                    invariant
                        i <= n,
                        n == s.len(),
                        s == epic.stories@,
                        self.last_item_id == old(self).last_item_id,
                        self.epics@ == old(self).epics@.remove(epic_id),
                        forall|k: u32| #[trigger]
                            self.stories@.contains_key(k) ==> old(self).stories@.contains_key(k)
                                && !s.take(i as int).contains(k) && self.stories@[k] == old(
                                self,
                            ).stories@[k],
                        forall|k: u32| #[trigger]
                            old(self).stories@.contains_key(k) && !s.take(i as int).contains(k)
                                ==> self.stories@.contains_key(k),
                    decreases n - i,
                {
                    let sid = epic.stories[i];
                    self.stories.remove(&sid);
                    i = i + 1;
                    proof {
                        let prev = (i - 1) as int;
                        assert(s.take(i as int) =~= s.take(prev).push(s[prev]));
                        assert forall|k: u32| s.take(i as int).contains(k) implies (s.take(
                            prev,
                        ).contains(k) || k == sid) by {
                            let j = choose|j: int|
                                0 <= j < s.take(i as int).len() && s.take(i as int)[j] == k;
                            if j < prev {
                                assert(s.take(prev)[j] == k);
                            }
                        }
                        assert forall|k: u32| s.take(prev).contains(k) implies s.take(
                            i as int,
                        ).contains(k) by {
                            let j = choose|j: int|
                                0 <= j < s.take(prev).len() && s.take(prev)[j] == k;
                            assert(s.take(i as int)[j] == k);
                        }
                        assert(s.take(i as int)[prev] == sid);
                        assert(s.take(i as int).contains(sid));
                    }
                }
                proof {
                    assert(s.take(n as int) =~= s);
                    let victims = s.to_set();
                    assert(self.stories@ =~= old(self).stories@.remove_keys(victims));
                    assert(self@.stories =~= old(self)@.stories.remove_keys(victims));
                    assert(self@ =~= old(self)@.delete_epic(epic_id).0);
                }
                Ok(())
            },
        }
    }

    /// Removes a story entry and its id from the owning epic's list.
    /// `NotFound` when either entity is absent. When both exist but the
    /// epic's list does not name the story, the removed story entry is put
    /// back (rollback) and the call fails with `Inconsistent`, leaving the
    /// store exactly as it was.
    pub fn delete_story(&mut self, story_id: u32, epic_id: u32) -> (r: Result<(), DbError>)
        requires
            old(self)@.wf(),
        ensures
            final(self)@ == old(self)@.delete_story(story_id, epic_id).0,
            r == old(self)@.delete_story(story_id, epic_id).1,
            final(self)@.wf(),
    {
        proof {
            old(self)@.lemma_delete_story_wf(story_id, epic_id);
        }
        if !self.epics.contains_key(&epic_id) {
            return Err(DbError::NotFound);
        }
        match self.stories.remove(&story_id) {
            None => {
                proof {
                    assert(self@.stories =~= old(self)@.stories);
                    assert(self@ =~= old(self)@);
                }
                Err(DbError::NotFound)
            },
            Some(story) => {
                let ghost storyv = story@;
                let mut epic = self.epics.remove(&epic_id).unwrap();
                let ghost list = epic.stories@;
                match find_index(&epic.stories, story_id) {
                    Some(idx) => {
                        epic.stories.remove(idx);
                        let ghost epic2v = epic@;
                        self.epics.insert(epic_id, epic);
                        proof {
                            assert(list.contains(story_id));
                            assert(list[list.index_of(story_id)] == story_id);
                            lemma_sorted_index_unique(list, idx as int, list.index_of(story_id));
                            assert(self@.epics =~= old(self)@.epics.insert(epic_id, epic2v));
                            assert(self@.stories =~= old(self)@.stories.remove(story_id));
                            assert(self@ =~= old(self)@.delete_story(story_id, epic_id).0);
                        }
                        Ok(())
                    },
                    None => {
                        self.stories.insert(story_id, story);
                        self.epics.insert(epic_id, epic);
                        proof {
                            assert(self@.stories =~= old(self)@.stories);
                            assert(self@.epics =~= old(self)@.epics);
                            assert(self@ =~= old(self)@);
                        }
                        Err(DbError::Inconsistent)
                    },
                }
            },
        }
    }

    /// Replaces the status of an epic; `NotFound` when the epic is absent.
    pub fn update_epic_status(&mut self, epic_id: u32, status: Status) -> (r: Result<(), DbError>)
        requires
            old(self)@.wf(),
        ensures
            final(self)@ == old(self)@.update_epic_status(epic_id, status).0,
            r == old(self)@.update_epic_status(epic_id, status).1,
            final(self)@.wf(),
    {
        proof {
            old(self)@.lemma_update_epic_status_wf(epic_id, status);
        }
        match self.epics.remove(&epic_id) {
            None => {
                proof {
                    assert(self@.epics =~= old(self)@.epics);
                    assert(self@ =~= old(self)@);
                }
                Err(DbError::NotFound)
            },
            Some(mut epic) => {
                epic.status = status;
                let ghost epic2v = epic@;
                self.epics.insert(epic_id, epic);
                proof {
                    assert(self@.epics =~= old(self)@.epics.insert(epic_id, epic2v));
                    assert(self@ =~= old(self)@.update_epic_status(epic_id, status).0);
                }
                Ok(())
            },
        }
    }

    /// Replaces the status of a story; `NotFound` when the story is absent.
    pub fn update_story_status(&mut self, story_id: u32, status: Status) -> (r: Result<
        (),
        DbError,
    >)
        requires
            old(self)@.wf(),
        ensures
            final(self)@ == old(self)@.update_story_status(story_id, status).0,
            r == old(self)@.update_story_status(story_id, status).1,
            final(self)@.wf(),
    {
        proof {
            old(self)@.lemma_update_story_status_wf(story_id, status);
        }
        match self.stories.remove(&story_id) {
            None => {
                proof {
                    assert(self@.stories =~= old(self)@.stories);
                    assert(self@ =~= old(self)@);
                }
                Err(DbError::NotFound)
            },
            Some(mut story) => {
                story.status = status;
                let ghost story2v = story@;
                self.stories.insert(story_id, story);
                proof {
                    assert(self@.stories =~= old(self)@.stories.insert(story_id, story2v));
                    assert(self@ =~= old(self)@.update_story_status(story_id, status).0);
                }
                Ok(())
            },
        }
    }
}

impl StoreView {
    /// Creating a story in a well-formed store keeps the store well-formed:
    /// the fresh id exceeds every id in use, so appending it keeps the
    /// owning epic's list strictly ascending and collides with nothing.
    pub proof fn lemma_create_story_wf(self, story: StoryView, epic_id: u32)
        requires
            self.wf(),
            self.last_item_id < u32::MAX,
        ensures
            self.create_story(story, epic_id).0.wf(),
    {
        if self.epics.contains_key(epic_id) {
            let id = (self.last_item_id + 1) as u32;
            let post = self.create_story(story, epic_id).0;
            let list2 = self.epics[epic_id].stories.push(id);
            assert forall|i: int| 0 <= i < self.epics[epic_id].stories.len() implies
                self.epics[epic_id].stories[i] < id by {
                assert(self.story_in_epic(epic_id, self.epics[epic_id].stories[i]));
            }
            assert(strictly_sorted(list2));
            assert forall|eid: u32, sid: u32| #[trigger] post.story_in_epic(eid, sid) implies
                post.stories.contains_key(sid) by {
                if eid == epic_id {
                    if sid != id {
                        let j = choose|j: int| 0 <= j < list2.len() && list2[j] == sid;
                        assert(self.epics[epic_id].stories[j] == sid);
                        assert(self.story_in_epic(epic_id, sid));
                    }
                } else {
                    assert(self.story_in_epic(eid, sid));
                }
            }
            assert forall|sid: u32| #[trigger] post.stories.contains_key(sid) implies exists|
                eid: u32,
            | post.story_in_epic(eid, sid) by {
                if sid == id {
                    assert(list2[list2.len() - 1] == id);
                    assert(list2.contains(id));
                    assert(post.story_in_epic(epic_id, id));
                } else {
                    let eid = choose|eid: u32| self.story_in_epic(eid, sid);
                    assert(self.story_in_epic(eid, sid));
                    if eid == epic_id {
                        let j = choose|j: int|
                            0 <= j < self.epics[epic_id].stories.len()
                                && self.epics[epic_id].stories[j] == sid;
                        assert(list2[j] == sid);
                        assert(post.story_in_epic(epic_id, sid));
                    } else {
                        assert(post.story_in_epic(eid, sid));
                    }
                }
            }
            assert forall|e1: u32, e2: u32, sid: u32|
                post.story_in_epic(e1, sid) && post.story_in_epic(e2, sid) implies e1 == e2 by {
                if post.story_in_epic(e1, sid) && post.story_in_epic(e2, sid) {
                    if sid == id {
                        // only the updated epic lists the fresh id: every id
                        // listed by an untouched epic is an existing story id,
                        // hence at most last_item_id
                        if e1 != epic_id {
                            assert(self.story_in_epic(e1, id));
                            assert(self.stories.contains_key(id));
                            assert(false);
                        }
                        if e2 != epic_id {
                            assert(self.story_in_epic(e2, id));
                            assert(self.stories.contains_key(id));
                            assert(false);
                        }
                    } else {
                        if e1 == epic_id {
                            let j = choose|j: int| 0 <= j < list2.len() && list2[j] == sid;
                            assert(self.epics[epic_id].stories[j] == sid);
                            assert(self.story_in_epic(e1, sid));
                        } else {
                            assert(self.story_in_epic(e1, sid));
                        }
                        if e2 == epic_id {
                            let j = choose|j: int| 0 <= j < list2.len() && list2[j] == sid;
                            assert(self.epics[epic_id].stories[j] == sid);
                            assert(self.story_in_epic(e2, sid));
                        } else {
                            assert(self.story_in_epic(e2, sid));
                        }
                    }
                }
            }
        }
    }

    /// Deleting an epic and cascading over its list in a well-formed store
    /// keeps the store well-formed: the cascade removes exactly the stories
    /// the deleted epic owned, and no other epic listed any of them.
    pub proof fn lemma_delete_epic_wf(self, epic_id: u32)
        requires
            self.wf(),
        ensures
            self.delete_epic(epic_id).0.wf(),
    {
        if self.epics.contains_key(epic_id) {
            let post = self.delete_epic(epic_id).0;
            let victims = self.epics[epic_id].stories.to_set();
            assert forall|eid: u32, sid: u32| #[trigger] post.story_in_epic(eid, sid) implies
                post.stories.contains_key(sid) by {
                assert(eid != epic_id);
                assert(self.story_in_epic(eid, sid));
                if victims.contains(sid) {
                    assert(self.story_in_epic(epic_id, sid));
                    assert(false);
                }
            }
            assert forall|sid: u32| #[trigger] post.stories.contains_key(sid) implies exists|
                eid: u32,
            | post.story_in_epic(eid, sid) by {
                let eid = choose|eid: u32| self.story_in_epic(eid, sid);
                assert(self.story_in_epic(eid, sid));
                if eid == epic_id {
                    assert(victims.contains(sid));
                    assert(false);
                }
                assert(post.story_in_epic(eid, sid));
            }
            assert forall|e1: u32, e2: u32, sid: u32|
                post.story_in_epic(e1, sid) && post.story_in_epic(e2, sid) implies e1 == e2 by {
                if post.story_in_epic(e1, sid) && post.story_in_epic(e2, sid) {
                    assert(self.story_in_epic(e1, sid));
                    assert(self.story_in_epic(e2, sid));
                }
            }
        }
    }

    /// Law: deleting an epic succeeds whenever the epic exists, and
    /// afterwards the epics mapping no longer contains the epic id and the
    /// stories mapping contains none of the story ids the epic's list held.
    pub proof fn lemma_delete_epic_cascade(self, epic_id: u32)
        requires
            self.wf(),
            self.epics.contains_key(epic_id),
        ensures
            self.delete_epic(epic_id).1 == Ok::<(), DbError>(()),
            !self.delete_epic(epic_id).0.epics.contains_key(epic_id),
            forall|i: int|
                0 <= i < self.epics[epic_id].stories.len()
                    ==> !self.delete_epic(epic_id).0.stories.contains_key(
                    #[trigger] self.epics[epic_id].stories[i],
                ),
    {
        let victims = self.epics[epic_id].stories.to_set();
        assert forall|i: int| 0 <= i < self.epics[epic_id].stories.len() implies !self.delete_epic(
            epic_id,
        ).0.stories.contains_key(self.epics[epic_id].stories[i]) by {
            assert(self.epics[epic_id].stories.contains(self.epics[epic_id].stories[i]));
            assert(victims.contains(self.epics[epic_id].stories[i]));
        }
    }

    /// Law: in a well-formed store the id the next creation will assign is
    /// not held by any epic, any story, or any epic's story list. Ids are
    /// therefore never assigned twice and never reused after a deletion:
    /// every id in use stays at or below the counter, and the counter only
    /// grows (see `lemma_counter_never_decreases`).
    pub proof fn lemma_next_id_fresh(self)
        requires
            self.wf(),
            self.last_item_id < u32::MAX,
        ensures
            !self.epics.contains_key((self.last_item_id + 1) as u32),
            !self.stories.contains_key((self.last_item_id + 1) as u32),
            forall|eid: u32| #[trigger]
                self.epics.contains_key(eid) ==> !self.epics[eid].stories.contains(
                    (self.last_item_id + 1) as u32,
                ),
    {
        let id = (self.last_item_id + 1) as u32;
        assert forall|eid: u32| #[trigger] self.epics.contains_key(eid) implies
            !self.epics[eid].stories.contains(id) by {
            if self.epics[eid].stories.contains(id) {
                assert(self.story_in_epic(eid, id));
                assert(self.stories.contains_key(id));
            }
        }
    }

    /// Law: no operation ever lowers the id counter. Creations raise it by
    /// one; deletions and status updates leave it alone.
    pub proof fn lemma_counter_never_decreases(
        self,
        epic: EpicView,
        story: StoryView,
        eid: u32,
        sid: u32,
        status: Status,
    )
        ensures
            self.last_item_id < u32::MAX ==> self.create_epic(epic).0.last_item_id
                >= self.last_item_id,
            self.last_item_id < u32::MAX ==> self.create_story(story, eid).0.last_item_id
                >= self.last_item_id,
            self.delete_epic(eid).0.last_item_id == self.last_item_id,
            self.delete_story(sid, eid).0.last_item_id == self.last_item_id,
            self.update_epic_status(eid, status).0.last_item_id == self.last_item_id,
            self.update_story_status(sid, status).0.last_item_id == self.last_item_id,
    {
    }

    /// Law: a delete that fails with `Inconsistent` returns the store
    /// exactly as it was, the rollback having reinstated the removed story
    /// entry; the stories mapping and the epic's list are untouched.
    pub proof fn lemma_delete_story_inconsistent_rollback(self, story_id: u32, epic_id: u32)
        requires
            self.epics.contains_key(epic_id),
            self.stories.contains_key(story_id),
            !self.epics[epic_id].stories.contains(story_id),
        ensures
            self.delete_story(story_id, epic_id).0 == self,
            self.delete_story(story_id, epic_id).1 == Err::<(), DbError>(DbError::Inconsistent),
    {
    }

    /// Law: updating an epic's status is idempotent: a second application
    /// of the same status changes nothing and reports the same outcome.
    pub proof fn lemma_update_epic_status_idempotent(self, epic_id: u32, status: Status)
        ensures
            self.update_epic_status(epic_id, status).0.update_epic_status(epic_id, status).0
                == self.update_epic_status(epic_id, status).0,
            self.update_epic_status(epic_id, status).0.update_epic_status(epic_id, status).1
                == self.update_epic_status(epic_id, status).1,
    {
        if self.epics.contains_key(epic_id) {
            let once = self.update_epic_status(epic_id, status).0;
            assert(once.update_epic_status(epic_id, status).0.epics =~= once.epics);
            assert(once.update_epic_status(epic_id, status).0 =~= once);
        }
    }

    /// Law: updating a story's status is idempotent: a second application
    /// of the same status changes nothing and reports the same outcome.
    pub proof fn lemma_update_story_status_idempotent(self, story_id: u32, status: Status)
        ensures
            self.update_story_status(story_id, status).0.update_story_status(story_id, status).0
                == self.update_story_status(story_id, status).0,
            self.update_story_status(story_id, status).0.update_story_status(story_id, status).1
                == self.update_story_status(story_id, status).1,
    {
        if self.stories.contains_key(story_id) {
            let once = self.update_story_status(story_id, status).0;
            assert(once.update_story_status(story_id, status).0.stories =~= once.stories);
            assert(once.update_story_status(story_id, status).0 =~= once);
        }
    }

    /// Deleting a story in a well-formed store keeps the store well-formed:
    /// removing an id from a strictly ascending list keeps it strictly
    /// ascending, and every other listed id keeps its story entry.
    pub proof fn lemma_delete_story_wf(self, story_id: u32, epic_id: u32)
        requires
            self.wf(),
        ensures
            self.delete_story(story_id, epic_id).0.wf(),
    {
        if self.epics.contains_key(epic_id) && self.stories.contains_key(story_id)
            && self.epics[epic_id].stories.contains(story_id) {
            let list = self.epics[epic_id].stories;
            let idx = list.index_of(story_id);
            assert(0 <= idx < list.len() && list[idx] == story_id);
            let list2 = list.remove(idx);
            let post = self.delete_story(story_id, epic_id).0;
            lemma_strictly_sorted_remove(list, idx);
            assert(self.story_in_epic(epic_id, story_id));
            assert forall|t: u32| list2.contains(t) implies (list.contains(t) && t != story_id) by {
                let j = choose|j: int| 0 <= j < list2.len() && list2[j] == t;
                if j < idx {
                    assert(list[j] == t);
                    if t == story_id {
                        lemma_sorted_index_unique(list, j, idx);
                    }
                } else {
                    assert(list[j + 1] == t);
                    if t == story_id {
                        lemma_sorted_index_unique(list, j + 1, idx);
                    }
                }
            }
            assert forall|t: u32| list.contains(t) && t != story_id implies list2.contains(t) by {
                let j = choose|j: int| 0 <= j < list.len() && list[j] == t;
                if j < idx {
                    assert(list2[j] == t);
                } else {
                    assert(j != idx);
                    assert(list2[j - 1] == t);
                }
            }
            assert forall|e: u32, t: u32| #[trigger] post.story_in_epic(e, t) implies
                post.stories.contains_key(t) by {
                if e == epic_id {
                    assert(list.contains(t) && t != story_id);
                    assert(self.story_in_epic(epic_id, t));
                } else {
                    assert(self.story_in_epic(e, t));
                    assert(t != story_id);
                }
            }
            assert forall|t: u32| #[trigger] post.stories.contains_key(t) implies exists|e: u32|
                post.story_in_epic(e, t) by {
                let e = choose|e: u32| self.story_in_epic(e, t);
                assert(self.story_in_epic(e, t));
                if e == epic_id {
                    assert(list2.contains(t));
                    assert(post.story_in_epic(epic_id, t));
                } else {
                    assert(post.story_in_epic(e, t));
                }
            }
            assert forall|e1: u32, e2: u32, t: u32|
                post.story_in_epic(e1, t) && post.story_in_epic(e2, t) implies e1 == e2 by {
                if post.story_in_epic(e1, t) && post.story_in_epic(e2, t) {
                    assert(self.story_in_epic(e1, t));
                    assert(self.story_in_epic(e2, t));
                }
            }
        }
    }

    /// Replacing an epic's status never touches an id or a story list, so a
    /// well-formed store stays well-formed.
    pub proof fn lemma_update_epic_status_wf(self, epic_id: u32, status: Status)
        requires
            self.wf(),
        ensures
            self.update_epic_status(epic_id, status).0.wf(),
    {
        if self.epics.contains_key(epic_id) {
            let post = self.update_epic_status(epic_id, status).0;
            assert forall|e: u32, t: u32| #[trigger] post.story_in_epic(e, t) implies
                self.story_in_epic(e, t) by {}
            assert forall|e: u32, t: u32| #[trigger] self.story_in_epic(e, t) implies
                post.story_in_epic(e, t) by {}
            assert forall|t: u32| #[trigger] post.stories.contains_key(t) implies exists|e: u32|
                post.story_in_epic(e, t) by {
                let e = choose|e: u32| self.story_in_epic(e, t);
                assert(self.story_in_epic(e, t));
                assert(post.story_in_epic(e, t));
            }
        }
    }

    /// Replacing a story's status never touches an id or a story list, so a
    /// well-formed store stays well-formed.
    pub proof fn lemma_update_story_status_wf(self, story_id: u32, status: Status)
        requires
            self.wf(),
        ensures
            self.update_story_status(story_id, status).0.wf(),
    {
        if self.stories.contains_key(story_id) {
            let post = self.update_story_status(story_id, status).0;
            assert forall|e: u32, t: u32| #[trigger] post.story_in_epic(e, t) implies
                self.story_in_epic(e, t) by {}
            assert forall|e: u32, t: u32| #[trigger] self.story_in_epic(e, t) implies
                post.story_in_epic(e, t) by {}
            assert forall|t: u32| #[trigger] post.stories.contains_key(t) implies exists|e: u32|
                post.story_in_epic(e, t) by {
                let e = choose|e: u32| self.story_in_epic(e, t);
                assert(self.story_in_epic(e, t));
                assert(post.story_in_epic(e, t));
            }
        }
    }

    /// Creating an epic with an empty story list in a well-formed store
    /// keeps the store well-formed.
    pub proof fn lemma_create_epic_wf(self, epic: EpicView)
        requires
            self.wf(),
            self.last_item_id < u32::MAX,
            epic.stories.len() == 0,
        ensures
            self.create_epic(epic).0.wf(),
    {
        let id = (self.last_item_id + 1) as u32;
        let post = self.create_epic(epic).0;
        assert forall|eid: u32, sid: u32| #[trigger] post.story_in_epic(eid, sid) implies
            self.story_in_epic(eid, sid) by {
            assert(eid != id);
        }
        assert forall|sid: u32| #[trigger] post.stories.contains_key(sid) implies exists|eid: u32|
            post.story_in_epic(eid, sid) by {
            let eid = choose|eid: u32| self.story_in_epic(eid, sid);
            assert(self.story_in_epic(eid, sid));
            assert(post.story_in_epic(eid, sid));
        }
    }
}


} // verus!

