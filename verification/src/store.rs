//! The note collection: identifier allocation, the store operations, and
//! their laws.

use vstd::prelude::*;
use crate::note::{append_distinct, views, Note, NoteView};
use crate::order::SortMethod;
use crate::search::{contains_keyword, matches_pred, note_matches, to_lower};
use crate::sort::{sort_notes, sort_spec};

verus! {

/// A hard failure of the store: a missing id on removal, a backing file
/// that does not parse, or a filesystem error.
#[derive(Clone, Copy, Debug, PartialEq, Eq, Structural)]
pub enum StoreError {
    NotFound,
    MalformedStore,
    IoFailure,
}

/// The outcome of an edit: applied, or one of the two soft conditions the
/// user is told about.
#[derive(Clone, Copy, Debug, PartialEq, Eq, Structural)]
pub enum EditOutcome {
    Edited,
    EmptyContent,
    NotFound,
}

/// The outcome of adding tags: applied, or one of the two soft conditions
/// the user is told about.
#[derive(Clone, Copy, Debug, PartialEq, Eq, Structural)]
pub enum TagOutcome {
    Tagged,
    NoTags,
    NotFound,
}

/// The full store as persisted: the live notes in storage order, and the
/// freed identifiers awaiting reuse in the order they were freed.
pub struct Collection {
    pub notes: Vec<Note>,
    pub free_ids: Vec<u32>,
}

/// The mathematical model of a collection.
#[verifier::ext_equal]
pub ghost struct CollectionView {
    pub notes: Seq<NoteView>,
    pub free_ids: Seq<u32>,
}

impl View for Collection {
    type V = CollectionView;

    open spec fn view(&self) -> CollectionView {
        CollectionView { notes: views(self.notes@), free_ids: self.free_ids@ }
    }
}

impl CollectionView {
    /// The collection invariant: live notes carry pairwise distinct ids,
    /// the freed ids are pairwise distinct, no id is both live and freed,
    /// and every note is well formed.
    pub open spec fn wf(self) -> bool {
        &&& forall|i: int, j: int|
            0 <= i < j < self.notes.len() ==> #[trigger] self.notes[i].id != #[trigger] self.notes[j].id
        &&& forall|i: int, j: int|
            0 <= i < j < self.free_ids.len() ==> #[trigger] self.free_ids[i]
                != #[trigger] self.free_ids[j]
        &&& forall|i: int, j: int|
            0 <= i < self.notes.len() && 0 <= j < self.free_ids.len()
                ==> #[trigger] self.notes[i].id != #[trigger] self.free_ids[j]
        &&& forall|i: int| 0 <= i < self.notes.len() ==> (#[trigger] self.notes[i]).wf()
    }

    /// Whether a live note carries the id.
    pub open spec fn has_live_id(self, id: u32) -> bool {
        exists|i: int| 0 <= i < self.notes.len() && (#[trigger] self.notes[i]).id == id
    }

    /// The position of the live note carrying the id; under `wf` there is
    /// at most one.
    pub open spec fn live_index_of(self, id: u32) -> int {
        choose|i: int| 0 <= i < self.notes.len() && (#[trigger] self.notes[i]).id == id
    }
}

/// The greatest id among the live notes, or zero if there are none.
pub open spec fn max_live_id(s: Seq<NoteView>) -> int
    decreases s.len(),
{
    if s.len() == 0 {
        0
    } else {
        let rest = max_live_id(s.drop_last());
        if s.last().id > rest {
            s.last().id as int
        } else {
            rest
        }
    }
}

pub proof fn lemma_max_live_id_bound(s: Seq<NoteView>)
    ensures
        0 <= max_live_id(s),
        forall|i: int| 0 <= i < s.len() ==> (#[trigger] s[i]).id <= max_live_id(s),
    decreases s.len(),
{
    if s.len() > 0 {
        lemma_max_live_id_bound(s.drop_last());
        assert forall|i: int| 0 <= i < s.len() implies (#[trigger] s[i]).id <= max_live_id(s) by {
            if i < s.len() - 1 {
                assert(s.drop_last()[i] == s[i]);
            }
        }
    }
}

/// The id the next add receives: the first freed id if one is waiting,
/// else one more than the greatest live id (one, when the store is empty).
pub open spec fn alloc_id(c: CollectionView) -> u32 {
    if c.free_ids.len() > 0 {
        c.free_ids[0]
    } else {
        (max_live_id(c.notes) + 1) as u32
    }
}

/// The collection after adding a note: the new note, carrying the
/// allocated id and equal timestamps, is appended, and a reused id leaves
/// the front of the free list.
pub open spec fn spec_add(
    c: CollectionView,
    content: Seq<char>,
    tags: Seq<Seq<char>>,
    now: i64,
) -> CollectionView {
    CollectionView {
        notes: c.notes.push(
            NoteView { id: alloc_id(c), content, tags, created_at: now, updated_at: now },
        ),
        free_ids: if c.free_ids.len() > 0 {
            c.free_ids.drop_first()
        } else {
            c.free_ids
        },
    }
}

/// The collection after removing the note with the id: the last note takes
/// its place (removal does not keep storage order), and the id joins the
/// back of the free list.
pub open spec fn spec_remove(c: CollectionView, id: u32) -> CollectionView
    recommends
        c.has_live_id(id),
{
    let i = c.live_index_of(id);
    CollectionView {
        notes: c.notes.update(i, c.notes.last()).drop_last(),
        free_ids: c.free_ids.push(id),
    }
}

/// The collection after editing the note with the id: its content is
/// replaced and its update time set; everything else is untouched.
pub open spec fn spec_edit(c: CollectionView, id: u32, content: Seq<char>, now: i64) -> CollectionView
    recommends
        c.has_live_id(id),
{
    let i = c.live_index_of(id);
    CollectionView {
        notes: c.notes.update(
            i,
            NoteView { content, updated_at: now, ..c.notes[i] },
        ),
        free_ids: c.free_ids,
    }
}

/// The collection after tagging the note with the id: the given tags are
/// merged into its tag list; timestamps and everything else are untouched.
pub open spec fn spec_add_tag(c: CollectionView, id: u32, tags: Seq<Seq<char>>) -> CollectionView
    recommends
        c.has_live_id(id),
{
    let i = c.live_index_of(id);
    CollectionView {
        notes: c.notes.update(
            i,
            NoteView { tags: append_distinct(c.notes[i].tags, tags), ..c.notes[i] },
        ),
        free_ids: c.free_ids,
    }
}

impl Collection {
    /// The empty store.
    pub fn new() -> (c: Collection)
        ensures
            c@.notes.len() == 0,
            c@.free_ids.len() == 0,
            c@.wf(),
    {
        let c = Collection { notes: Vec::new(), free_ids: Vec::new() };
        proof {
            assert(c@.notes =~= Seq::<NoteView>::empty());
        }
        c
    }

    /// The position of the live note carrying the id, if any.
    fn find_index(&self, id: u32) -> (r: Option<usize>)
        ensures
            match r {
                Some(i) => i < self@.notes.len() && self@.notes[i as int].id == id
                    && forall|j: int| 0 <= j < i ==> self@.notes[j].id != id,
                None => !self@.has_live_id(id),
            },
    {
        let mut i: usize = 0;
        while i < self.notes.len()
            invariant
                i <= self.notes.len(),
                forall|j: int| 0 <= j < i ==> self@.notes[j].id != id,
            decreases self.notes.len() - i,
        {
            proof {
                assert(self@.notes[i as int] == self.notes@[i as int]@);
            }
            if self.notes[i].id == id {
                return Some(i);
            }
            i += 1;
        }
        None
    }

    /// Adds a note with the given content and tags, both taken verbatim,
    /// stamped with `now` as both its creation and update time. The note
    /// receives the first freed id if one is waiting, else a fresh id
    /// greater than every live one; the returned id is live in no other
    /// note, so live ids stay pairwise distinct.
    pub fn add_note(&mut self, content: String, tags: Vec<String>, now: i64) -> (id: u32)
        requires
            old(self)@.wf(),
            old(self)@.free_ids.len() > 0 || max_live_id(old(self)@.notes) < u32::MAX,
        ensures
            final(self)@.wf(),
            id == alloc_id(old(self)@),
            !old(self)@.has_live_id(id),
            final(self)@ == spec_add(old(self)@, content@, tags.deep_view(), now),
    {
        let ghost orig = self@;
        let new_id: u32;
        if self.free_ids.len() > 0 {
            new_id = self.free_ids.remove(0);
            proof {
                assert(self.free_ids@ =~= orig.free_ids.drop_first());
            }
        } else {
            let mut mx: u32 = 0;
            let mut i: usize = 0;
            proof {
                assert(orig.notes.take(0) =~= Seq::<NoteView>::empty());
            }
            while i < self.notes.len()
                invariant
                    i <= self.notes.len(),
                    self@ == orig,
                    mx as int == max_live_id(orig.notes.take(i as int)),
                decreases self.notes.len() - i,
            {
                proof {
                    assert(orig.notes.take(i + 1).drop_last() =~= orig.notes.take(i as int));
                    assert(orig.notes.take(i + 1).last() == orig.notes[i as int]);
                    assert(orig.notes[i as int] == self.notes@[i as int]@);
                }
                if self.notes[i].id > mx {
                    mx = self.notes[i].id;
                }
                i += 1;
            }
            proof {
                assert(orig.notes.take(orig.notes.len() as int) =~= orig.notes);
                lemma_max_live_id_bound(orig.notes);
            }
            new_id = mx + 1;
        }
        let note = Note { id: new_id, content, tags, created_at: now, updated_at: now };
        self.notes.push(note);
        proof {
            assert(self@.notes =~= orig.notes.push(
                NoteView {
                    id: new_id,
                    content: content@,
                    tags: tags.deep_view(),
                    created_at: now,
                    updated_at: now,
                },
            ));
            assert(self@ =~= spec_add(orig, content@, tags.deep_view(), now));
            if orig.free_ids.len() == 0 {
                lemma_max_live_id_bound(orig.notes);
            }
            assert forall|i: int, j: int| 0 <= i < j < self@.notes.len() implies #[trigger] self@
                .notes[i].id != #[trigger] self@.notes[j].id by {
                if j < self@.notes.len() - 1 {
                    assert(orig.notes[i].id != orig.notes[j].id);
                }
            }
        }
        new_id
    }

    /// Removes the note carrying the id, failing with `NotFound` when no
    /// live note carries it. The last note takes the removed note's place,
    /// and the id joins the back of the free list for later reuse.
    pub fn remove_note(&mut self, id: u32) -> (r: Result<(), StoreError>)
        requires
            old(self)@.wf(),
        ensures
            final(self)@.wf(),
            r is Ok <==> old(self)@.has_live_id(id),
            r is Ok ==> final(self)@ == spec_remove(old(self)@, id),
            r is Err ==> *final(self) == *old(self) && r == Err::<(), StoreError>(
                StoreError::NotFound,
            ),
    {
        let ghost orig = self@;
        match self.find_index(id) {
            None => Err(StoreError::NotFound),
            Some(i) => {
                proof {
                    assert(orig.has_live_id(id));
                    let k = orig.live_index_of(id);
                    assert(orig.notes[k].id == id);
                    assert(k == i as int);
                }
                self.notes.swap_remove(i);
                self.free_ids.push(id);
                proof {
                    let after = orig.notes.update(i as int, orig.notes.last()).drop_last();
                    assert(self@.notes =~= after);
                    assert(self@ =~= spec_remove(orig, id));
                    assert forall|x: int, y: int| 0 <= x < y < after.len() implies #[trigger] after[x].id
                        != #[trigger] after[y].id by {
                        assert(after[x] == if x == i as int {
                            orig.notes.last()
                        } else {
                            orig.notes[x]
                        });
                        assert(after[y] == if y == i as int {
                            orig.notes.last()
                        } else {
                            orig.notes[y]
                        });
                    }
                }
                Ok(())
            },
        }
    }

    /// Replaces the content of the note carrying the id and stamps `now`
    /// as its update time. Empty content and a missing id are soft
    /// conditions: the store is left untouched and the outcome says which.
    pub fn edit_note(&mut self, id: u32, content: String, now: i64) -> (o: EditOutcome)
        requires
            old(self)@.wf(),
            forall|i: int|
                0 <= i < old(self)@.notes.len() && (#[trigger] old(self)@.notes[i]).id == id
                    ==> old(self)@.notes[i].created_at <= now,
        ensures
            final(self)@.wf(),
            content@.len() == 0 ==> o == EditOutcome::EmptyContent && *final(self) == *old(self),
            content@.len() > 0 && !old(self)@.has_live_id(id) ==> o == EditOutcome::NotFound
                && *final(self) == *old(self),
            content@.len() > 0 && old(self)@.has_live_id(id) ==> o == EditOutcome::Edited
                && final(self)@ == spec_edit(old(self)@, id, content@, now),
    {
        let ghost orig = self@;
        if content.as_str().is_empty() {
            return EditOutcome::EmptyContent;
        }
        match self.find_index(id) {
            None => EditOutcome::NotFound,
            Some(i) => {
                proof {
                    assert(orig.has_live_id(id));
                    let k = orig.live_index_of(id);
                    assert(orig.notes[k].id == id);
                    assert(k == i as int);
                }
                let mut n = self.notes.remove(i);
                n.content = content;
                n.updated_at = now;
                self.notes.insert(i, n);
                proof {
                    assert(self@.notes =~= orig.notes.update(
                        i as int,
                        NoteView { content: content@, updated_at: now, ..orig.notes[i as int] },
                    ));
                    assert(self@ =~= spec_edit(orig, id, content@, now));
                }
                EditOutcome::Edited
            },
        }
    }

    /// Merges the given tags into the note carrying the id: each tag not
    /// already present is appended in first-seen order; duplicates within
    /// the input and against the existing tags are both suppressed. An
    /// empty tag list and a missing id are soft conditions: the store is
    /// left untouched and the outcome says which.
    pub fn add_tag(&mut self, id: u32, tags: Vec<String>) -> (o: TagOutcome)
        requires
            old(self)@.wf(),
        ensures
            final(self)@.wf(),
            tags@.len() == 0 ==> o == TagOutcome::NoTags && *final(self) == *old(self),
            tags@.len() > 0 && !old(self)@.has_live_id(id) ==> o == TagOutcome::NotFound
                && *final(self) == *old(self),
            tags@.len() > 0 && old(self)@.has_live_id(id) ==> o == TagOutcome::Tagged
                && final(self)@ == spec_add_tag(old(self)@, id, tags.deep_view()),
    {
        let ghost orig = self@;
        if tags.len() == 0 {
            return TagOutcome::NoTags;
        }
        match self.find_index(id) {
            None => TagOutcome::NotFound,
            Some(i) => {
                proof {
                    assert(orig.has_live_id(id));
                    let k = orig.live_index_of(id);
                    assert(orig.notes[k].id == id);
                    assert(k == i as int);
                }
                let mut n = self.notes.remove(i);
                n.merge_tags(&tags);
                self.notes.insert(i, n);
                proof {
                    assert(self@.notes =~= orig.notes.update(
                        i as int,
                        NoteView {
                            tags: append_distinct(orig.notes[i as int].tags, tags.deep_view()),
                            ..orig.notes[i as int]
                        },
                    ));
                    assert(self@ =~= spec_add_tag(orig, id, tags.deep_view()));
                }
                TagOutcome::Tagged
            },
        }
    }

    /// All notes, stably sorted under the given method; the store itself
    /// is left untouched.
    pub fn list_note(&self, method: SortMethod) -> (r: Vec<Note>)
        ensures
            views(r@) == sort_spec(self@.notes, method),
    {
        sort_notes(&self.notes, method)
    }

    /// The notes whose content contains the keyword case-insensitively,
    /// stably sorted under the given method; an empty keyword is a soft
    /// condition answered with nothing. The store itself is left
    /// untouched.
    pub fn search_note(&self, keyword: &String, method: SortMethod) -> (r: Option<Vec<Note>>)
        ensures
            (keyword@.len() == 0) <==> (r is None),
            match r {
                Some(v) => views(v@) == sort_spec(
                    self@.notes.filter(matches_pred(keyword@)),
                    method,
                ),
                None => true,
            },
    {
        if keyword.as_str().is_empty() {
            return None;
        }
        let ghost pred = matches_pred(keyword@);
        let keyword_lower = to_lower(keyword.as_str());
        let mut found: Vec<Note> = Vec::new();
        let mut i: usize = 0;
        proof {
            broadcast use vstd::prelude::Seq::lemma_filter_push;

            assert(views(found@) =~= Seq::<NoteView>::empty());
            assert(self@.notes.take(0) =~= Seq::<NoteView>::empty());
            assert(Seq::<NoteView>::empty().filter(pred) =~= Seq::<NoteView>::empty());
        }
        while i < self.notes.len()
            invariant
                i <= self.notes.len(),
                pred == matches_pred(keyword@),
                keyword_lower@ == crate::search::lower_of(keyword@),
                views(found@) == self@.notes.take(i as int).filter(pred),
            decreases self.notes.len() - i,
        {
            let ghost before = views(found@);
            proof {
                assert(self@.notes[i as int] == self.notes@[i as int]@);
            }
            let content_lower = to_lower(self.notes[i].content.as_str());
            if contains_keyword(content_lower.as_str(), keyword_lower.as_str()) {
                let n = self.notes[i].clone();
                found.push(n);
                proof {
                    assert(views(found@) =~= before.push(self@.notes[i as int]));
                }
            }
            proof {
                broadcast use vstd::prelude::Seq::lemma_filter_push;

                assert(pred(self@.notes[i as int]) == note_matches(
                    self@.notes[i as int],
                    keyword@,
                ));
                assert(self@.notes.take(i + 1) =~= self@.notes.take(i as int).push(
                    self@.notes[i as int],
                ));
            }
            i += 1;
        }
        proof {
            assert(self@.notes.take(self@.notes.len() as int) =~= self@.notes);
        }
        Some(sort_notes(&found, method))
    }

    /// Whether the collection satisfies its invariant; what a caller that
    /// received the collection from outside checks before operating on it.
    pub fn is_well_formed(&self) -> (b: bool)
        ensures
            b == self@.wf(),
    {
        let distinct_live = self.distinct_note_ids();
        let distinct_free = self.distinct_free_ids();
        let disjoint = self.live_free_disjoint();
        let notes_ok = self.notes_well_formed();
        distinct_live && distinct_free && disjoint && notes_ok
    }

    fn distinct_note_ids(&self) -> (b: bool)
        ensures
            b == forall|i: int, j: int|
                0 <= i < j < self@.notes.len() ==> #[trigger] self@.notes[i].id
                    != #[trigger] self@.notes[j].id,
    {
        let mut i: usize = 0;
        while i < self.notes.len()
            invariant
                i <= self.notes.len(),
                forall|x: int, y: int|
                    0 <= x < y < self@.notes.len() && x < i ==> #[trigger] self@.notes[x].id
                        != #[trigger] self@.notes[y].id,
            decreases self.notes.len() - i,
        {
            let mut j: usize = i + 1;
            while j < self.notes.len()
                invariant
                    i < j <= self.notes.len() || self.notes.len() == 0,
                    i <= self.notes.len(),
                    forall|y: int| i < y < j ==> self@.notes[i as int].id != #[trigger] self@.notes[y].id,
                decreases self.notes.len() - j,
            {
                proof {
                    assert(self@.notes[i as int] == self.notes@[i as int]@);
                    assert(self@.notes[j as int] == self.notes@[j as int]@);
                }
                if self.notes[i].id == self.notes[j].id {
                    proof {
                        assert(self@.notes[i as int].id == self@.notes[j as int].id);
                    }
                    return false;
                }
                j += 1;
            }
            i += 1;
        }
        true
    }

    fn distinct_free_ids(&self) -> (b: bool)
        ensures
            b == forall|i: int, j: int|
                0 <= i < j < self@.free_ids.len() ==> #[trigger] self@.free_ids[i]
                    != #[trigger] self@.free_ids[j],
    {
        let mut i: usize = 0;
        while i < self.free_ids.len()
            invariant
                i <= self.free_ids.len(),
                forall|x: int, y: int|
                    0 <= x < y < self@.free_ids.len() && x < i ==> #[trigger] self@.free_ids[x]
                        != #[trigger] self@.free_ids[y],
            decreases self.free_ids.len() - i,
        {
            let mut j: usize = i + 1;
            while j < self.free_ids.len()
                invariant
                    i < j <= self.free_ids.len() || self.free_ids.len() == 0,
                    i <= self.free_ids.len(),
                    forall|y: int|
                        i < y < j ==> self@.free_ids[i as int] != #[trigger] self@.free_ids[y],
                decreases self.free_ids.len() - j,
            {
                if self.free_ids[i] == self.free_ids[j] {
                    proof {
                        assert(self@.free_ids[i as int] == self@.free_ids[j as int]);
                    }
                    return false;
                }
                j += 1;
            }
            i += 1;
        }
        true
    }

    fn live_free_disjoint(&self) -> (b: bool)
        ensures
            b == forall|i: int, j: int|
                0 <= i < self@.notes.len() && 0 <= j < self@.free_ids.len()
                    ==> #[trigger] self@.notes[i].id != #[trigger] self@.free_ids[j],
    {
        let mut i: usize = 0;
        while i < self.notes.len()
            invariant
                i <= self.notes.len(),
                forall|x: int, j: int|
                    0 <= x < i && 0 <= j < self@.free_ids.len() ==> #[trigger] self@.notes[x].id
                        != #[trigger] self@.free_ids[j],
            decreases self.notes.len() - i,
        {
            let mut j: usize = 0;
            while j < self.free_ids.len()
                invariant
                    i < self.notes.len(),
                    j <= self.free_ids.len(),
                    forall|y: int| 0 <= y < j ==> self@.notes[i as int].id != #[trigger] self@.free_ids[y],
                decreases self.free_ids.len() - j,
            {
                proof {
                    assert(self@.notes[i as int] == self.notes@[i as int]@);
                }
                if self.notes[i].id == self.free_ids[j] {
                    proof {
                        assert(self@.notes[i as int].id == self@.free_ids[j as int]);
                    }
                    return false;
                }
                j += 1;
            }
            i += 1;
        }
        true
    }

    fn notes_well_formed(&self) -> (b: bool)
        ensures
            b == forall|i: int| 0 <= i < self@.notes.len() ==> (#[trigger] self@.notes[i]).wf(),
    {
        let mut i: usize = 0;
        while i < self.notes.len()
            invariant
                i <= self.notes.len(),
                forall|j: int| 0 <= j < i ==> (#[trigger] self@.notes[j]).wf(),
            decreases self.notes.len() - i,
        {
            proof {
                assert(self@.notes[i as int] == self.notes@[i as int]@);
            }
            if self.notes[i].created_at > self.notes[i].updated_at {
                return false;
            }
            i += 1;
        }
        true
    }
}

/// Freed ids are reused first-in first-out: starting with no id waiting,
/// removing live notes `a` then `b` makes the next two adds receive `a`
/// and then `b`, emptying the free list again.
pub proof fn lemma_free_id_reuse_fifo(
    c: CollectionView,
    a: u32,
    b: u32,
    content: Seq<char>,
    tags: Seq<Seq<char>>,
    now: i64,
)
    requires
        c.wf(),
        c.free_ids.len() == 0,
        c.has_live_id(a),
        c.has_live_id(b),
        a != b,
    ensures
        ({
            let c1 = spec_remove(c, a);
            let c2 = spec_remove(c1, b);
            let c3 = spec_add(c2, content, tags, now);
            let c4 = spec_add(c3, content, tags, now);
            &&& alloc_id(c2) == a
            &&& alloc_id(c3) == b
            &&& c4.free_ids.len() == 0
        }),
{
    let ia = c.live_index_of(a);
    assert(0 <= ia < c.notes.len() && c.notes[ia].id == a);
    let c1 = spec_remove(c, a);
    let ib = c.live_index_of(b);
    assert(0 <= ib < c.notes.len() && c.notes[ib].id == b);
    assert(ia != ib);
    let shifted = if ib == c.notes.len() - 1 {
        ia
    } else {
        ib
    };
    assert(c1.notes[shifted].id == b);
    assert(c1.has_live_id(b));
    let c2 = spec_remove(c1, b);
    assert(c2.free_ids =~= seq![a, b]);
    assert(c2.free_ids[0] == a);
    let c3 = spec_add(c2, content, tags, now);
    assert(c3.free_ids =~= seq![b]);
    let c4 = spec_add(c3, content, tags, now);
    assert(c4.free_ids =~= Seq::<u32>::empty());
}

} // verus!
