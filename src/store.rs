use std::collections::HashMap;
use vstd::prelude::*;
use crate::address::Address;
use crate::note::{Note, NoteError, NoteView, MAX_CONTENT_LEN, valid_content};

verus! {

broadcast use vstd::std_specs::hash::group_hash_axioms;

/// The ids of the notes one author created, oldest first.
struct AuthorNotes {
    author: Address,
    ids: Vec<u64>,
}

/// The notes present in `table` among `ids`, in the order of `ids`.
pub open spec fn present_notes(ids: Seq<u64>, table: Map<u64, NoteView>) -> Seq<NoteView>
    decreases ids.len(),
{
    if ids.len() == 0 {
        seq![]
    } else {
        let rest = present_notes(ids.drop_last(), table);
        if table.contains_key(ids.last()) {
            rest.push(table[ids.last()])
        } else {
            rest
        }
    }
}

/// `table` with note `id` marked soft-deleted and every other field kept.
pub open spec fn soft_deleted(table: Map<u64, NoteView>, id: u64) -> Map<u64, NoteView> {
    table.insert(id, NoteView {
        id: table[id].id,
        content: table[id].content,
        author: table[id].author,
        timestamp: table[id].timestamp,
        is_deleted: true,
    })
}

/// `post` is `pre` after note `id` was filed by `author` with `content`
/// at `timestamp`.
pub open spec fn created(
    pre: NotepadContract,
    post: NotepadContract,
    author: Seq<char>,
    content: Seq<char>,
    timestamp: u64,
    id: u64,
) -> bool {
    &&& id == pre.next_id()
    &&& post.next_id() == pre.next_id() + 1
    &&& post.table() == pre.table().insert(id, NoteView { id, content, author, timestamp, is_deleted: false })
    &&& forall|a: Seq<char>| #[trigger] post.ids_of(a)
        == if a == author { pre.ids_of(a).push(id) } else { pre.ids_of(a) }
}

/// What deleting note `id` on behalf of `author` from store `s` gives.
pub open spec fn delete_outcome(s: NotepadContract, author: Seq<char>, id: u64) -> Result<(), NoteError> {
    if !s.table().contains_key(id) {
        Err(NoteError::NotFound)
    } else if s.table()[id].author != author {
        Err(NoteError::Unauthorized)
    } else if s.table()[id].is_deleted {
        Err(NoteError::AlreadyDeleted)
    } else {
        Ok(())
    }
}

/// `post` is `pre` after note `id` was soft-deleted.
pub open spec fn deleted(pre: NotepadContract, post: NotepadContract, id: u64) -> bool {
    &&& post.next_id() == pre.next_id()
    &&& post.table() == soft_deleted(pre.table(), id)
    &&& forall|a: Seq<char>| #[trigger] post.ids_of(a) == pre.ids_of(a)
}

/// The store of notes: an id allocator, a table from id to note, and for
/// each author the ids of their notes in creation order.
pub struct NotepadContract {
    next_note_id: Option<u64>,
    notes: HashMap<u64, Note>,
    user_notes: Vec<AuthorNotes>,
}

impl NotepadContract {
    /// The id the next note will get (1 on a store never set up).
    pub closed spec fn next_id(&self) -> nat {
        match self.next_note_id {
            Some(n) => n as nat,
            None => 1,
        }
    }

    /// The note table.
    pub closed spec fn table(&self) -> Map<u64, NoteView> {
        self.notes@.map_values(|n: Note| n@)
    }

    spec fn has_entry(&self, a: Seq<char>) -> bool {
        exists|i: int| 0 <= i < self.user_notes@.len() && #[trigger] self.user_notes@[i].author@ == a
    }

    /// The ids of the notes `a` created, in creation order (empty for an
    /// author who never created one).
    pub closed spec fn ids_of(&self, a: Seq<char>) -> Seq<u64> {
        if self.has_entry(a) {
            self.user_notes@[choose|i: int|
                0 <= i < self.user_notes@.len() && #[trigger] self.user_notes@[i].author@ == a].ids@
        } else {
            seq![]
        }
    }

    /// The store's invariant: ids issued so far are exactly `1 .. next_id`,
    /// each note sits under its own id, each author has one index entry,
    /// and every indexed id names a note of that author.
    pub closed spec fn wf(&self) -> bool {
        &&& self.next_id() >= 1
        &&& forall|k: u64| #[trigger] self.notes@.contains_key(k) <==> 1 <= k < self.next_id()
        &&& forall|k: u64| #[trigger] self.notes@.contains_key(k) ==> self.notes@[k].id == k
        &&& forall|i: int, j: int|
            0 <= i < j < self.user_notes@.len()
                ==> #[trigger] self.user_notes@[i].author@ != #[trigger] self.user_notes@[j].author@
        &&& forall|i: int, j: int|
            0 <= i < self.user_notes@.len() && 0 <= j < self.user_notes@[i].ids@.len() ==> {
                let k = #[trigger] self.user_notes@[i].ids@[j];
                &&& self.notes@.contains_key(k)
                &&& self.notes@[k].author@ == self.user_notes@[i].author@
            }
        &&& forall|i: int, j1: int, j2: int|
            0 <= i < self.user_notes@.len() && 0 <= j1 < j2 < self.user_notes@[i].ids@.len()
                ==> #[trigger] self.user_notes@[i].ids@[j1] < #[trigger] self.user_notes@[i].ids@[j2]
        &&& forall|k: u64| #[trigger] self.notes@.contains_key(k) ==> self.indexed(k)
    }

    spec fn indexed(&self, k: u64) -> bool {
        exists|i: int, j: int|
            0 <= i < self.user_notes@.len() && 0 <= j < self.user_notes@[i].ids@.len()
                && #[trigger] self.user_notes@[i].ids@[j] == k
                && self.user_notes@[i].author@ == self.notes@[k].author@
    }

    proof fn lemma_entry_ids(&self, i: int)
        requires
            self.wf(),
            0 <= i < self.user_notes@.len(),
        ensures
            self.has_entry(self.user_notes@[i].author@),
            self.ids_of(self.user_notes@[i].author@) == self.user_notes@[i].ids@,
    {
        let a = self.user_notes@[i].author@;
        assert(self.user_notes@[i].author@ == a);
        let j = choose|j: int| 0 <= j < self.user_notes@.len() && #[trigger] self.user_notes@[j].author@ == a;
        if j < i {
            assert(self.user_notes@[j].author@ != self.user_notes@[i].author@);
        } else if i < j {
            assert(self.user_notes@[i].author@ != self.user_notes@[j].author@);
        }
    }


    /// In a well-formed store, the index entry of `a` lists, oldest first,
    /// exactly the ids of the notes `a` wrote, and each of them has a note.
    pub proof fn lemma_index_facts(&self, a: Seq<char>)
        requires
            self.wf(),
        ensures
            forall|j1: int, j2: int| 0 <= j1 < j2 < self.ids_of(a).len()
                ==> #[trigger] self.ids_of(a)[j1] < #[trigger] self.ids_of(a)[j2],
            forall|j: int| 0 <= j < self.ids_of(a).len() ==> {
                &&& self.table().contains_key(#[trigger] self.ids_of(a)[j])
                &&& self.table()[self.ids_of(a)[j]].author == a
            },
            forall|k: u64| #[trigger] self.table().contains_key(k) && self.table()[k].author == a
                ==> self.ids_of(a).contains(k),
    {
        if self.has_entry(a) {
            let i = choose|i: int| 0 <= i < self.user_notes@.len() && #[trigger] self.user_notes@[i].author@ == a;
            self.lemma_entry_ids(i);
            assert forall|k: u64| #[trigger] self.table().contains_key(k) && self.table()[k].author == a
                implies self.ids_of(a).contains(k) by {
                assert(self.notes@.contains_key(k));
                assert(self.indexed(k));
                let (i2, j) = choose|i2: int, j: int|
                    0 <= i2 < self.user_notes@.len() && 0 <= j < self.user_notes@[i2].ids@.len()
                        && #[trigger] self.user_notes@[i2].ids@[j] == k
                        && self.user_notes@[i2].author@ == self.notes@[k].author@;
                if i2 < i {
                    assert(self.user_notes@[i2].author@ != self.user_notes@[i].author@);
                } else if i < i2 {
                    assert(self.user_notes@[i].author@ != self.user_notes@[i2].author@);
                }
                assert(self.ids_of(a)[j] == k);
            }
            assert forall|j: int| 0 <= j < self.ids_of(a).len() implies {
                &&& self.table().contains_key(#[trigger] self.ids_of(a)[j])
                &&& self.table()[self.ids_of(a)[j]].author == a
            } by {
                assert(self.user_notes@[i].ids@[j] == self.ids_of(a)[j]);
            }
        } else {
            assert forall|k: u64| #[trigger] self.table().contains_key(k) && self.table()[k].author == a
                implies self.ids_of(a).contains(k) by {
                assert(self.notes@.contains_key(k));
                assert(self.indexed(k));
                let (i2, j) = choose|i2: int, j: int|
                    0 <= i2 < self.user_notes@.len() && 0 <= j < self.user_notes@[i2].ids@.len()
                        && #[trigger] self.user_notes@[i2].ids@[j] == k
                        && self.user_notes@[i2].author@ == self.notes@[k].author@;
                assert(self.user_notes@[i2].author@ == a);
            }
        }
    }

    /// A store that was never set up: no notes, and ids start at 1.
    pub fn new() -> (r: NotepadContract)
        ensures
            r.wf(),
            r.next_id() == 1,
            r.table() == Map::<u64, NoteView>::empty(),
            forall|a: Seq<char>| r.ids_of(a) == Seq::<u64>::empty(),
    {
        let r = NotepadContract { next_note_id: None, notes: HashMap::new(), user_notes: Vec::new() };
        assert(r.table() =~= Map::<u64, NoteView>::empty());
        r
    }

    /// Sets the id allocator to 1. Meant to run once, on a fresh store.
    pub fn initialize(&mut self)
        requires
            old(self).wf(),
            old(self).table() == Map::<u64, NoteView>::empty(),
        ensures
            final(self).wf(),
            final(self).next_id() == 1,
            final(self).table() == old(self).table(),
            forall|a: Seq<char>| #[trigger] final(self).ids_of(a) == old(self).ids_of(a),
    {
        proof {
            assert forall|k: u64| !self.notes@.contains_key(k) by {
                if self.notes@.contains_key(k) {
                    assert(self.table().contains_key(k));
                }
            }
        }
        let ghost old_self = *self;
        self.next_note_id = Some(1);
        proof {
            assert forall|a: Seq<char>| #[trigger] self.ids_of(a) == old_self.ids_of(a) by {
                assert(self.user_notes == old_self.user_notes);
                assert(self.has_entry(a) == old_self.has_entry(a));
            }
        }
    }

    /// The number of notes ever created, deleted ones included.
    pub fn get_total_notes(&self) -> (r: u64)
        requires
            self.wf(),
        ensures
            r == self.next_id() - 1,
    {
        match self.next_note_id {
            Some(n) => n - 1,
            None => 0,
        }
    }

    /// The note with id `note_id`, if there is one.
    pub fn get_note(&self, note_id: u64) -> (r: Option<Note>)
        requires
            self.wf(),
        ensures
            r.is_some() == self.table().contains_key(note_id),
            r.is_some() ==> r.unwrap()@ == self.table()[note_id],
    {
        match self.notes.get(&note_id) {
            Some(n) => Some(n.duplicate()),
            None => None,
        }
    }


    /// Files a note by `author` with text `content`, stamped `timestamp`,
    /// under the next id, and appends that id to the author's index entry.
    /// Content of 0 or more than `MAX_CONTENT_LEN` characters is refused and
    /// nothing changes.
    pub fn create_note(&mut self, author: Address, content: String, timestamp: u64) -> (r: Result<u64, NoteError>)
        requires
            old(self).wf(),
            old(self).next_id() < u64::MAX,
        ensures
            final(self).wf(),
            r is Ok <==> valid_content(content@),
            r is Err ==> r == Err::<u64, NoteError>(NoteError::ValidationError) && *final(self) == *old(self),
            r is Ok ==> created(*old(self), *final(self), author@, content@, timestamp, r.unwrap()),
    {
        let len = content.as_str().unicode_len();
        if len == 0 || len > MAX_CONTENT_LEN {
            return Err(NoteError::ValidationError);
        }
        let note_id: u64 = match self.next_note_id {
            Some(n) => n,
            None => 1,
        };
        let ghost old_self = *self;
        let slot = self.find_author(&author);
        let note = Note { id: note_id, content, author: author.duplicate(), timestamp, is_deleted: false };
        self.notes.insert(note_id, note);
        match slot {
            Some(i) => {
                let mut entry = AuthorNotes { author: author.duplicate(), ids: Vec::new() };
                self.user_notes.set_and_swap(i, &mut entry);
                entry.ids.push(note_id);
                self.user_notes.set_and_swap(i, &mut entry);
            },
            None => {
                let mut ids: Vec<u64> = Vec::new();
                ids.push(note_id);
                self.user_notes.push(AuthorNotes { author: author.duplicate(), ids });
            },
        }
        self.next_note_id = Some(note_id + 1);
        proof {
            assert(self.table() =~= old_self.table().insert(note_id, NoteView {
                id: note_id,
                content: content@,
                author: author@,
                timestamp,
                is_deleted: false,
            }));
            let n = self.user_notes@.len();
            assert forall|i: int, j: int|
                0 <= i < n && 0 <= j < self.user_notes@[i].ids@.len() implies {
                    let k = #[trigger] self.user_notes@[i].ids@[j];
                    &&& self.notes@.contains_key(k)
                    &&& self.notes@[k].author@ == self.user_notes@[i].author@
                } by {
                if i < old_self.user_notes@.len() && j < old_self.user_notes@[i].ids@.len() {
                    assert(self.user_notes@[i].ids@[j] == old_self.user_notes@[i].ids@[j]);
                    let k = old_self.user_notes@[i].ids@[j];
                    assert(old_self.notes@.contains_key(k));
                }
            }
            assert forall|i: int, j: int|
                0 <= i < j < n implies #[trigger] self.user_notes@[i].author@ != #[trigger] self.user_notes@[j].author@ by {
                if j == old_self.user_notes@.len() {
                    assert(old_self.user_notes@[i].author@ == self.user_notes@[i].author@);
                } else {
                    assert(old_self.user_notes@[i].author@ != old_self.user_notes@[j].author@);
                }
            }
            assert forall|i: int, j1: int, j2: int|
                0 <= i < n && 0 <= j1 < j2 < self.user_notes@[i].ids@.len()
                    implies #[trigger] self.user_notes@[i].ids@[j1] < #[trigger] self.user_notes@[i].ids@[j2] by {
                if i < old_self.user_notes@.len() {
                    let olds = old_self.user_notes@[i].ids@;
                    if j2 < olds.len() {
                        assert(olds[j1] < olds[j2]);
                    } else {
                        assert(old_self.notes@.contains_key(olds[j1]));
                    }
                }
            }
            assert forall|k: u64| #[trigger] self.notes@.contains_key(k) implies self.indexed(k) by {
                if k == note_id {
                    match slot {
                        Some(i) => {
                            let j = old_self.user_notes@[i as int].ids@.len() as int;
                            assert(self.user_notes@[i as int].ids@[j] == k);
                        },
                        None => {
                            assert(self.user_notes@[n - 1].ids@[0] == k);
                        },
                    }
                } else {
                    assert(old_self.notes@.contains_key(k));
                    assert(old_self.indexed(k));
                    let (i, j) = choose|i: int, j: int|
                        0 <= i < old_self.user_notes@.len() && 0 <= j < old_self.user_notes@[i].ids@.len()
                            && #[trigger] old_self.user_notes@[i].ids@[j] == k
                            && old_self.user_notes@[i].author@ == old_self.notes@[k].author@;
                    assert(self.user_notes@[i].ids@[j] == k);
                }
            }
            assert(self.wf());
            assert forall|a: Seq<char>| #[trigger] self.ids_of(a)
                == if a == author@ { old_self.ids_of(a).push(note_id) } else { old_self.ids_of(a) } by {
                if a == author@ {
                    match slot {
                        Some(i) => {
                            old_self.lemma_entry_ids(i as int);
                            self.lemma_entry_ids(i as int);
                            assert(self.user_notes@[i as int].ids@ =~= old_self.user_notes@[i as int].ids@.push(note_id));
                        },
                        None => {
                            self.lemma_entry_ids(n - 1);
                            assert(self.user_notes@[n - 1].ids@ =~= seq![note_id]);
                        },
                    }
                } else if old_self.has_entry(a) {
                    let j = choose|j: int| 0 <= j < old_self.user_notes@.len() && #[trigger] old_self.user_notes@[j].author@ == a;
                    old_self.lemma_entry_ids(j);
                    self.lemma_entry_ids(j);
                } else {
                    if self.has_entry(a) {
                        let j = choose|j: int| 0 <= j < n && #[trigger] self.user_notes@[j].author@ == a;
                        if j < old_self.user_notes@.len() {
                            assert(old_self.user_notes@[j].author@ == a);
                        }
                    }
                }
            }
        }
        Ok(note_id)
    }


    /// The notes of `user` in creation order, soft-deleted ones included.
    /// An indexed id with no note in the table is skipped.
    pub fn get_user_notes(&self, user: &Address) -> (r: Vec<Note>)
        requires
            self.wf(),
        ensures
            r@.map_values(|n: Note| n@) == present_notes(self.ids_of(user@), self.table()),
    {
        let mut out: Vec<Note> = Vec::new();
        match self.find_author(user) {
            None => {
                assert(out@.map_values(|n: Note| n@) =~= Seq::<NoteView>::empty());
            },
            Some(i) => {
                proof {
                    self.lemma_entry_ids(i as int);
                }
                let ids = &self.user_notes[i].ids;
                let mut j: usize = 0;
                while j < ids.len()
                    invariant
                        self.wf(),
                        j <= ids@.len(),
                        out@.map_values(|n: Note| n@) == present_notes(ids@.take(j as int), self.table()),
                    decreases ids@.len() - j,
                {
                    let k = ids[j];
                    proof {
                        assert(ids@.take(j + 1).drop_last() =~= ids@.take(j as int));
                    }
                    match self.notes.get(&k) {
                        Some(n) => {
                            out.push(n.duplicate());
                            assert(out@.map_values(|n: Note| n@)
                                =~= present_notes(ids@.take(j as int), self.table()).push(self.table()[k]));
                        },
                        None => {
                            assert(!self.table().contains_key(k));
                        },
                    }
                    j = j + 1;
                }
                assert(ids@.take(ids@.len() as int) =~= ids@);
            },
        }
        out
    }

    /// Soft-deletes note `note_id` on behalf of `author`. Refused, with
    /// nothing changed, when there is no such note, when `author` did not
    /// write it, or when it is already deleted, checked in that order.
    pub fn delete_note(&mut self, author: &Address, note_id: u64) -> (r: Result<(), NoteError>)
        requires
            old(self).wf(),
        ensures
            final(self).wf(),
            r == delete_outcome(*old(self), author@, note_id),
            r is Err ==> *final(self) == *old(self),
            r is Ok ==> deleted(*old(self), *final(self), note_id),
    {
        let mut note = match self.notes.get(&note_id) {
            Some(n) => n.duplicate(),
            None => {
                return Err(NoteError::NotFound);
            },
        };
        if !(note.author == *author) {
            return Err(NoteError::Unauthorized);
        }
        if note.is_deleted {
            return Err(NoteError::AlreadyDeleted);
        }
        let ghost old_self = *self;
        note.is_deleted = true;
        self.notes.insert(note_id, note);
        proof {
            assert(self.table() =~= soft_deleted(old_self.table(), note_id));
            assert forall|k: u64| #[trigger] self.notes@.contains_key(k) implies self.indexed(k) by {
                assert(old_self.indexed(k));
                let (i, j) = choose|i: int, j: int|
                    0 <= i < old_self.user_notes@.len() && 0 <= j < old_self.user_notes@[i].ids@.len()
                        && #[trigger] old_self.user_notes@[i].ids@[j] == k
                        && old_self.user_notes@[i].author@ == old_self.notes@[k].author@;
                assert(self.user_notes@[i].ids@[j] == k);
            }
            assert forall|a: Seq<char>| #[trigger] self.ids_of(a) == old_self.ids_of(a) by {
                assert(self.user_notes@ == old_self.user_notes@);
                assert(self.has_entry(a) == old_self.has_entry(a));
            }
        }
        Ok(())
    }

    /// Where `a` stands in the author index, if it has an entry.
    fn find_author(&self, a: &Address) -> (r: Option<usize>)
        requires
            self.wf(),
        ensures
            match r {
                Some(i) => i < self.user_notes@.len() && self.user_notes@[i as int].author@ == a@,
                None => !self.has_entry(a@),
            },
    {
        let mut i: usize = 0;
        while i < self.user_notes.len()
            invariant
                i <= self.user_notes@.len(),
                forall|j: int| 0 <= j < i ==> self.user_notes@[j].author@ != a@,
            decreases self.user_notes@.len() - i,
        {
            if self.user_notes[i].author == *a {
                return Some(i);
            }
            i = i + 1;
        }
        None
    }
}

} // verus!
