use vstd::prelude::*;
use crate::note::{NoteError, NoteView};
use crate::store::{NotepadContract, created, deleted, delete_outcome, present_notes};

verus! {

/// Each successful creation hands out a larger id than the one before, and
/// on a freshly set-up store the first two ids are 1 and 2.
pub proof fn law_ids_increase(
    s0: NotepadContract,
    s1: NotepadContract,
    s2: NotepadContract,
    a1: Seq<char>,
    c1: Seq<char>,
    t1: u64,
    id1: u64,
    a2: Seq<char>,
    c2: Seq<char>,
    t2: u64,
    id2: u64,
)
    requires
        created(s0, s1, a1, c1, t1, id1),
        created(s1, s2, a2, c2, t2, id2),
    ensures
        id1 < id2,
        id2 == id1 + 1,
        s0.next_id() == 1 ==> id1 == 1 && id2 == 2,
{
}

/// After any number of successful creations on a freshly set-up store, the
/// total number of notes is that number.
pub proof fn law_total_counts_creations(
    states: Seq<NotepadContract>,
    authors: Seq<Seq<char>>,
    contents: Seq<Seq<char>>,
    stamps: Seq<u64>,
    ids: Seq<u64>,
)
    requires
        states.len() == ids.len() + 1,
        authors.len() == ids.len(),
        contents.len() == ids.len(),
        stamps.len() == ids.len(),
        states[0].next_id() == 1,
        forall|i: int| 0 <= i < ids.len()
            ==> created(states[i], #[trigger] states[i + 1], authors[i], contents[i], stamps[i], ids[i]),
    ensures
        states.last().next_id() - 1 == ids.len(),
    decreases ids.len(),
{
    if ids.len() > 0 {
        let n = ids.len() - 1;
        law_total_counts_creations(states.drop_last(), authors.take(n), contents.take(n), stamps.take(n), ids.take(n));
        assert(created(states[n], states[n + 1], authors[n], contents[n], stamps[n], ids[n]));
    }
}

/// A created note reads back with exactly the fields it was filed with,
/// not deleted.
pub proof fn law_created_note_readable(
    s0: NotepadContract,
    s1: NotepadContract,
    author: Seq<char>,
    content: Seq<char>,
    timestamp: u64,
    id: u64,
)
    requires
        created(s0, s1, author, content, timestamp, id),
    ensures
        s1.table().contains_key(id),
        s1.table()[id] == (NoteView { id, content, author, timestamp, is_deleted: false }),
{
}

/// A deletion succeeds only for the note's author on a note not yet
/// deleted; it sets the flag and keeps every other field and the index;
/// deleting the same note again is refused as already deleted.
pub proof fn law_delete_flips_flag(s0: NotepadContract, s1: NotepadContract, author: Seq<char>, id: u64)
    requires
        delete_outcome(s0, author, id) is Ok,
        deleted(s0, s1, id),
    ensures
        s0.table().contains_key(id),
        s0.table()[id].author == author,
        !s0.table()[id].is_deleted,
        s1.table()[id] == (NoteView { is_deleted: true, ..s0.table()[id] }),
        forall|k: u64| k != id ==> #[trigger] s1.table().contains_key(k) == s0.table().contains_key(k)
            && (s0.table().contains_key(k) ==> s1.table()[k] == s0.table()[k]),
        forall|a: Seq<char>| #[trigger] s1.ids_of(a) == s0.ids_of(a),
        delete_outcome(s1, author, id) == Err::<(), NoteError>(NoteError::AlreadyDeleted),
{
}

/// The notes of an author come back in creation order, deleted ones
/// included, one for each note the author wrote; an author who wrote none
/// gets none.
pub proof fn law_user_notes_in_order(s: NotepadContract, a: Seq<char>)
    requires
        s.wf(),
    ensures
        present_notes(s.ids_of(a), s.table()) == s.ids_of(a).map_values(|k: u64| s.table()[k]),
        forall|j1: int, j2: int| 0 <= j1 < j2 < s.ids_of(a).len()
            ==> #[trigger] s.ids_of(a)[j1] < #[trigger] s.ids_of(a)[j2],
        forall|k: u64| #[trigger] s.table().contains_key(k) && s.table()[k].author == a
            <==> s.ids_of(a).contains(k),
        (forall|k: u64| #[trigger] s.table().contains_key(k) ==> s.table()[k].author != a)
            ==> s.ids_of(a).len() == 0,
{
    s.lemma_index_facts(a);
    lemma_all_present(s.ids_of(a), s.table());
    if s.ids_of(a).len() > 0 {
        assert(s.table().contains_key(s.ids_of(a)[0]));
    }
    assert forall|k: u64| s.ids_of(a).contains(k) implies #[trigger] s.table().contains_key(k)
        && s.table()[k].author == a by {
        let j = choose|j: int| 0 <= j < s.ids_of(a).len() && s.ids_of(a)[j] == k;
        assert(s.table().contains_key(s.ids_of(a)[j]));
    }
}

proof fn lemma_all_present(ids: Seq<u64>, table: Map<u64, NoteView>)
    requires
        forall|j: int| 0 <= j < ids.len() ==> table.contains_key(#[trigger] ids[j]),
    ensures
        present_notes(ids, table) == ids.map_values(|k: u64| table[k]),
    decreases ids.len(),
{
    if ids.len() > 0 {
        lemma_all_present(ids.drop_last(), table);
        assert(table.contains_key(ids[ids.len() - 1]));
        assert(ids.map_values(|k: u64| table[k]) =~= ids.drop_last().map_values(|k: u64| table[k]).push(table[ids.last()]));
    } else {
        assert(ids.map_values(|k: u64| table[k]) =~= Seq::<NoteView>::empty());
    }
}

} // verus!
