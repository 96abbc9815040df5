use vstd::prelude::*;
use crate::address::Address;

verus! {

/// The most characters (Unicode scalar values) a note may hold.
pub const MAX_CONTENT_LEN: usize = 280;

/// One note as filed: its id, text, author, creation time and whether it
/// has been soft-deleted.
#[derive(Debug)]
pub struct Note {
    pub id: u64,
    pub content: String,
    pub author: Address,
    pub timestamp: u64,
    pub is_deleted: bool,
}

/// What a note holds, as mathematical values.
pub struct NoteView {
    pub id: u64,
    pub content: Seq<char>,
    pub author: Seq<char>,
    pub timestamp: u64,
    pub is_deleted: bool,
}

impl View for Note {
    type V = NoteView;

    open spec fn view(&self) -> NoteView {
        NoteView {
            id: self.id,
            content: self.content@,
            author: self.author@,
            timestamp: self.timestamp,
            is_deleted: self.is_deleted,
        }
    }
}

impl Note {
    /// A second note with the same fields.
    pub fn duplicate(&self) -> (r: Note)
        ensures
            r@ == self@,
    {
        Note {
            id: self.id,
            content: self.content.clone(),
            author: self.author.duplicate(),
            timestamp: self.timestamp,
            is_deleted: self.is_deleted,
        }
    }
}

/// Why an operation on the store was refused. A refused operation changes
/// nothing.
#[derive(Debug, PartialEq, Eq, Structural, Clone, Copy)]
pub enum NoteError {
    /// The content is empty or longer than `MAX_CONTENT_LEN` characters.
    ValidationError,
    /// The caller is not the note's author.
    Unauthorized,
    /// No note has the given id.
    NotFound,
    /// The note has already been soft-deleted.
    AlreadyDeleted,
}

/// Whether `content` is an acceptable note text.
pub open spec fn valid_content(content: Seq<char>) -> bool {
    1 <= content.len() <= MAX_CONTENT_LEN
}

} // verus!
