//! A note-keeping ledger: users file short text notes under their own
//! identity, read them back by id or by author, and soft-delete their own.

mod address;
mod note;
mod store;
mod laws;

pub use address::Address;
pub use note::{Note, NoteError, NoteView, MAX_CONTENT_LEN};
pub use store::{NotepadContract, created, deleted, delete_outcome, present_notes, soft_deleted};
pub use note::valid_content;
pub use laws::{
    law_ids_increase, law_total_counts_creations, law_created_note_readable, law_delete_flips_flag,
    law_user_notes_in_order,
};
