//! What the editor of the rules decides: what is done to the lists of a
//! rules document, and what is said of the time since it was saved.
pub mod list;
pub mod status;
