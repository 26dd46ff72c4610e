//! Assignment of weekly class sessions to laboratory rooms.
//!
//! The crate holds the entity store ([`table`]), the school's data model
//! ([`school`]), the authored preference rules ([`rules`]) and the solver
//! ([`solver`]) that places each class in a laboratory at one of the slots
//! it already occupies in the timetable. Around them stand the readers of
//! the timetable ([`sources`]), the tables that are shown of a solution
//! ([`export`]) and the list actions of the rules editor ([`rule_editor`]).
pub mod export;
pub mod item;
pub mod rule_editor;
pub mod rules;
pub mod school;
pub mod seqs;
pub mod solver;
pub mod sources;
pub mod table;
pub mod text;
