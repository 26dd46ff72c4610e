//! What the solver returns.
use vstd::prelude::*;

verus! {

/// One placement: `class` holds its laboratory session in `lab` at `slot`.
#[derive(Debug, Clone, Copy, PartialEq, Eq, Structural)]
pub struct LabSlottedClass {
    pub lab: usize,
    pub slot: usize,
    pub class: usize,
}

/// Why a class has no placement.
#[derive(Debug, Clone, Copy, PartialEq, Eq, Structural)]
pub enum Error {
    /// The class could not be placed at any depth of its preferences and was dropped.
    Missing(usize),
    /// The class has no laboratory preference at all.
    NoLabs(usize),
}

/// What is to be said of a class that was placed.
#[derive(Debug, Clone, Copy, PartialEq, Eq, Structural)]
pub enum Warning {
    /// The class was placed in `got`, which is not its first preference `was`.
    UndesiredLab { class: usize, was: usize, got: usize },
}

/// The placements with the errors and warnings that came with them.
#[derive(Debug, Clone, PartialEq, Eq)]
pub struct Solution {
    pub slotted: Vec<LabSlottedClass>,
    pub errors: Vec<Error>,
    pub warnings: Vec<Warning>,
}

/// A solution as three sequences.
pub struct SolutionView {
    pub slotted: Seq<LabSlottedClass>,
    pub errors: Seq<Error>,
    pub warnings: Seq<Warning>,
}

impl View for Solution {
    type V = SolutionView;

    open spec fn view(&self) -> SolutionView {
        SolutionView { slotted: self.slotted@, errors: self.errors@, warnings: self.warnings@ }
    }
}

} // verus!
