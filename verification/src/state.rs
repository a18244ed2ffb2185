//! The consumer-side editing state: which task is selected and which of
//! the three panes is being edited, with the pane cycling order.

use vstd::prelude::*;

verus! {

/// Which pane of the task view receives input.
#[derive(Clone, Copy, Debug, PartialEq, Eq, Structural)]
pub enum EditMode {
    List,
    Title,
    Body,
}

impl EditMode {
    /// The pane after this one in cycling order.
    pub open spec fn spec_next(self) -> EditMode {
        match self {
            EditMode::List => EditMode::Title,
            EditMode::Title => EditMode::Body,
            EditMode::Body => EditMode::List,
        }
    }

    /// The pane before this one in cycling order.
    pub open spec fn spec_prev(self) -> EditMode {
        match self {
            EditMode::List => EditMode::Body,
            EditMode::Title => EditMode::List,
            EditMode::Body => EditMode::Title,
        }
    }

    /// Steps forward through the panes.
    pub fn next(&self) -> (r: EditMode)
        ensures
            r == self.spec_next(),
    {
        match self {
            EditMode::List => EditMode::Title,
            EditMode::Title => EditMode::Body,
            EditMode::Body => EditMode::List,
        }
    }

    /// Steps backward through the panes.
    pub fn prev(&self) -> (r: EditMode)
        ensures
            r == self.spec_prev(),
    {
        match self {
            EditMode::List => EditMode::Body,
            EditMode::Title => EditMode::List,
            EditMode::Body => EditMode::Title,
        }
    }
}

/// Stepping forward undoes stepping backward, and the other way round.
pub proof fn lemma_mode_cycle(m: EditMode)
    ensures
        m.spec_next().spec_prev() == m,
        m.spec_prev().spec_next() == m,
{
}

/// The consumer's view state.
pub struct State {
    pub current_task: usize,
    pub mode: EditMode,
}

impl State {
    /// The initial view: the first task selected, the list pane active.
    pub fn new() -> (r: State)
        ensures
            r.current_task == 0,
            r.mode == EditMode::List,
    {
        State { current_task: 0, mode: EditMode::List }
    }
}

} // verus!
