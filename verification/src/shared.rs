//! What the analysis and the repair share: the settings of the run and the
//! budget of tasks that may be active at once.

use vstd::prelude::*;
use vstd::string::*;
use crate::cli::{IndentSymbol, Mode, SharedInitiator};

verus! {

/// `n` spaces.
pub open spec fn spaces(n: nat) -> Seq<char> {
    Seq::new(n, |i: int| ' ')
}

/// The text that stands before a new array entry: a line break, then one tab
/// or `size` spaces.
pub open spec fn indentation_of(symbol: IndentSymbol, size: nat) -> Seq<char> {
    match symbol {
        IndentSymbol::Tab => seq!['\n', '\t'],
        IndentSymbol::Whitespace => seq!['\n'] + spaces(size),
    }
}

/// The settings of a run, made once and handed to whoever needs them.
#[derive(Debug)]
pub struct Shared {
    /// The tracked features.
    pub features: Vec<String>,
    /// How many tasks may be active at once.
    pub thread: u16,
    pub mode: Mode,
    /// The text that stands before a new array entry.
    pub indentation: String,
}

impl Shared {
    /// Takes the settings over and works out the indentation.
    pub fn initialize(initiator: SharedInitiator) -> (r: Shared)
        ensures
            r.features == initiator.features,
            r.thread == initiator.thread,
            r.mode == initiator.mode,
            r.indentation@ == indentation_of(initiator.indent_symbol, initiator.indent_size as nat),
    {
        let indentation = match initiator.indent_symbol {
            IndentSymbol::Tab => {
                proof {
                    reveal_strlit("\n\t");
                }
                "\n\t".to_owned()
            },
            IndentSymbol::Whitespace => {
                proof {
                    reveal_strlit("\n");
                    reveal_strlit(" ");
                }
                let mut s = "\n".to_owned();
                let mut i: usize = 0;
                while i < initiator.indent_size
                    invariant
                        i <= initiator.indent_size,
                        " "@ == seq![' '],
                        s@ == seq!['\n'] + spaces(i as nat),
                    decreases initiator.indent_size - i,
                {
                    s.append(" ");
                    i += 1;
                }
                s
            },
        };
        Shared {
            features: initiator.features,
            thread: initiator.thread,
            mode: initiator.mode,
            indentation,
        }
    }
}

/// The count of active tasks against the budget of a run.
#[derive(Clone, Copy, Debug)]
pub struct ThreadBudget {
    /// How many tasks may be active at once.
    pub limit: u16,
    /// How many are active now, the caller's own among them.
    pub active: u16,
}

impl ThreadBudget {
    /// A task may be started beside the caller: fewer than `limit - 1` are
    /// active.
    pub open spec fn admits(self) -> bool {
        self.active + 1 < self.limit
    }

    /// The budget of a run that has just begun: one task is active.
    pub fn new(limit: u16) -> (r: ThreadBudget)
        ensures
            r.limit == limit,
            r.active == 1,
    {
        ThreadBudget { limit, active: 1 }
    }
}

/// Asks for leave to start a task. Where it is given, the task counts as
/// active from now on; where it is not, nothing changes and the caller does
/// the work itself.
pub fn activate_thread(budget: &mut ThreadBudget) -> (spawn: bool)
    ensures
        spawn == old(budget).admits(),
        final(budget).limit == old(budget).limit,
        final(budget).active == if spawn {
            old(budget).active + 1
        } else {
            old(budget).active as int
        },
{
    if budget.active < u16::MAX && budget.active + 1 < budget.limit {
        budget.active = budget.active + 1;
        true
    } else {
        false
    }
}

/// Takes `joined` tasks off the count, once they have ended. The count does
/// not go below zero.
pub fn deactivate_threads(budget: &mut ThreadBudget, joined: u16)
    ensures
        final(budget).limit == old(budget).limit,
        final(budget).active == if joined <= old(budget).active {
            old(budget).active - joined
        } else {
            0
        },
{
    if joined <= budget.active {
        budget.active = budget.active - joined;
    } else {
        budget.active = 0;
    }
}

} // verus!
