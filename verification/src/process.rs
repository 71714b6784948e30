//! A task of the workload.

use vstd::prelude::*;

verus! {

/// A task as the contracts speak of it.
pub struct ProcessView {
    pub task_id: Seq<char>,
    pub computation: u16,
    pub deadline: u16,
    pub context_time: u8,
}

/// A task: its name, the computation units it still needs, its deadline
/// relative to its arrival, and what a context switch to or from it costs.
#[derive(Debug)]
pub struct Process {
    pub task_id: String,
    pub computation: u16,
    pub deadline: u16,
    pub context_time: u8,
}

impl View for Process {
    type V = ProcessView;

    open spec fn view(&self) -> ProcessView {
        ProcessView {
            task_id: self.task_id@,
            computation: self.computation,
            deadline: self.deadline,
            context_time: self.context_time,
        }
    }
}

impl Clone for Process {
    fn clone(&self) -> (r: Process)
        ensures
            r@ == self@,
    {
        Process {
            task_id: self.task_id.clone(),
            computation: self.computation,
            deadline: self.deadline,
            context_time: self.context_time,
        }
    }
}

/// Two tasks are equal when their deadlines are.
impl PartialEq for Process {
    fn eq(&self, other: &Process) -> (b: bool) {
        self.deadline == other.deadline
    }
}

impl vstd::std_specs::cmp::PartialEqSpecImpl for Process {
    open spec fn obeys_eq_spec() -> bool {
        true
    }

    open spec fn eq_spec(&self, other: &Process) -> bool {
        self.deadline == other.deadline
    }
}

/// The processor time a task asks for: its computation and a context switch
/// in and out.
pub open spec fn load(p: ProcessView) -> int {
    p.computation + 2 * p.context_time
}

} // verus!
