//! What importing a JSON document leads to, once the document has been read
//! and decoded into tasks.
use vstd::prelude::*;

use crate::list::models;
use crate::task::{all_wf, Task, TaskModel};

verus! {

/// Why an import gave no tasks.
#[derive(Clone, Copy, Debug, PartialEq, Eq, Structural)]
pub enum ImportProblem {
    /// The file could not be read.
    Unreadable,
    /// The file is not a JSON array of tasks.
    Unparsable,
    /// A task has a priority outside 1 to 5, or a due date that does not
    /// exist.
    InvalidTask,
}

/// What an import gives: the tasks, and the problem that emptied them, if
/// any, to be reported as a warning.
pub struct Imported {
    pub tasks: Vec<Task>,
    pub problem: Option<ImportProblem>,
}

/// Whether every task of `tasks` is well formed.
pub fn all_well_formed(tasks: &Vec<Task>) -> (r: bool)
    ensures
        r == all_wf(models(tasks@)),
{
    let mut i: usize = 0;
    while i < tasks.len()
        invariant
            i <= tasks@.len(),
            forall|j: int| 0 <= j < i ==> (#[trigger] models(tasks@)[j]).wf(),
        decreases tasks@.len() - i,
    {
        assert(models(tasks@)[i as int] == tasks@[i as int]@);
        if !tasks[i].is_well_formed() {
            return false;
        }
        i += 1;
    }
    true
}

/// The outcome of an import from what reading and decoding the document
/// gave: the decoded tasks when every one of them is well formed, otherwise
/// no tasks and the problem met.
pub fn import_json(decoded: Result<Vec<Task>, ImportProblem>) -> (r: Imported)
    ensures
        all_wf(models(r.tasks@)),
        match decoded {
            Ok(tasks) => if all_wf(models(tasks@)) {
                r.tasks@ == tasks@ && r.problem is None
            } else {
                r.tasks@.len() == 0 && r.problem == Some(ImportProblem::InvalidTask)
            },
            Err(e) => r.tasks@.len() == 0 && r.problem == Some(e),
        },
{
    match decoded {
        Ok(tasks) => {
            if all_well_formed(&tasks) {
                Imported { tasks, problem: None }
            } else {
                let r = Imported { tasks: Vec::new(), problem: Some(ImportProblem::InvalidTask) };
                assert(models(r.tasks@) =~= Seq::<TaskModel>::empty());
                r
            }
        },
        Err(e) => {
            let r = Imported { tasks: Vec::new(), problem: Some(e) };
            assert(models(r.tasks@) =~= Seq::<TaskModel>::empty());
            r
        },
    }
}

} // verus!
