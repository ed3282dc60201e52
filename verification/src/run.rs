//! `lightning run`: which Gradle task paths run for the affected modules.

use vstd::prelude::*;
use crate::affected::SelectArgs;
use crate::lock::{Module, Reason};
use crate::text::{push_char, push_str, str_eq, strings_of};

verus! {

/// Arguments of `lightning run`.
pub struct RunArgs {
    /// Task name, matched exactly against each affected module's task list.
    pub task: String,
    pub select: SelectArgs,
    /// Extra arguments passed to Gradle verbatim.
    pub gradle_args: Vec<String>,
}

/// The first module with this project path.
pub open spec fn module_at(ms: Seq<Module>, path: Seq<char>) -> Option<int>
    decreases ms.len(),
{
    if ms.len() == 0 {
        None
    } else if ms[0].path@ == path {
        Some(0int)
    } else {
        match module_at(ms.drop_first(), path) {
            Some(k) => Some(k + 1),
            None => None,
        }
    }
}

/// The task's path in a project: `:task` for the root project, else
/// `path:task`.
pub open spec fn task_path_spec(path: Seq<char>, task: Seq<char>) -> Seq<char> {
    if path == seq![':'] {
        seq![':'] + task
    } else {
        path + seq![':'] + task
    }
}

/// The project registers the task.
pub open spec fn has_task(m: Module, task: Seq<char>) -> bool {
    strings_of(m.tasks@).contains(task)
}

/// The task paths to run and the affected projects skipped for lacking the
/// task, each in selection order.
pub open spec fn task_plan(ms: Seq<Module>, selected: Seq<Seq<char>>, task: Seq<char>) -> (Seq<Seq<char>>, Seq<Seq<char>>)
    decreases selected.len(),
{
    if selected.len() == 0 {
        (Seq::<Seq<char>>::empty(), Seq::<Seq<char>>::empty())
    } else {
        let (run, skipped) = task_plan(ms, selected.drop_last(), task);
        let p = selected.last();
        if has_task(ms[module_at(ms, p)->0], task) {
            (run.push(task_path_spec(p, task)), skipped)
        } else {
            (run, skipped.push(p))
        }
    }
}

/// The first module with this project path.
fn find_module(modules: &Vec<Module>, path: &str) -> (r: Option<usize>)
    ensures
        match r {
            Some(k) => module_at(modules@, path@) == Some(k as int) && k < modules@.len(),
            None => module_at(modules@, path@) is None,
        },
{
    let n = modules.len();
    let mut i: usize = 0;
    assert(modules@.skip(0) =~= modules@);
    while i < n
        invariant
            n == modules@.len(),
            i <= n,
            module_at(modules@, path@) == match module_at(modules@.skip(i as int), path@) {
                Some(k) => Some(k + i),
                None => None::<int>,
            },
        decreases n - i,
    {
        assert(modules@.skip(i as int)[0] == modules@[i as int]);
        assert(modules@.skip(i as int).drop_first() =~= modules@.skip(i + 1));
        if str_eq(modules[i].path.as_str(), path) {
            return Some(i);
        }
        i += 1;
    }
    None
}

/// Whether the list holds `task`.
fn lists_task(tasks: &Vec<String>, task: &str) -> (r: bool)
    ensures
        r == strings_of(tasks@).contains(task@),
{
    let n = tasks.len();
    let mut i: usize = 0;
    while i < n
        invariant
            n == tasks@.len(),
            i <= n,
            forall|j: int| 0 <= j < i ==> #[trigger] tasks@[j]@ != task@,
        decreases n - i,
    {
        if str_eq(tasks[i].as_str(), task) {
            assert(strings_of(tasks@)[i as int] == task@);
            return true;
        }
        i += 1;
    }
    proof {
        if strings_of(tasks@).contains(task@) {
            let j = choose|j: int| 0 <= j < n && strings_of(tasks@)[j] == task@;
            assert(tasks@[j]@ == task@);
        }
    }
    false
}

/// The Gradle task paths for `task` on the selected modules, and the
/// selected modules that lack the task. Every selected module is in the
/// lock it was selected from.
pub fn task_paths(selected: &Vec<(String, Reason)>, modules: &Vec<Module>, task: &str) -> (r: (Vec<String>, Vec<String>))
    requires
        forall|i: int| 0 <= i < selected@.len() ==> module_at(modules@, (#[trigger] selected@[i]).0@) is Some,
    ensures
        (strings_of(r.0@), strings_of(r.1@)) == task_plan(
            modules@,
            selected@.map_values(|e: (String, Reason)| e.0@),
            task@,
        ),
{
    let ghost sel = selected@.map_values(|e: (String, Reason)| e.0@);
    let mut run: Vec<String> = Vec::new();
    let mut skipped: Vec<String> = Vec::new();
    let n = selected.len();
    let mut i: usize = 0;
    while i < n
        invariant
            n == selected@.len(),
            sel == selected@.map_values(|e: (String, Reason)| e.0@),
            i <= n,
            forall|j: int| 0 <= j < selected@.len() ==> module_at(modules@, (#[trigger] selected@[j]).0@) is Some,
            (strings_of(run@), strings_of(skipped@)) == task_plan(modules@, sel.take(i as int), task@),
        decreases n - i,
    {
        assert(sel.take(i + 1).drop_last() =~= sel.take(i as int));
        assert(sel.take(i + 1).last() == selected@[i as int].0@);
        let path = selected[i].0.as_str();
        let k = match find_module(modules, path) {
            Some(k) => k,
            None => {
                assert(module_at(modules@, selected@[i as int].0@) is Some);
                0
            },
        };
        let ghost r0 = strings_of(run@);
        let ghost s0 = strings_of(skipped@);
        if lists_task(&modules[k].tasks, task) {
            let mut tp = String::new();
            if str_eq(path, ":") {
                push_char(&mut tp, ':');
                push_str(&mut tp, task);
                proof {
                    reveal_strlit(":");
                    assert(":"@ =~= seq![':']);
                }
                assert(tp@ =~= task_path_spec(path@, task@));
            } else {
                push_str(&mut tp, path);
                push_char(&mut tp, ':');
                push_str(&mut tp, task);
                proof {
                    reveal_strlit(":");
                    assert(":"@ =~= seq![':']);
                }
                assert(tp@ =~= task_path_spec(path@, task@));
            }
            run.push(tp);
            assert(strings_of(run@) =~= r0.push(task_path_spec(path@, task@)));
        } else {
            skipped.push(selected[i].0.clone());
            assert(strings_of(skipped@) =~= s0.push(path@));
        }
        i += 1;
    }
    assert(sel.take(n as int) =~= sel);
    (run, skipped)
}

/// Every selected module is either run or reported as skipped, once.
pub proof fn law_every_selected_module_runs_or_is_skipped(ms: Seq<Module>, selected: Seq<Seq<char>>, task: Seq<char>)
    ensures
        task_plan(ms, selected, task).0.len() + task_plan(ms, selected, task).1.len() == selected.len(),
    decreases selected.len(),
{
    if selected.len() > 0 {
        law_every_selected_module_runs_or_is_skipped(ms, selected.drop_last(), task);
    }
}

} // verus!
