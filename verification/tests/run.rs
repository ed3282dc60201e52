use lightning::lock::{Module, Reason};
use lightning::run::task_paths;

fn module(path: &str, tasks: &[&str]) -> Module {
    Module {
        path: path.into(),
        dir: ".".into(),
        source_dirs: vec![],
        tasks: tasks.iter().map(|t| (*t).into()).collect(),
        deps: vec![],
    }
}

#[test]
fn task_paths_skip_modules_without_the_task() {
    let modules = vec![module(":", &["test"]), module(":app", &["build"]), module(":lib", &["test", "build"])];
    let selected = vec![
        (":".to_string(), Reason::Changed),
        (":app".to_string(), Reason::MainDependency),
        (":lib".to_string(), Reason::Changed),
    ];
    let (run, skipped) = task_paths(&selected, &modules, "test");
    assert_eq!(run, vec![":test", ":lib:test"]);
    assert_eq!(skipped, vec![":app"]);
}
