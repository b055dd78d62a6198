use msb::executor::{judge, runnable_lines, tokenize, Action, BuildError, Event, Outcome};
use msb::stale::FileTimes;
use msb::target::Makefile;

/// Runs a build to its end. No file exists, so every target is stale; a command ends with
/// the exit code that `exit_code` gives for its line. Returns what happened, in order.
fn drive(makefile: &Makefile, root: &str, exit_code: fn(&str) -> i32) -> (Vec<String>, Result<(), BuildError>) {
    let mut log = Vec::new();
    let mut build = match makefile.build(root) {
        Ok(b) => b,
        Err(e) => return (log, Err(e)),
    };
    let mut event = Event::Resume;
    for _ in 0..1000 {
        match build.step(event) {
            Action::Enter { target } => {
                log.push(format!("enter {}", target));
                event = Event::Resume;
            }
            Action::Probe { .. } => event = Event::Times(FileTimes::new()),
            Action::Skip { target } => {
                log.push(format!("skip {}", target));
                event = Event::Resume;
            }
            Action::Run { commands, .. } => {
                let mut outcomes = Vec::new();
                for c in &commands {
                    log.push(format!("run {}", c));
                    outcomes.push(Outcome::Exited(exit_code(c)));
                }
                event = Event::Outcomes(outcomes);
            }
            Action::Built { target } => {
                log.push(format!("built {}", target));
                event = Event::Resume;
            }
            Action::Succeeded => return (log, Ok(())),
            Action::Failed(e) => return (log, Err(e)),
            Action::Halted => panic!("halted without a failure"),
        }
    }
    panic!("the build did not end");
}

fn all_succeed(_: &str) -> i32 {
    0
}

fn b_fails(line: &str) -> i32 {
    if line == "echo b" {
        3
    } else {
        0
    }
}

#[test]
fn building_main_runs_its_dependency_first() {
    let makefile = Makefile::from_str(
        "target a [ files() targets() ] { echo build-a }\ntarget main [ files() targets(a) ] { echo build-main }",
    )
    .unwrap();
    let (log, result) = drive(&makefile, "main", all_succeed);
    assert!(result.is_ok());
    assert_eq!(
        log,
        vec!["enter a", "run echo build-a", "built a", "run echo build-main", "built main"]
    );
}

#[test]
fn building_an_undeclared_target_fails() {
    let makefile = Makefile::from_str(
        "target a [ files() targets() ] { echo build-a }\ntarget main [ files() targets(a) ] { echo build-main }",
    )
    .unwrap();
    let (log, result) = drive(&makefile, "missing", all_succeed);
    assert!(log.is_empty());
    assert!(matches!(
        result,
        Err(BuildError::FailedToFindTargetToBuild { target_name }) if target_name == "missing"
    ));
}

#[test]
fn a_chain_is_built_from_its_far_end() {
    let makefile = Makefile::from_str(
        "target A [ files() targets(B) ] { echo a }\ntarget B [ files() targets(C) ] { echo b }\ntarget C [ files() targets() ] { echo c }",
    )
    .unwrap();
    let (log, result) = drive(&makefile, "A", all_succeed);
    assert!(result.is_ok());
    assert_eq!(
        log,
        vec![
            "enter B", "enter C", "run echo c", "built C", "run echo b", "built B", "run echo a",
            "built A"
        ]
    );
}

#[test]
fn a_failed_command_stops_the_build_before_the_next_sibling() {
    let makefile = Makefile::from_str(
        "target A [ files() targets(B, C) ] { echo a }\ntarget B [ files() targets() ] { echo b }\ntarget C [ files() targets() ] { echo c }",
    )
    .unwrap();
    let (log, result) = drive(&makefile, "A", b_fails);
    assert!(matches!(result, Err(BuildError::BuildProcessQuitWithNonZero)));
    assert_eq!(log, vec!["enter B", "run echo b"]);
}

#[test]
fn a_failed_build_stays_halted() {
    let makefile = Makefile::from_str("target a [ files() targets() ] { false }").unwrap();
    let mut build = makefile.build("a").unwrap();
    assert!(matches!(build.step(Event::Resume), Action::Probe { .. }));
    assert!(matches!(build.step(Event::Times(FileTimes::new())), Action::Run { .. }));
    assert!(matches!(
        build.step(Event::Outcomes(vec![Outcome::Exited(1)])),
        Action::Failed(BuildError::BuildProcessQuitWithNonZero)
    ));
    assert!(matches!(build.step(Event::Resume), Action::Halted));
    assert!(matches!(build.step(Event::Outcomes(vec![Outcome::Exited(0)])), Action::Halted));
}

#[test]
fn a_missing_dependency_names_both_targets() {
    let makefile = Makefile::from_str("target top [ files() targets(nowhere) ] { echo }").unwrap();
    let (log, result) = drive(&makefile, "top", all_succeed);
    assert!(log.is_empty());
    assert!(matches!(
        result,
        Err(BuildError::FailedToFindTargetForDependency { target_name, dependency_name })
            if target_name == "top" && dependency_name == "nowhere"
    ));
}

#[test]
fn an_up_to_date_target_runs_nothing() {
    let makefile = Makefile::from_str("target a [ files(a.c) targets() ] { cc a.c }").unwrap();
    let mut build = makefile.build("a").unwrap();
    match build.step(Event::Resume) {
        Action::Probe { paths } => assert_eq!(paths, vec!["a", "a.c"]),
        other => panic!("unexpected {:?}", other),
    }
    let mut times = FileTimes::new();
    times.record("a".to_string(), Some(10));
    times.record("a.c".to_string(), Some(9));
    assert!(matches!(build.step(Event::Times(times)), Action::Skip { target } if target == "a"));
    assert!(matches!(build.step(Event::Resume), Action::Succeeded));
    assert!(matches!(build.step(Event::Resume), Action::Succeeded));
}

#[test]
fn an_answer_that_was_not_asked_for_repeats_the_request() {
    let makefile = Makefile::from_str("target a [ files() targets() ] { cc a.c }").unwrap();
    let mut build = makefile.build("a").unwrap();
    assert!(matches!(build.step(Event::Resume), Action::Probe { .. }));
    assert!(matches!(build.step(Event::Resume), Action::Probe { .. }));
    assert!(matches!(build.step(Event::Outcomes(vec![])), Action::Probe { .. }));
    match build.step(Event::Times(FileTimes::new())) {
        Action::Run { target, commands } => {
            assert_eq!(target, "a");
            assert_eq!(commands, vec!["cc a.c"]);
        }
        other => panic!("unexpected {:?}", other),
    }
    assert!(matches!(build.step(Event::Resume), Action::Run { .. }));
    assert!(matches!(
        build.step(Event::Outcomes(vec![Outcome::Exited(0)])),
        Action::Built { target } if target == "a"
    ));
    assert!(matches!(build.step(Event::Resume), Action::Succeeded));
}

#[test]
fn a_target_reached_twice_is_walked_twice() {
    let makefile = Makefile::from_str(
        "target top [ files() targets(l, r) ] { echo top }\ntarget l [ files() targets(base) ] { echo l }\ntarget r [ files() targets(base) ] { echo r }\ntarget base [ files() targets() ] { echo base }",
    )
    .unwrap();
    let (log, result) = drive(&makefile, "top", all_succeed);
    assert!(result.is_ok());
    assert_eq!(log.iter().filter(|l| l.as_str() == "run echo base").count(), 2);
}

#[test]
fn starting_at_a_target_walks_from_it() {
    let makefile = Makefile::from_str("target a [ files() targets() ] { echo a }").unwrap();
    let mut build = makefile.get_targets()[0].build(&makefile);
    assert!(matches!(build.step(Event::Resume), Action::Probe { .. }));
}

#[test]
fn judge_accepts_commands_that_all_exit_with_zero() {
    let lines = vec!["a".to_string(), "b".to_string()];
    assert!(judge(&lines, &[Outcome::Exited(0), Outcome::Exited(0)]).is_ok());
    assert!(judge(&[], &[]).is_ok());
}

#[test]
fn judge_reports_each_kind_of_failure() {
    let lines = vec!["a x".to_string(), "b y".to_string()];
    assert!(matches!(
        judge(&lines, &[Outcome::Exited(0), Outcome::Exited(2)]),
        Err(BuildError::BuildProcessQuitWithNonZero)
    ));
    assert!(matches!(
        judge(&lines, &[Outcome::NoExitCode, Outcome::Exited(2)]),
        Err(BuildError::FailedToGetChildExitCode)
    ));
    assert!(matches!(
        judge(&lines, &[Outcome::WaitFailed, Outcome::NoExitCode]),
        Err(BuildError::BuildProcessFailedToStart)
    ));
    assert!(matches!(
        judge(&lines, &[Outcome::Exited(1), Outcome::NotSpawned]),
        Err(BuildError::FailedToSpawnProcess { cmd }) if cmd == "b y"
    ));
    assert!(matches!(
        judge(&lines, &[Outcome::Exited(0)]),
        Err(BuildError::BuildProcessFailedToStart)
    ));
}

#[test]
fn tokenize_parts_words_at_whitespace_only() {
    assert_eq!(tokenize("gcc -o  main\tmain.c"), vec!["gcc", "-o", "main", "main.c"]);
    assert_eq!(tokenize("echo \"a b\""), vec!["echo", "\"a", "b\""]);
    assert!(tokenize("   ").is_empty());
    assert!(tokenize("").is_empty());
}

#[test]
fn runnable_lines_drop_blank_lines() {
    let lines = vec!["".to_string(), "a".to_string(), " \t".to_string(), " b ".to_string()];
    assert_eq!(runnable_lines(&lines), vec!["a", " b "]);
}

#[test]
fn messages_name_what_went_wrong() {
    assert_eq!(
        BuildError::FailedToSpawnProcess { cmd: "gcc -c x.c".to_string() }.message(),
        "Failed to spawn build process: gcc -c x.c"
    );
    assert_eq!(
        BuildError::FailedToFindTargetForDependency {
            target_name: "main".to_string(),
            dependency_name: "helper".to_string()
        }
        .message(),
        "Failed to find target to build `helper` for target `main`"
    );
    assert_eq!(
        BuildError::FailedToFindTargetToBuild { target_name: "missing".to_string() }.message(),
        "Failed to find target `missing` to build"
    );
    assert_eq!(
        BuildError::BuildProcessFailedToStart.message(),
        "Some build process failed to start"
    );
    assert_eq!(
        BuildError::FailedToGetChildExitCode.message(),
        "Failed to get build process exit code"
    );
    assert_eq!(
        BuildError::BuildProcessQuitWithNonZero.message(),
        "Build process quit with non-zero exit code"
    );
}

#[test]
fn every_command_handed_out_has_a_program() {
    let lines = vec![" ".to_string(), "make all".to_string(), "\t\n".to_string(), "x".to_string()];
    for line in runnable_lines(&lines) {
        assert!(!tokenize(&line).is_empty());
    }
}

#[test]
fn dependencies_are_left_before_commands_are_handed_out() {
    let makefile = Makefile::from_str(
        "target top [ files() targets(l, r) ] { echo top }\ntarget l [ files() targets() ] { echo l }\ntarget r [ files() targets() ] { echo r }",
    )
    .unwrap();
    let (log, result) = drive(&makefile, "top", all_succeed);
    assert!(result.is_ok());
    let at = |entry: &str| log.iter().position(|l| l == entry).unwrap();
    assert!(at("built l") < at("run echo top"));
    assert!(at("built r") < at("run echo top"));
    assert!(at("built l") < at("enter r"));
}
