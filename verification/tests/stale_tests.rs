use msb::stale::FileTimes;
use msb::target::Makefile;

fn times(entries: &[(&str, Option<i128>)]) -> FileTimes {
    let mut t = FileTimes::new();
    for (path, modified) in entries {
        t.record(path.to_string(), *modified);
    }
    t
}

const SOURCE: &str = "target app outputs(app.bin app.map) [ files(app.c app.h) targets(lib) ] { cc }\ntarget lib outputs(lib.a) [ files(lib.c) targets() ] { ar }";

#[test]
fn recorded_time_is_found_again() {
    let t = times(&[("a", Some(5)), ("b", None), ("a", Some(7))]);
    assert_eq!(t.modified("a"), Some(7));
    assert_eq!(t.modified("b"), None);
    assert_eq!(t.modified("c"), None);
    let t = times(&[("a", Some(5)), ("a", None)]);
    assert_eq!(t.modified("a"), None);
}

#[test]
fn min_output_time_is_the_earliest_output() {
    let makefile = Makefile::from_str(SOURCE).unwrap();
    let app = makefile.get_target("app").unwrap();
    let t = times(&[("app.bin", Some(30)), ("app.map", Some(20))]);
    assert_eq!(app.get_min_output_time(&t), Some(20));
    let t = times(&[("app.bin", Some(-3)), ("app.map", Some(20))]);
    assert_eq!(app.get_min_output_time(&t), Some(-3));
}

#[test]
fn min_output_time_is_none_when_an_output_is_missing() {
    let makefile = Makefile::from_str(SOURCE).unwrap();
    let app = makefile.get_target("app").unwrap();
    assert_eq!(app.get_min_output_time(&times(&[("app.bin", Some(30))])), None);
    assert_eq!(app.get_min_output_time(&times(&[("app.map", Some(30))])), None);
    assert_eq!(app.get_min_output_time(&times(&[])), None);
}

#[test]
fn absent_output_makes_a_target_stale() {
    let makefile = Makefile::from_str(SOURCE).unwrap();
    let app = makefile.get_target("app").unwrap();
    let t = times(&[
        ("app.bin", Some(100)),
        ("app.c", Some(1)),
        ("app.h", Some(1)),
        ("lib.a", Some(1)),
    ]);
    assert!(!app.is_up_to_date(&makefile, &t));
}

#[test]
fn outputs_newer_than_every_dependency_are_up_to_date() {
    let makefile = Makefile::from_str(SOURCE).unwrap();
    let app = makefile.get_target("app").unwrap();
    let t = times(&[
        ("app.bin", Some(100)),
        ("app.map", Some(90)),
        ("app.c", Some(10)),
        ("app.h", Some(90)),
        ("lib.a", Some(50)),
    ]);
    assert!(app.is_up_to_date(&makefile, &t));
}

#[test]
fn newer_file_dependency_makes_a_target_stale() {
    let makefile = Makefile::from_str(SOURCE).unwrap();
    let app = makefile.get_target("app").unwrap();
    let t = times(&[
        ("app.bin", Some(100)),
        ("app.map", Some(90)),
        ("app.c", Some(10)),
        ("app.h", Some(91)),
        ("lib.a", Some(50)),
    ]);
    assert!(!app.is_up_to_date(&makefile, &t));
}

#[test]
fn newer_target_dependency_makes_a_target_stale() {
    let makefile = Makefile::from_str(SOURCE).unwrap();
    let app = makefile.get_target("app").unwrap();
    let t = times(&[
        ("app.bin", Some(100)),
        ("app.map", Some(90)),
        ("app.c", Some(10)),
        ("app.h", Some(10)),
        ("lib.a", Some(95)),
    ]);
    assert!(!app.is_up_to_date(&makefile, &t));
}

#[test]
fn unreadable_dependency_makes_a_target_stale() {
    let makefile = Makefile::from_str(SOURCE).unwrap();
    let app = makefile.get_target("app").unwrap();
    let t = times(&[
        ("app.bin", Some(100)),
        ("app.map", Some(90)),
        ("app.c", Some(10)),
        ("lib.a", Some(50)),
    ]);
    assert!(!app.is_up_to_date(&makefile, &t));
    let t = times(&[
        ("app.bin", Some(100)),
        ("app.map", Some(90)),
        ("app.c", Some(10)),
        ("app.h", Some(10)),
    ]);
    assert!(!app.is_up_to_date(&makefile, &t));
}

#[test]
fn undeclared_target_dependency_makes_a_target_stale() {
    let makefile =
        Makefile::from_str("target app [ files() targets(ghost) ] { cc }").unwrap();
    let app = makefile.get_target("app").unwrap();
    assert!(!app.is_up_to_date(&makefile, &times(&[("app", Some(5)), ("ghost", Some(1))])));
}

#[test]
fn only_the_own_outputs_of_a_dependency_count() {
    let makefile = Makefile::from_str(SOURCE).unwrap();
    let app = makefile.get_target("app").unwrap();
    let t = times(&[
        ("app.bin", Some(100)),
        ("app.map", Some(90)),
        ("app.c", Some(10)),
        ("app.h", Some(10)),
        ("lib.a", Some(50)),
        ("lib.c", Some(500)),
    ]);
    assert!(app.is_up_to_date(&makefile, &t));
    assert!(!makefile.get_target("lib").unwrap().is_up_to_date(&makefile, &t));
}

#[test]
fn equal_times_count_as_up_to_date() {
    let makefile = Makefile::from_str("target a [ files(a.c) targets() ] { cc }").unwrap();
    let a = makefile.get_target("a").unwrap();
    assert!(a.is_up_to_date(&makefile, &times(&[("a", Some(7)), ("a.c", Some(7))])));
    assert!(!a.is_up_to_date(&makefile, &times(&[("a", Some(7)), ("a.c", Some(8))])));
}

#[test]
fn probe_paths_lists_outputs_files_and_dependency_outputs() {
    let makefile = Makefile::from_str(SOURCE).unwrap();
    let app = makefile.get_target("app").unwrap();
    assert_eq!(
        app.probe_paths(&makefile),
        vec!["app.bin", "app.map", "app.c", "app.h", "lib.a"]
    );
    let lone = Makefile::from_str("target a [ files() targets(missing) ] { cc }").unwrap();
    assert_eq!(lone.get_target("a").unwrap().probe_paths(&lone), vec!["a"]);
}

#[test]
fn files_that_are_not_probed_do_not_decide() {
    let makefile = Makefile::from_str(SOURCE).unwrap();
    let app = makefile.get_target("app").unwrap();
    let probed = [
        ("app.bin", Some(100)),
        ("app.map", Some(90)),
        ("app.c", Some(10)),
        ("app.h", Some(10)),
        ("lib.a", Some(50)),
    ];
    let mut with_more = probed.to_vec();
    with_more.push(("lib.c", Some(1000)));
    with_more.push(("other", None));
    assert_eq!(
        app.is_up_to_date(&makefile, &times(&probed)),
        app.is_up_to_date(&makefile, &times(&with_more))
    );
}
