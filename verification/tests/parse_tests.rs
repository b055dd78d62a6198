use msb::parse::{parse_makefile, ParseError};
use msb::target::{Makefile, Target};
use msb::text::{characters, scan, split_fields, starts_at, CharClass};

fn strings(items: &[&str]) -> Vec<String> {
    items.iter().map(|s| s.to_string()).collect()
}

#[test]
fn parses_the_two_targets_of_a_description() {
    let source = "target main [ files(main.c) targets(helper) ] {\n  gcc -o main main.c\n}\ntarget helper outputs(helper.o) [ files(helper.c) targets() ] {\n  gcc -c helper.c\n}\n";
    let makefile = Makefile::from_str(source).unwrap();
    let targets = makefile.get_targets();
    assert_eq!(targets.len(), 2);
    assert_eq!(targets[0].name(), "main");
    assert_eq!(targets[0].outputs(), &strings(&["main"])[..]);
    assert_eq!(targets[0].file_dependencies(), &strings(&["main.c"])[..]);
    assert_eq!(targets[0].target_dependencies(), &strings(&["helper"])[..]);
    assert_eq!(targets[0].commands(), &strings(&["gcc -o main main.c"])[..]);
    assert_eq!(targets[1].name(), "helper");
    assert_eq!(targets[1].outputs(), &strings(&["helper.o"])[..]);
    assert_eq!(targets[1].file_dependencies(), &strings(&["helper.c"])[..]);
    assert!(targets[1].target_dependencies().is_empty());
    assert_eq!(targets[1].commands(), &strings(&["gcc -c helper.c"])[..]);
}

#[test]
fn target_without_outputs_clause_produces_its_own_name() {
    let makefile = Makefile::from_str("target app [ files(a.c b.c) targets() ] { cc a.c b.c }").unwrap();
    let t = makefile.get_target("app").unwrap();
    assert_eq!(t.outputs(), &strings(&["app"])[..]);
    assert_eq!(t.file_dependencies(), &strings(&["a.c", "b.c"])[..]);
}

#[test]
fn empty_outputs_clause_falls_back_to_the_name() {
    let makefile = Makefile::from_str("target app outputs() [ files() targets() ] { cc }").unwrap();
    assert_eq!(makefile.get_targets()[0].outputs(), &strings(&["app"])[..]);
}

#[test]
fn several_outputs_keep_their_order() {
    let makefile =
        Makefile::from_str("target lib outputs(lib.a  lib.h) [ files() targets() ] { make }").unwrap();
    assert_eq!(makefile.get_targets()[0].outputs(), &strings(&["lib.a", "lib.h"])[..]);
}

#[test]
fn target_dependencies_are_parted_by_commas() {
    let makefile =
        Makefile::from_str("target all [ files() targets(a, b ,c,d) ] { true }").unwrap();
    assert_eq!(
        makefile.get_targets()[0].target_dependencies(),
        &strings(&["a", "b", "c", "d"])[..]
    );
}

#[test]
fn commands_are_cut_at_semicolons_and_line_ends() {
    let makefile = Makefile::from_str(
        "target x [ files() targets() ] {\n  echo one ; echo two\n\n   ;\n echo three  \n}",
    )
    .unwrap();
    assert_eq!(
        makefile.get_targets()[0].commands(),
        &strings(&["echo one", "echo two", "echo three"])[..]
    );
}

#[test]
fn empty_source_declares_nothing() {
    assert_eq!(Makefile::from_str("").unwrap().get_targets().len(), 0);
    assert_eq!(Makefile::from_str("  \n\t ").unwrap().get_targets().len(), 0);
}

#[test]
fn missing_closing_brace_is_mismatched_braces() {
    let source = "target a [ files() targets() ] { echo build-a ";
    assert_eq!(Makefile::from_str(source).unwrap_err(), ParseError::MismatchedBraces);
    assert!(parse_makefile(source).is_none());
}

#[test]
fn malformed_second_target_rejects_the_whole_source() {
    let source = "target a [ files() targets() ] { echo a }\ntarget b [ files() targets() ] { echo b";
    assert_eq!(Makefile::from_str(source).unwrap_err(), ParseError::MismatchedBraces);
    let source = "target a [ files() targets() ] { echo a }\ntarget b { echo b }";
    assert_eq!(Makefile::from_str(source).unwrap_err(), ParseError::InvalidTargetHeader);
    assert!(parse_makefile(source).is_none());
}

#[test]
fn extra_closing_brace_is_mismatched_braces() {
    let source = "target a [ files() targets() ] { echo a } }";
    assert_eq!(Makefile::from_str(source).unwrap_err(), ParseError::MismatchedBraces);
}

#[test]
fn declaration_without_keyword_is_invalid_format() {
    assert_eq!(Makefile::from_str("goal a [ files() targets() ] { x }").unwrap_err(), ParseError::InvalidTargetFormat);
    assert_eq!(Makefile::from_str("target [ files() targets() ] { x }").unwrap_err(), ParseError::InvalidTargetFormat);
    assert_eq!(Makefile::from_str("targeta [ files() targets() ] { x }").unwrap_err(), ParseError::InvalidTargetFormat);
}

#[test]
fn declaration_without_command_block_is_invalid_format() {
    assert_eq!(
        Makefile::from_str("target a [ files() targets() ]").unwrap_err(),
        ParseError::InvalidTargetFormat
    );
    assert_eq!(
        Makefile::from_str("target a [ files() targets() ] x { y }").unwrap_err(),
        ParseError::InvalidTargetFormat
    );
}

#[test]
fn missing_brackets_are_invalid_header() {
    assert_eq!(
        Makefile::from_str("target a files() targets() { x }").unwrap_err(),
        ParseError::InvalidTargetHeader
    );
    assert_eq!(
        Makefile::from_str("target a [ files() targets() { x }").unwrap_err(),
        ParseError::InvalidTargetHeader
    );
    assert_eq!(
        Makefile::from_str("target a outputs(x [ files( targets( ] { x }").unwrap_err(),
        ParseError::InvalidTargetHeader
    );
}

#[test]
fn missing_targets_marker_is_invalid_dependency_block() {
    assert_eq!(
        Makefile::from_str("target a [ files(x.c) ] { x }").unwrap_err(),
        ParseError::InvalidDependencyBlock
    );
    assert_eq!(
        Makefile::from_str("target a [ targets() ] { x }").unwrap_err(),
        ParseError::InvalidDependencyBlock
    );
    assert_eq!(
        Makefile::from_str("target a [ files(x.c) targets(b ] { x }").unwrap_err(),
        ParseError::InvalidDependencyBlock
    );
}

#[test]
fn parse_makefile_gives_the_targets_of_a_good_source() {
    let makefile = parse_makefile("target a [ files() targets() ] { echo a }").unwrap();
    assert_eq!(makefile.get_targets().len(), 1);
    assert_eq!(makefile.get_targets()[0].name(), "a");
}

#[test]
fn get_target_finds_the_first_of_a_name() {
    let makefile = Makefile::from_str(
        "target a outputs(first) [ files() targets() ] { x }\ntarget a outputs(second) [ files() targets() ] { y }",
    )
    .unwrap();
    assert_eq!(makefile.get_target("a").unwrap().outputs(), &strings(&["first"])[..]);
    assert!(makefile.get_target("b").is_none());
}

#[test]
fn new_target_keeps_what_it_is_given() {
    let t = Target::new(
        "t".to_string(),
        strings(&["o1", "o2"]),
        strings(&["f"]),
        strings(&["d"]),
        strings(&["c1", "c2"]),
    );
    assert_eq!(t.name(), "t");
    assert_eq!(t.outputs(), &strings(&["o1", "o2"])[..]);
    assert_eq!(t.file_dependencies(), &strings(&["f"])[..]);
    assert_eq!(t.target_dependencies(), &strings(&["d"])[..]);
    assert_eq!(t.commands(), &strings(&["c1", "c2"])[..]);
}

#[test]
fn new_target_without_outputs_produces_its_name() {
    let t = Target::new("solo".to_string(), vec![], vec![], vec![], vec![]);
    assert_eq!(t.outputs(), &strings(&["solo"])[..]);
}

#[test]
fn characters_spell_the_text() {
    assert_eq!(characters("a{é}"), vec!['a', '{', 'é', '}']);
    assert!(characters("").is_empty());
}

#[test]
fn scan_stops_at_the_first_character_outside_the_class() {
    let chars = characters("  ab1 ,x");
    assert_eq!(scan(&chars, 0, chars.len(), CharClass::Space), 2);
    assert_eq!(scan(&chars, 2, chars.len(), CharClass::Alnum), 5);
    assert_eq!(scan(&chars, 2, 4, CharClass::Alnum), 4);
    assert_eq!(scan(&chars, 0, chars.len(), CharClass::Except(',')), 6);
    assert_eq!(scan(&chars, 5, chars.len(), CharClass::Alnum), 5);
}

#[test]
fn starts_at_compares_in_place() {
    let chars = characters("a target");
    assert!(starts_at(&chars, 2, &characters("target")));
    assert!(!starts_at(&chars, 1, &characters("target")));
    assert!(!starts_at(&chars, 3, &characters("target")));
    assert!(starts_at(&chars, 8, &characters("")));
}

#[test]
fn split_fields_trims_and_drops_empty_fields() {
    let text = " a b ;; c ;  ";
    let chars = characters(text);
    assert_eq!(
        split_fields(text, &chars, 0, chars.len(), CharClass::Statement),
        strings(&["a b", "c"])
    );
    assert_eq!(
        split_fields(text, &chars, 0, chars.len(), CharClass::Word),
        strings(&["a", "b", ";;", "c", ";"])
    );
}
