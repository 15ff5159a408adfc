use okeydokey::holes::{count_holes, dec_str, fill_in_arguments, hole};
use okeydokey::profile::Profile;
use okeydokey::render::{fill_in_directory, fill_in_profile_directory};
use okeydokey::text::{contains_str, find_char, replace_all, starts_with_str};

#[test]
fn hole_markers() {
    assert_eq!(hole(0), "{0}");
    assert_eq!(hole(7), "{7}");
    assert_eq!(hole(12), "{12}");
    assert_eq!(hole(120), "{120}");
}

#[test]
fn decimal_strings() {
    assert_eq!(dec_str(0), "0");
    assert_eq!(dec_str(9), "9");
    assert_eq!(dec_str(10), "10");
    assert_eq!(dec_str(305), "305");
}

#[test]
fn counting_holes_contiguous() {
    assert_eq!(count_holes(&String::from("cargo build")), 0);
    assert_eq!(count_holes(&String::from("cargo test {0}")), 1);
    assert_eq!(count_holes(&String::from("cp {0} {1}")), 2);
    assert_eq!(count_holes(&String::from("{1} {0} {2}")), 3);
}

#[test]
fn counting_holes_stops_at_gap() {
    assert_eq!(count_holes(&String::from("a {0} b {2}")), 1);
    assert_eq!(count_holes(&String::from("only {1}")), 0);
}

#[test]
fn fill_two_holes_exactly() {
    let out = fill_in_arguments(
        String::from("cp {0} {1}"),
        vec![String::from("a"), String::from("b")],
    );
    assert_eq!(out, "cp a b");
}

#[test]
fn fill_no_holes_appends_overflow() {
    let out = fill_in_arguments(
        String::from("echo hi"),
        vec![String::from("a"), String::from("b")],
    );
    assert_eq!(out, "echo hi a b");
}

#[test]
fn fill_missing_arguments_become_empty() {
    let out = fill_in_arguments(String::from("go {0} {1} end"), vec![String::from("x")]);
    assert_eq!(out, "go x  end");
}

#[test]
fn inserted_arguments_are_literal_text() {
    // A marker arriving inside an argument is not re-evaluated.
    let out = fill_in_arguments(
        String::from("{0}{1}"),
        vec![String::from("{1}"), String::from("X")],
    );
    assert_eq!(out, "{1}X");
}

#[test]
fn markers_beyond_the_hole_count_stay_literal() {
    // The count stops at the gap: {2} is no hole, so it stays as written and
    // the second argument overflows.
    let out = fill_in_arguments(
        String::from("a {0} {2}"),
        vec![String::from("x"), String::from("y")],
    );
    assert_eq!(out, "a x {2} y");
}

#[test]
fn fill_replaces_every_occurrence_of_a_hole() {
    let out = fill_in_arguments(String::from("{0} and {0}"), vec![String::from("z")]);
    assert_eq!(out, "z and z");
}

#[test]
fn fill_with_no_arguments_empties_holes() {
    let out = fill_in_arguments(String::from("run {0}"), vec![]);
    assert_eq!(out, "run ");
}

#[test]
fn replace_all_is_leftmost_and_non_overlapping() {
    assert_eq!(replace_all("aaa", "aa", "b"), "ba");
    assert_eq!(replace_all("x{}y{}", "{}", "/d"), "x/dy/d");
    assert_eq!(replace_all("none here", "{}", "/d"), "none here");
}

#[test]
fn replacement_text_is_not_rescanned() {
    assert_eq!(replace_all("ab", "ab", "ab ab"), "ab ab");
}

#[test]
fn text_searching() {
    assert!(starts_with_str("server", "serv"));
    assert!(!starts_with_str("serve", "server"));
    assert!(starts_with_str("anything", ""));
    assert!(contains_str("cargo test {0}", "{0}"));
    assert!(!contains_str("cargo build", "{0}"));
    assert_eq!(find_char("a:b:c", ':'), 1);
    assert_eq!(find_char("abc", ':'), 3);
}

#[test]
fn directory_decoration() {
    let profile = Profile {
        commands: vec![],
        internal_commands: vec![],
        path: String::from("/home/user/project/.ok"),
    };
    let out = fill_in_profile_directory(&profile, Some(String::from("cd {} && ")));
    assert_eq!(out, "cd /home/user/project && ");
}

#[test]
fn absent_decoration_is_empty() {
    assert_eq!(fill_in_directory("/repo/.ok", None), "");
    assert_eq!(fill_in_directory("/repo/.ok", Some(String::from("; popd"))), "; popd");
}
