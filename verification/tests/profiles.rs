use okeydokey::chain::{
    build_chain, config_path, find_profile, list_commands, parent_dir, DirTree, MalformedPolicy,
    ProfileChain,
};
use okeydokey::profile::{parse_profile, split_lines, split_on_colon};
use okeydokey::render::query;
use okeydokey::resolve::{resolve, shared_prefix};

fn tree(entries: &[(&str, &str)]) -> DirTree {
    DirTree {
        files: entries.iter().map(|(d, c)| (d.to_string(), c.to_string())).collect(),
    }
}

#[test]
fn splitting_lines() {
    let lines = split_lines("a\nb\n");
    assert_eq!(lines, vec!["a".to_string(), "b".to_string()]);
    let lines = split_lines("a\n\nb");
    assert_eq!(lines, vec!["a".to_string(), "".to_string(), "b".to_string()]);
    assert_eq!(split_lines(""), Vec::<String>::new());
}

#[test]
fn splitting_on_first_colon() {
    assert_eq!(
        split_on_colon("a:b:c".to_string()),
        Some(("a".to_string(), "b:c".to_string()))
    );
    assert_eq!(split_on_colon("no colon".to_string()), None);
    assert_eq!(split_on_colon(":t".to_string()), Some(("".to_string(), "t".to_string())));
}

#[test]
fn loading_partitions_public_and_internal() {
    let p = parse_profile("/r/.ok".to_string(), "a:1\n_b:2\nc:3").unwrap();
    assert_eq!(p.commands, vec![
        ("a".to_string(), "1".to_string()),
        ("c".to_string(), "3".to_string()),
    ]);
    assert_eq!(p.internal_commands, vec![("_b".to_string(), "2".to_string())]);
    assert_eq!(p.path, "/r/.ok");
    let all = p.all_commands();
    assert_eq!(all.len(), 3);
    assert_eq!(all[2].0, "_b");
}

#[test]
fn loading_fails_closed_on_a_colonless_line() {
    assert!(parse_profile("/r/.ok".to_string(), "a:1\nbad line").is_none());
}

#[test]
fn loading_skips_empty_lines() {
    let p = parse_profile("/r/.ok".to_string(), "a:1\n\nb:2\n").unwrap();
    assert_eq!(p.commands.len(), 2);
}

#[test]
fn load_then_list_keeps_file_order_without_internals() {
    let t = tree(&[("/r", "a:1\n_b:2\nc:3")]);
    let chain = build_chain(&t, "/r".to_string(), MalformedPolicy::SkipFile).unwrap();
    assert_eq!(list_commands(&chain), "a c");
}

#[test]
fn parent_walk() {
    assert_eq!(parent_dir("/a/b"), Some("/a".to_string()));
    assert_eq!(parent_dir("/a"), Some("/".to_string()));
    assert_eq!(parent_dir("/"), None);
    assert_eq!(parent_dir("name"), None);
}

#[test]
fn configuration_file_paths() {
    assert_eq!(config_path("/repo"), "/repo/.ok");
    assert_eq!(config_path("/"), "/.ok");
}

#[test]
fn finding_the_nearest_profile() {
    let t = tree(&[("/a", "far:1"), ("/a/b", "near:2")]);
    let p = find_profile(&t, "/a/b/c".to_string()).unwrap();
    assert_eq!(p.path, "/a/b/.ok");
    assert_eq!(p.commands, vec![("near".to_string(), "2".to_string())]);
}

#[test]
fn a_malformed_nearest_profile_fails_the_lookup() {
    let t = tree(&[("/a", "fine:1"), ("/a/b", "malformed")]);
    assert!(find_profile(&t, "/a/b".to_string()).is_none());
}

#[test]
fn no_profile_anywhere_is_silent() {
    let t = tree(&[]);
    assert!(find_profile(&t, "/a/b".to_string()).is_none());
    let chain = build_chain(&t, "/a/b".to_string(), MalformedPolicy::AbortChain).unwrap();
    assert_eq!(chain.profiles.len(), 0);
    assert!(query(&chain, "x".to_string(), None, None, vec![]).is_none());
    assert_eq!(list_commands(&chain), "");
}

#[test]
fn chain_collects_ancestors_nearest_first() {
    let t = tree(&[("/a", "top:1"), ("/a/b/c", "deep:2")]);
    let chain = build_chain(&t, "/a/b/c".to_string(), MalformedPolicy::AbortChain).unwrap();
    assert_eq!(chain.profiles.len(), 2);
    assert_eq!(chain.profiles[0].path, "/a/b/c/.ok");
    assert_eq!(chain.profiles[1].path, "/a/.ok");
    assert_eq!(list_commands(&chain), "deep top");
}

#[test]
fn malformed_policy_skip_versus_abort() {
    let t = tree(&[("/a/b", "malformed"), ("/a", "ok:1")]);
    let skipped = build_chain(&t, "/a/b".to_string(), MalformedPolicy::SkipFile).unwrap();
    assert_eq!(skipped.profiles.len(), 1);
    assert_eq!(skipped.profiles[0].path, "/a/.ok");
    assert!(build_chain(&t, "/a/b".to_string(), MalformedPolicy::AbortChain).is_none());
}

#[test]
fn shared_prefix_reports_the_whole_prefix() {
    assert_eq!(shared_prefix("serve", "se"), Some((2, "serve".to_string())));
    assert_eq!(shared_prefix("serve", "x"), None);
}

#[test]
fn resolving_prefers_the_shortest_matching_name() {
    let t = tree(&[("/p", "serve:./run.sh\nserver:./run-server.sh")]);
    let chain = build_chain(&t, "/p".to_string(), MalformedPolicy::AbortChain).unwrap();
    let c = resolve(&chain, &"serv".to_string()).unwrap();
    assert_eq!(c.name, "serve");
    assert_eq!(c.command, "./run.sh");
    let out = query(&chain, "serv".to_string(), None, None, vec![]).unwrap();
    assert_eq!(out, "./run.sh");
}

#[test]
fn resolving_without_a_match_is_silent() {
    let t = tree(&[("/p", "build:make")]);
    let chain = build_chain(&t, "/p".to_string(), MalformedPolicy::AbortChain).unwrap();
    assert!(resolve(&chain, &"test".to_string()).is_none());
    assert!(query(&chain, "test".to_string(), None, None, vec![]).is_none());
}

#[test]
fn empty_prefix_matches_everything() {
    let t = tree(&[("/p", "longest:1\nab:2\ncde:3")]);
    let chain = build_chain(&t, "/p".to_string(), MalformedPolicy::AbortChain).unwrap();
    let c = resolve(&chain, &"".to_string()).unwrap();
    assert_eq!(c.name, "ab");
}

#[test]
fn ties_go_to_the_first_occurrence() {
    let t = tree(&[("/p", "ab:first\ncd:second")]);
    let chain = build_chain(&t, "/p".to_string(), MalformedPolicy::AbortChain).unwrap();
    let c = resolve(&chain, &"".to_string()).unwrap();
    assert_eq!(c.name, "ab");
    assert_eq!(c.command, "first");
}

#[test]
fn the_nearer_profile_wins_duplicate_names() {
    let t = tree(&[("/a", "build:far"), ("/a/b", "build:near")]);
    let chain = build_chain(&t, "/a/b".to_string(), MalformedPolicy::AbortChain).unwrap();
    let out = query(&chain, "build".to_string(), None, None, vec![]).unwrap();
    assert_eq!(out, "near");
}

#[test]
fn internal_commands_resolve_but_do_not_list() {
    let t = tree(&[("/p", "pub:1\n_hidden:2")]);
    let chain = build_chain(&t, "/p".to_string(), MalformedPolicy::AbortChain).unwrap();
    assert_eq!(list_commands(&chain), "pub");
    let out = query(&chain, "_hid".to_string(), None, None, vec![]).unwrap();
    assert_eq!(out, "2");
}

#[test]
fn query_scenario_with_arguments() {
    let t = tree(&[("/repo", "build:cargo build\ntest:cargo test {0}")]);
    let chain = build_chain(&t, "/repo".to_string(), MalformedPolicy::AbortChain).unwrap();
    let out = query(
        &chain,
        "te".to_string(),
        None,
        None,
        vec!["--release".to_string()],
    )
    .unwrap();
    assert_eq!(out, "cargo test --release");
}

#[test]
fn query_decorations_substitute_the_profile_directory() {
    let t = tree(&[("/home/user/project", "build:make")]);
    let chain = build_chain(&t, "/home/user/project".to_string(), MalformedPolicy::AbortChain)
        .unwrap();
    let out = query(
        &chain,
        "build".to_string(),
        Some("cd {} && ".to_string()),
        Some(" # done".to_string()),
        vec![],
    )
    .unwrap();
    assert_eq!(out, "cd /home/user/project && make # done");
}

#[test]
fn decorations_use_the_owning_profile_directory() {
    let t = tree(&[("/a", "only:run")]);
    let chain = build_chain(&t, "/a/b/c".to_string(), MalformedPolicy::AbortChain).unwrap();
    let out = query(
        &chain,
        "only".to_string(),
        Some("pushd {};".to_string()),
        Some("; popd".to_string()),
        vec![],
    )
    .unwrap();
    assert_eq!(out, "pushd /a;run; popd");
}

#[test]
fn a_profile_chain_can_be_built_by_hand() {
    let p = parse_profile("/x/.ok".to_string(), "go:now {0}").unwrap();
    let chain = ProfileChain { profiles: vec![p] };
    let out = query(
        &chain,
        "go".to_string(),
        None,
        None,
        vec!["a".to_string(), "b".to_string()],
    )
    .unwrap();
    assert_eq!(out, "now a b");
}
