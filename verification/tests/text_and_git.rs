use og::git::{self, Error, RemoteRef, TreeRef};
use og::data::Repo;
use og::text;

fn strings(v: Vec<&str>) -> Vec<String> {
    v.into_iter().map(|s| s.to_string()).collect()
}

#[test]
fn fields_splits_on_whitespace() {
    assert_eq!(text::fields_of("abc def"), strings(vec!["abc", "def"]));
    assert_eq!(text::fields_of("  a\t b  "), strings(vec!["a", "b"]));
    assert_eq!(text::fields_of(""), Vec::<String>::new());
    assert_eq!(text::fields_of("   \t\n"), Vec::<String>::new());
    assert_eq!(text::fields_of("one"), strings(vec!["one"]));
}

#[test]
fn lines_split_and_drop_terminators() {
    assert_eq!(text::lines_of("a\nb\n"), strings(vec!["a", "b"]));
    assert_eq!(text::lines_of("a\r\nb"), strings(vec!["a", "b"]));
    assert_eq!(text::lines_of(""), Vec::<String>::new());
    assert_eq!(text::lines_of("a\n\nb"), strings(vec!["a", "", "b"]));
    assert_eq!(text::lines_of("single"), strings(vec!["single"]));
}

#[test]
fn trim_drops_surrounding_whitespace() {
    assert_eq!(text::trim_of("  host\n"), "host".to_string());
    assert_eq!(text::trim_of("host"), "host".to_string());
    assert_eq!(text::trim_of(" \t \n"), String::new());
    assert_eq!(text::trim_of("a b"), "a b".to_string());
}

#[test]
fn prefix_tests_are_exact() {
    assert!(text::str_starts_with("refs/heads/main", "refs/heads/"));
    assert!(!text::str_starts_with("refs/tags/v1", "refs/heads/"));
    assert!(!text::str_starts_with("refs", "refs/heads/"));
    assert_eq!(
        text::strip_prefix_of("refs/heads/main", "refs/heads/"),
        Some("main".to_string())
    );
    assert_eq!(text::strip_prefix_of("refs/tags/v1", "refs/heads/"), None);
}

#[test]
fn hostname_is_trimmed_output() {
    assert_eq!(og::os::hostname("  myhost\n"), "myhost".to_string());
    assert_eq!(og::os::hostname("myhost"), "myhost".to_string());
}

#[test]
fn tree_ref_parses_two_fields() {
    let t = TreeRef::from_line("deadbeef refs/heads/main").unwrap();
    assert_eq!(t.hash, "deadbeef".to_string());
    assert_eq!(t.name, "refs/heads/main".to_string());
}

#[test]
fn tree_ref_rejects_bad_lines() {
    assert_eq!(TreeRef::from_line("").unwrap_err(), Error::RefLineEmpty);
    assert_eq!(TreeRef::from_line("   ").unwrap_err(), Error::RefLineEmpty);
    assert_eq!(TreeRef::from_line("abc").unwrap_err(), Error::RefLineMissingName);
    assert_eq!(TreeRef::from_line("a b c").unwrap_err(), Error::RefLineExtraField);
}

#[test]
fn remote_ref_parses_and_ignores_direction_tag() {
    let r = RemoteRef::from_line("origin https://example.com/r.git (fetch)").unwrap();
    assert_eq!(r.name, "origin".to_string());
    assert_eq!(r.addr, "https://example.com/r.git".to_string());
}

#[test]
fn remote_ref_rejects_bad_lines() {
    assert_eq!(RemoteRef::from_line("").unwrap_err(), Error::RemoteLineEmpty);
    assert_eq!(RemoteRef::from_line("origin").unwrap_err(), Error::RemoteLineMissingAddr);
}

#[test]
fn branch_leaves_keeps_heads_only() {
    let out = "h1 refs/heads/main\nh2 refs/tags/v1\nh3 refs/heads/dev\n";
    let leaves = git::branch_leaves(out).unwrap();
    assert_eq!(
        leaves,
        vec![
            ("main".to_string(), "h1".to_string()),
            ("dev".to_string(), "h3".to_string())
        ]
    );
}

#[test]
fn branch_leaves_propagates_line_errors() {
    let out = "h1 refs/heads/main\nlonely\n";
    assert_eq!(git::branch_leaves(out).unwrap_err(), Error::RefLineMissingName);
}

#[test]
fn remote_refs_later_line_wins() {
    let out = "origin https://a (fetch)\norigin https://a (push)\nbackup https://b (fetch)\n";
    let remotes = git::remote_refs(out).unwrap();
    assert_eq!(
        remotes,
        vec![
            ("origin".to_string(), "https://a".to_string()),
            ("backup".to_string(), "https://b".to_string())
        ]
    );
}

#[test]
fn branch_roots_dedups_lines() {
    let roots = git::branch_roots("r1\nr2\nr1\n").unwrap();
    assert_eq!(roots.len(), 2);
    assert!(roots.contains(&"r1".to_string()));
    assert!(roots.contains(&"r2".to_string()));
}

#[test]
fn branch_roots_empty_is_a_failure() {
    assert_eq!(git::branch_roots("").unwrap_err(), Error::NoRoots);
}

#[test]
fn is_bare_parses_the_answer() {
    assert_eq!(git::is_bare("true\n"), Ok(true));
    assert_eq!(git::is_bare(" false "), Ok(false));
    assert_eq!(git::is_bare("maybe"), Err(Error::BadBool));
    assert_eq!(git::is_bare(""), Err(Error::BadBool));
}

#[test]
fn description_drops_unnamed_placeholder() {
    assert_eq!(
        git::description_of("Unnamed repository; edit this file to name it.\n"),
        None
    );
    assert_eq!(
        git::description_of("My project\n"),
        Some("My project\n".to_string())
    );
}

fn leaves_main() -> Vec<(String, String)> {
    vec![("main".to_string(), "h1".to_string())]
}

#[test]
fn read_from_fs_assembles_the_record() {
    let repo: Repo = Repo::read_from_fs(
        Some("hello\n".to_string()),
        &leaves_main(),
        &strings(vec!["r1\nr2\n"]),
        "origin https://e (fetch)\norigin https://e (push)\n",
    )
    .unwrap();
    assert_eq!(repo.description, Some("hello\n".to_string()));
    assert_eq!(
        repo.remotes,
        vec![("origin".to_string(), "https://e".to_string())]
    );
    assert_eq!(repo.branches.len(), 1);
    let (name, branch) = &repo.branches[0];
    assert_eq!(name, "main");
    assert_eq!(branch.leaf, "h1".to_string());
    assert_eq!(branch.roots.len(), 2);
    assert!(branch.roots.contains(&"r1".to_string()));
    assert!(branch.roots.contains(&"r2".to_string()));
}

#[test]
fn read_from_fs_needs_a_description_file() {
    let err = Repo::read_from_fs(
        None,
        &leaves_main(),
        &strings(vec!["r1\n"]),
        "",
    )
    .unwrap_err();
    assert_eq!(err, Error::NoDescription);
}

#[test]
fn read_from_fs_rejects_misaligned_roots() {
    let err = Repo::read_from_fs(
        Some("d".to_string()),
        &leaves_main(),
        &Vec::new(),
        "",
    )
    .unwrap_err();
    assert_eq!(err, Error::RootsMismatch);
}

#[test]
fn read_from_fs_fails_on_rootless_branch() {
    let err = Repo::read_from_fs(
        Some("d".to_string()),
        &leaves_main(),
        &strings(vec![""]),
        "",
    )
    .unwrap_err();
    assert_eq!(err, Error::NoRoots);
}

#[test]
fn read_from_fs_propagates_remote_errors() {
    let err = Repo::read_from_fs(
        Some("d".to_string()),
        &leaves_main(),
        &strings(vec!["r1\n"]),
        "origin\n",
    )
    .unwrap_err();
    assert_eq!(err, Error::RemoteLineMissingAddr);
}
