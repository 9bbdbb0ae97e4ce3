use og::fs::{base_name, find_dirs, Dirs, Node};

fn strings(v: Vec<&str>) -> Vec<String> {
    v.into_iter().map(|s| s.to_string()).collect()
}

#[test]
fn base_name_is_the_final_component() {
    assert_eq!(base_name("/data/a/.git"), ".git".to_string());
    assert_eq!(base_name("plain"), "plain".to_string());
    assert_eq!(base_name("/"), String::new());
    assert_eq!(base_name(""), String::new());
}

#[test]
fn init_seeds_the_frontier_with_the_root() {
    let d = find_dirs(&"/data".to_string(), ".git", false, &Vec::new());
    assert_eq!(d.target_name, ".git".to_string());
    assert!(!d.follow);
    assert_eq!(d.frontier, strings(vec!["/data"]));
}

#[test]
fn ignored_root_yields_nothing() {
    let ignore = strings(vec!["/data/skip"]);
    let mut d = find_dirs(&"/data/skip".to_string(), ".git", false, &ignore);
    assert_eq!(d.pop_candidate(), None);
}

#[test]
fn prefixed_by_ignored_path_is_still_walked() {
    let ignore = strings(vec!["/data/skip"]);
    let mut d = find_dirs(&"/data/skipme".to_string(), ".git", false, &ignore);
    assert_eq!(d.pop_candidate(), Some("/data/skipme".to_string()));
}

#[test]
fn matched_directory_is_a_leaf() {
    let mut d = find_dirs(&"/a".to_string(), ".git", false, &Vec::new());
    let outer = d.pop_candidate().unwrap();
    assert_eq!(outer, "/a".to_string());
    let matched = d.step(
        &outer,
        Node::Dir { children: Some(strings(vec!["/a/.git"])) },
    );
    assert!(!matched);
    let candidate = d.pop_candidate().unwrap();
    assert_eq!(candidate, "/a/.git".to_string());
    // The matched directory holds a nested marker directory; the
    // walker reports the outer one and never descends.
    let matched = d.step(
        &candidate,
        Node::Dir { children: Some(strings(vec!["/a/.git/inner", "/a/.git/inner/.git"])) },
    );
    assert!(matched);
    assert_eq!(d.pop_candidate(), None);
}

#[test]
fn unreadable_directory_degrades_without_failing() {
    // One unreadable subdirectory, one valid repository elsewhere:
    // the repository is still found.
    let mut d = find_dirs(&"/r".to_string(), ".git", false, &Vec::new());
    let mut matches: Vec<String> = Vec::new();
    loop {
        let path = match d.pop_candidate() {
            Some(p) => p,
            None => break,
        };
        let node = match path.as_str() {
            "/r" => Node::Dir { children: Some(strings(vec!["/r/bad", "/r/ok"])) },
            "/r/bad" => Node::Dir { children: None },
            "/r/ok" => Node::Dir { children: Some(strings(vec!["/r/ok/.git", "/r/ok/note.txt"])) },
            "/r/ok/note.txt" => Node::Other,
            _ => Node::Dir { children: Some(Vec::new()) },
        };
        if d.step(&path, node) {
            matches.push(path);
        }
    }
    assert_eq!(matches, strings(vec!["/r/ok/.git"]));
}

#[test]
fn symlinks_follow_only_when_asked() {
    let mut d = find_dirs(&"/a/link".to_string(), ".git", false, &Vec::new());
    let p = d.pop_candidate().unwrap();
    let matched = d.step(&p, Node::Symlink { target: Some("/target".to_string()) });
    assert!(!matched);
    assert_eq!(d.pop_candidate(), None);

    let mut d = find_dirs(&"/a/link".to_string(), ".git", true, &Vec::new());
    let p = d.pop_candidate().unwrap();
    let matched = d.step(&p, Node::Symlink { target: Some("/target".to_string()) });
    assert!(!matched);
    assert_eq!(d.pop_candidate(), Some("/target".to_string()));
}

#[test]
fn missing_and_unreadable_links_are_skipped() {
    let mut d = find_dirs(&"/a".to_string(), ".git", true, &Vec::new());
    let p = d.pop_candidate().unwrap();
    assert!(!d.step(&p, Node::Missing));
    assert_eq!(d.pop_candidate(), None);

    let mut d = find_dirs(&"/a".to_string(), ".git", true, &Vec::new());
    let p = d.pop_candidate().unwrap();
    assert!(!d.step(&p, Node::Symlink { target: None }));
    assert_eq!(d.pop_candidate(), None);
}

#[test]
fn frontier_is_last_in_first_out() {
    let mut d = Dirs::init(&"/r".to_string(), ".git", false, &Vec::new());
    let p = d.pop_candidate().unwrap();
    d.step(&p, Node::Dir { children: Some(strings(vec!["/r/a", "/r/b"])) });
    assert_eq!(d.pop_candidate(), Some("/r/b".to_string()));
    assert_eq!(d.pop_candidate(), Some("/r/a".to_string()));
}
