use og::channel::{Recv, ViewChannel};
use og::data::{Branch, Link, Outcome, Repo};
use og::pipeline::Pipeline;
use og::store::Store;

fn repo_with_remotes(remotes: Vec<(&str, &str)>) -> Repo {
    Repo {
        description: None,
        remotes: remotes
            .into_iter()
            .map(|(n, a)| (n.to_string(), a.to_string()))
            .collect(),
        branches: Vec::new(),
    }
}

#[test]
fn non_repository_candidates_are_dropped() {
    let mut p = Pipeline::new("h".to_string());
    assert!(p.process_local("/data/x".to_string(), false, None).is_none());
    assert_eq!(p.counts(), (0, 0, 0));
}

#[test]
fn failed_local_inspection_still_yields_an_outcome() {
    let mut p = Pipeline::new("h".to_string());
    let (v, urls) = p.process_local("/data/a/.git".to_string(), true, None).unwrap();
    assert!(v.repo.is_none());
    assert_eq!(v.host, "h".to_string());
    assert!(urls.is_empty());
    assert_eq!(p.counts(), (1, 0, 0));
}

#[test]
fn duplicate_addresses_within_one_repository_forward_once() {
    let mut p = Pipeline::new("h".to_string());
    let repo = repo_with_remotes(vec![("origin", "https://u"), ("backup", "https://u")]);
    let (_v, urls) = p.process_local("/a/.git".to_string(), true, Some(repo)).unwrap();
    assert_eq!(urls, vec!["https://u".to_string()]);
}

#[test]
fn shared_remote_is_inspected_exactly_once() {
    // Two local repositories, the same remote address: two local
    // outcomes are persisted, and one network inspection happens.
    let url = "https://example.com/r.git";
    let host = "h".to_string();
    let mut p = Pipeline::new(host.clone());
    let mut store = Store::new();

    let repo_a = repo_with_remotes(vec![("origin", url)]);
    let (view_a, urls_a) = p
        .process_local("/data/a/proj/.git".to_string(), true, Some(repo_a))
        .unwrap();
    let repo_b = repo_with_remotes(vec![("origin", url)]);
    let (view_b, urls_b) = p
        .process_local("/data/b/.git".to_string(), true, Some(repo_b))
        .unwrap();

    assert_eq!(urls_a, vec![url.to_string()]);
    assert_eq!(urls_b, Vec::<String>::new());

    store.store_view(view_a);
    store.store_view(view_b);
    let mut net_inspections = 0;
    for u in urls_a.into_iter().chain(urls_b.into_iter()) {
        net_inspections += 1;
        let v = p.process_remote(u, Some(repo_with_remotes(Vec::new())));
        store.store_view(v);
    }
    assert_eq!(net_inspections, 1);
    assert_eq!(store.rows.len(), 3);
    let fs_a = Link::Fs { dir: "/data/a/proj/.git".to_string() };
    let fs_b = Link::Fs { dir: "/data/b/.git".to_string() };
    let net = Link::Net { url: url.to_string() };
    assert!(store.find_row(&host, &fs_a).is_some());
    assert!(store.find_row(&host, &fs_b).is_some());
    assert!(store.find_row(&host, &net).is_some());
    assert_eq!(p.counts(), (2, 1, 0));
}

#[test]
fn remote_outcomes_are_classified() {
    let mut p = Pipeline::new("h".to_string());
    let v_ok = p.process_remote("https://good".to_string(), Some(repo_with_remotes(Vec::new())));
    let v_err = p.process_remote("https://bad".to_string(), None);
    assert!(v_ok.repo.is_some());
    assert!(v_err.repo.is_none());
    assert_eq!(p.counts(), (0, 1, 1));
    match v_err.link {
        Link::Net { url } => assert_eq!(url, "https://bad".to_string()),
        Link::Fs { .. } => panic!("a remote outcome must carry a network link"),
    }
}

#[test]
fn rootless_branch_outcome_is_still_persisted() {
    // A branch leaf that resolves to no root commit fails inspection;
    // the outcome is persisted with no facts rather than dropped.
    let host = "h".to_string();
    let err = og::git::branch_roots("").unwrap_err();
    assert_eq!(err, og::git::Error::NoRoots);
    let link = Link::Fs { dir: "/data/broken/.git".to_string() };
    let mut p = Pipeline::new(host.clone());
    let (view, urls) = p.process_local("/data/broken/.git".to_string(), true, None).unwrap();
    assert!(urls.is_empty());
    let mut store = Store::new();
    store.store_view(view);
    let row = store.find_row(&host, &link).unwrap();
    assert!(row.repo.is_none());
    assert_eq!(store.rows.len(), 1);
}

fn sample_outcome(host: &str, dir: &str, desc: Option<&str>) -> Outcome {
    Outcome {
        host: host.to_string(),
        link: Link::Fs { dir: dir.to_string() },
        repo: desc.map(|d| Repo {
            description: Some(d.to_string()),
            remotes: Vec::new(),
            branches: vec![(
                "main".to_string(),
                Branch { roots: vec!["r1".to_string()], leaf: "h1".to_string() },
            )],
        }),
    }
}

#[test]
fn store_replaces_on_same_key() {
    let mut store = Store::new();
    store.store_view(sample_outcome("h", "/a", Some("old")));
    store.store_view(sample_outcome("h", "/a", Some("new")));
    assert_eq!(store.rows.len(), 1);
    let link = Link::Fs { dir: "/a".to_string() };
    let row = store.find_row(&"h".to_string(), &link).unwrap();
    assert_eq!(
        row.repo.as_ref().unwrap().description,
        Some("new".to_string())
    );
}

#[test]
fn distinct_hosts_keep_distinct_rows() {
    let mut store = Store::new();
    store.store_view(sample_outcome("h1", "/a", Some("d")));
    store.store_view(sample_outcome("h2", "/a", Some("d")));
    assert_eq!(store.rows.len(), 2);
}

#[test]
fn rerun_leaves_the_store_unchanged() {
    // The same run written twice: same rows, same facts, no
    // duplicates.
    let run = || {
        vec![
            sample_outcome("h", "/a", Some("da")),
            sample_outcome("h", "/b", None),
            sample_outcome("h", "/a", Some("da2")),
        ]
    };
    let mut store = Store::new();
    store.store_views(run());
    let rows_after_one = store.rows.len();
    let link_a = Link::Fs { dir: "/a".to_string() };
    let desc_after_one = store
        .find_row(&"h".to_string(), &link_a)
        .unwrap()
        .repo
        .as_ref()
        .unwrap()
        .description
        .clone();
    store.store_views(run());
    assert_eq!(store.rows.len(), rows_after_one);
    assert_eq!(rows_after_one, 2);
    let row = store.find_row(&"h".to_string(), &link_a).unwrap();
    assert_eq!(row.repo.as_ref().unwrap().description, desc_after_one);
    assert_eq!(desc_after_one, Some("da2".to_string()));
    let link_b = Link::Fs { dir: "/b".to_string() };
    assert!(store.find_row(&"h".to_string(), &link_b).unwrap().repo.is_none());
}

#[test]
fn channel_is_first_in_first_out() {
    let mut c = ViewChannel::new(1);
    c.send(sample_outcome("h", "/a", None));
    c.send(sample_outcome("h", "/b", None));
    match c.recv() {
        Recv::Item(v) => match v.link {
            Link::Fs { dir } => assert_eq!(dir, "/a".to_string()),
            Link::Net { .. } => panic!("wrong link kind"),
        },
        _ => panic!("an outstanding record must be handed over"),
    }
}

#[test]
fn consumer_stops_only_after_every_sender_is_released() {
    // Two stage handles and the orchestrator's extra one.
    let mut c = ViewChannel::new(3);
    c.send(sample_outcome("h", "/a", None));
    c.drop_sender();
    c.drop_sender();
    match c.recv() {
        Recv::Item(_) => {}
        _ => panic!("the queue must drain first"),
    }
    // Queue drained, but the orchestrator still holds its handle: the
    // consumer must keep waiting, not stop.
    assert!(matches!(c.recv(), Recv::WouldBlock));
    c.drop_sender();
    assert!(matches!(c.recv(), Recv::Closed));
}
