use repo_mirror::cycle::{Action, Event, SyncCycle};
use repo_mirror::error::SyncError;

const BASE: &str = "/srv/repo";
const REPO: &str = "someone/packages";

fn names(list: &[&str]) -> Vec<String> {
    list.iter().map(|s| s.to_string()).collect()
}

fn version_key(artifact: &str) -> (String, String) {
    let fields: Vec<&str> = artifact.rsplitn(4, '-').collect();
    (fields[2].to_string(), fields[1].to_string())
}

fn compare(first: &str, second: &str) -> Vec<u8> {
    let a = version_key(first);
    let b = version_key(second);
    let sign = if a > b {
        "1\n"
    } else if a < b {
        "-1\n"
    } else {
        "0\n"
    };
    sign.as_bytes().to_vec()
}

fn listing(assets: &[&str]) -> Vec<u8> {
    let mut body = String::from("[{\"tag_name\":\"packages\",\"assets\":[");
    for (i, a) in assets.iter().enumerate() {
        if i > 0 {
            body.push(',');
        }
        body.push_str(&format!("{{\"name\":\"{}\"}}", a));
    }
    body.push_str("]},{\"tag_name\":\"old\",\"assets\":[{\"name\":\"zzz-9-9-any.pkg.tar.zst\"}]}]");
    body.into_bytes()
}

fn remove(artifact: &str) -> Action {
    Action::Remove { path: format!("{}/x86_64/{}", BASE, artifact) }
}

fn install(artifact: &str) -> Action {
    Action::Install {
        url: format!("https://github.com/{}/releases/download/packages/{}", REPO, artifact),
        path: format!("{}/x86_64/{}", BASE, artifact),
        index: format!("{}/x86_64/someone.db.tar.gz", BASE),
    }
}

/// Drives one cycle on a directory held in memory. Returns what was asked
/// of the directory, in order, and the outcome.
fn run(dir: &mut Vec<String>, body: &[u8]) -> (Vec<Action>, Result<(), SyncError>) {
    let mut asked = Vec::new();
    let (mut cycle, mut action) = SyncCycle::new(BASE.to_string(), REPO.to_string());
    let mut steps = 0;
    loop {
        steps += 1;
        assert!(steps < 10_000);
        let event = match &action {
            Action::ListLocal { dir: path } => {
                assert_eq!(path, "/srv/repo/x86_64");
                Event::LocalEntries { names: dir.clone() }
            }
            Action::Compare { first, second } => Event::Compared { output: compare(first, second) },
            Action::FetchListing { url } => {
                assert_eq!(url, "https://api.github.com/repos/someone/packages/releases");
                Event::Listing { body: body.to_vec() }
            }
            Action::Remove { path } => {
                let name = path.rsplit('/').next().unwrap().to_string();
                dir.retain(|n| *n != name);
                Event::Removed
            }
            Action::Install { path, .. } => {
                let name = path.rsplit('/').next().unwrap().to_string();
                if !dir.contains(&name) {
                    dir.push(name);
                }
                Event::Installed
            }
            Action::Finish { outcome } => {
                assert!(cycle.is_finished());
                return (asked, *outcome);
            }
        };
        if matches!(action, Action::Remove { .. } | Action::Install { .. }) {
            asked.push(action);
        }
        assert!(!cycle.is_finished());
        let next = cycle.step(event);
        cycle = next.0;
        action = next.1;
    }
}

#[test]
fn newer_remote_replaces_local() {
    let mut dir = names(&["pkgA-1.0-1-x86_64.pkg.tar.zst", "someone.db.tar.gz"]);
    let (asked, outcome) = run(&mut dir, &listing(&["pkgA-2.0-1-x86_64.pkg.tar.zst"]));
    assert_eq!(outcome, Ok(()));
    assert_eq!(
        asked,
        vec![remove("pkgA-1.0-1-x86_64.pkg.tar.zst"), install("pkgA-2.0-1-x86_64.pkg.tar.zst")]
    );
    assert_eq!(dir, names(&["someone.db.tar.gz", "pkgA-2.0-1-x86_64.pkg.tar.zst"]));
}

#[test]
fn missing_locally_is_installed_once() {
    let mut dir = names(&["other-1-1-any.pkg.tar.zst"]);
    let (asked, outcome) = run(&mut dir, &listing(&["pkgA-2.0-1-x86_64.pkg.tar.zst"]));
    assert_eq!(outcome, Ok(()));
    assert_eq!(asked, vec![install("pkgA-2.0-1-x86_64.pkg.tar.zst")]);
}

#[test]
fn second_cycle_does_nothing() {
    let mut dir = names(&[
        "a-1-1-any.pkg.tar.zst",
        "a-0.5-1-any.pkg.tar.zst",
        "b-2-1-any.pkg.tar.zst",
        "c-1-1-any.pkg.tar.zst",
        "notes.txt",
    ]);
    let body = listing(&[
        "b-1-1-any.pkg.tar.zst",
        "a-2-1-any.pkg.tar.zst",
        "d-1-1-any.pkg.tar.zst",
        "a-1.5-1-any.pkg.tar.zst",
        "c-1-1-any.pkg.tar.zst",
    ]);
    let (asked, outcome) = run(&mut dir, &body);
    assert_eq!(outcome, Ok(()));
    assert_eq!(
        asked,
        vec![
            remove("a-1-1-any.pkg.tar.zst"),
            install("a-2-1-any.pkg.tar.zst"),
            install("d-1-1-any.pkg.tar.zst"),
        ]
    );
    dir.reverse();
    let (asked, outcome) = run(&mut dir, &body);
    assert_eq!(outcome, Ok(()));
    assert_eq!(asked, Vec::new());
}

#[test]
fn release_without_assets_changes_nothing() {
    let mut dir = names(&["a-1-1-any.pkg.tar.zst"]);
    let (asked, outcome) = run(&mut dir, &listing(&[]));
    assert_eq!(outcome, Ok(()));
    assert_eq!(asked, Vec::new());
    let (asked, outcome) = run(&mut dir, b"[{\"tag_name\":\"packages\"}]");
    assert_eq!(outcome, Ok(()));
    assert_eq!(asked, Vec::new());
    let (asked, outcome) = run(&mut dir, b"{\"message\":\"Not Found\"}");
    assert_eq!(outcome, Ok(()));
    assert_eq!(asked, Vec::new());
    assert_eq!(dir, names(&["a-1-1-any.pkg.tar.zst"]));
}

#[test]
fn older_releases_are_never_read() {
    let mut dir = Vec::new();
    let (asked, _) = run(&mut dir, &listing(&["a-1-1-any.pkg.tar.zst"]));
    assert_eq!(asked, vec![install("a-1-1-any.pkg.tar.zst")]);
}

#[test]
fn local_only_artifacts_are_left_alone() {
    let mut dir = names(&["gone-1-1-any.pkg.tar.zst", "a-1-1-any.pkg.tar.zst"]);
    let (asked, outcome) = run(&mut dir, &listing(&["a-1-1-any.pkg.tar.zst"]));
    assert_eq!(outcome, Ok(()));
    assert_eq!(asked, Vec::new());
    assert_eq!(dir, names(&["gone-1-1-any.pkg.tar.zst", "a-1-1-any.pkg.tar.zst"]));
}

#[test]
fn older_and_equal_remote_artifacts_are_skipped() {
    let mut dir = names(&["a-2-1-any.pkg.tar.zst", "b-1-1-any.pkg.tar.zst"]);
    let (asked, outcome) =
        run(&mut dir, &listing(&["a-1-1-any.pkg.tar.zst", "b-1-1-x86_64.pkg.tar.zst"]));
    assert_eq!(outcome, Ok(()));
    assert_eq!(asked, Vec::new());
}

#[test]
fn entries_that_are_no_packages_are_not_compared() {
    let mut dir = names(&["a-9-1-any.pkg.tar.zst.sig", "a-9-1-any.pkg.tar.xz"]);
    let (asked, outcome) = run(&mut dir, &listing(&["a-1-1-any.pkg.tar.zst"]));
    assert_eq!(outcome, Ok(()));
    assert_eq!(asked, vec![install("a-1-1-any.pkg.tar.zst")]);
}

fn start_with(entries: &[&str]) -> (SyncCycle, Action) {
    let (cycle, action) = SyncCycle::new(BASE.to_string(), REPO.to_string());
    assert_eq!(action, Action::ListLocal { dir: "/srv/repo/x86_64".to_string() });
    cycle.step(Event::LocalEntries { names: names(entries) })
}

#[test]
fn failed_removal_does_not_stop_the_cycle() {
    let (cycle, action) = start_with(&["a-1-1-any.pkg.tar.zst"]);
    assert!(matches!(action, Action::FetchListing { .. }));
    let (cycle, action) = cycle.step(Event::Listing { body: listing(&["a-2-1-any.pkg.tar.zst"]) });
    assert_eq!(
        action,
        Action::Compare {
            first: "a-2-1-any.pkg.tar.zst".to_string(),
            second: "a-1-1-any.pkg.tar.zst".to_string(),
        }
    );
    let (cycle, action) = cycle.step(Event::Compared { output: b"1\n".to_vec() });
    assert_eq!(action, remove("a-1-1-any.pkg.tar.zst"));
    let (cycle, action) = cycle.step(Event::Failed { error: SyncError::Filesystem });
    assert_eq!(action, install("a-2-1-any.pkg.tar.zst"));
    let (cycle, action) = cycle.step(Event::Installed);
    assert_eq!(action, Action::Finish { outcome: Ok(()) });
    assert!(cycle.is_finished());
}

#[test]
fn failures_end_the_cycle_with_their_kind() {
    let (cycle, _) = SyncCycle::new(BASE.to_string(), REPO.to_string());
    let (cycle, action) = cycle.step(Event::Failed { error: SyncError::Filesystem });
    assert_eq!(action, Action::Finish { outcome: Err(SyncError::Filesystem) });
    assert!(cycle.is_finished());

    let (cycle, _) = start_with(&[]);
    let (_, action) = cycle.step(Event::Failed { error: SyncError::Network });
    assert_eq!(action, Action::Finish { outcome: Err(SyncError::Network) });

    let (cycle, _) = start_with(&[]);
    let (_, action) = cycle.step(Event::Listing { body: b"not json".to_vec() });
    assert_eq!(action, Action::Finish { outcome: Err(SyncError::Network) });

    let (cycle, _) = start_with(&[]);
    let (cycle, action) = cycle.step(Event::Listing { body: listing(&["a-1-1-any.pkg.tar.zst"]) });
    assert_eq!(action, install("a-1-1-any.pkg.tar.zst"));
    let (_, action) = cycle.step(Event::Failed { error: SyncError::IndexBuild });
    assert_eq!(action, Action::Finish { outcome: Err(SyncError::IndexBuild) });
}

#[test]
fn unreadable_comparison_ends_the_cycle() {
    let (cycle, action) = start_with(&["a-1-1-any.pkg.tar.zst", "a-2-1-any.pkg.tar.zst"]);
    assert_eq!(
        action,
        Action::Compare {
            first: "a-2-1-any.pkg.tar.zst".to_string(),
            second: "a-1-1-any.pkg.tar.zst".to_string(),
        }
    );
    let (_, action) = cycle.step(Event::Compared { output: b"newer\n".to_vec() });
    assert_eq!(action, Action::Finish { outcome: Err(SyncError::Comparator) });

    let (cycle, _) = start_with(&["a-1-1-any.pkg.tar.zst", "a-2-1-any.pkg.tar.zst"]);
    let (_, action) = cycle.step(Event::Failed { error: SyncError::Comparator });
    assert_eq!(action, Action::Finish { outcome: Err(SyncError::Comparator) });
}

#[test]
fn events_out_of_turn_end_the_cycle() {
    let (cycle, _) = SyncCycle::new(BASE.to_string(), REPO.to_string());
    let (cycle, action) = cycle.step(Event::Installed);
    assert_eq!(action, Action::Finish { outcome: Err(SyncError::OutOfTurn) });
    let (cycle, action) = cycle.step(Event::LocalEntries { names: Vec::new() });
    assert_eq!(action, Action::Finish { outcome: Err(SyncError::OutOfTurn) });
    assert!(cycle.is_finished());

    let (cycle, _) = start_with(&[]);
    let (_, action) = cycle.step(Event::Removed);
    assert_eq!(action, Action::Finish { outcome: Err(SyncError::OutOfTurn) });
}

#[test]
fn local_reduction_decides_which_file_is_replaced() {
    let mut dir = names(&["a-1-1-any.pkg.tar.zst", "a-3-1-any.pkg.tar.zst"]);
    let (asked, outcome) = run(&mut dir, &listing(&["a-2-1-any.pkg.tar.zst"]));
    assert_eq!(outcome, Ok(()));
    assert_eq!(asked, Vec::new());
    let mut dir = names(&["a-1-1-any.pkg.tar.zst", "a-3-1-any.pkg.tar.zst"]);
    let (asked, outcome) = run(&mut dir, &listing(&["a-4-1-any.pkg.tar.zst"]));
    assert_eq!(outcome, Ok(()));
    assert_eq!(asked, vec![remove("a-3-1-any.pkg.tar.zst"), install("a-4-1-any.pkg.tar.zst")]);
    assert_eq!(dir, names(&["a-1-1-any.pkg.tar.zst", "a-4-1-any.pkg.tar.zst"]));
}

#[test]
fn every_failure_has_words() {
    assert_eq!(SyncError::Comparator.describe(), "the version comparison failed");
    assert_eq!(SyncError::Network.describe(), "the release listing or a download failed");
    assert_eq!(
        SyncError::Filesystem.describe(),
        "the repository directory could not be read or written"
    );
    assert_eq!(SyncError::IndexBuild.describe(), "the index builder could not be run");
    assert_eq!(SyncError::OutOfTurn.describe(), "an event came out of turn");
}

#[test]
fn file_without_the_dot_of_the_extension_is_left_alone() {
    let mut dir = names(&["pkgA-1.0-1-xpkg.tar.zst"]);
    let (asked, outcome) = run(&mut dir, &listing(&["pkgA-2.0-1-x86_64.pkg.tar.zst"]));
    assert_eq!(outcome, Ok(()));
    assert_eq!(asked, vec![install("pkgA-2.0-1-x86_64.pkg.tar.zst")]);
    assert_eq!(
        dir,
        names(&["pkgA-1.0-1-xpkg.tar.zst", "pkgA-2.0-1-x86_64.pkg.tar.zst"])
    );
}
