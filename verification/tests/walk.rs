use backup_engine::archive::archive_path;
use backup_engine::filter::get_filters;
use backup_engine::filter::probe_paths;
use backup_engine::model::Condition;
use backup_engine::model::Filter;
use backup_engine::model::Target;
use backup_engine::recovery::advance;
use backup_engine::recovery::Action;
use backup_engine::recovery::Outcome;
use backup_engine::recovery::Phase;
use backup_engine::recovery::Tally;
use backup_engine::walker::Walker;

fn strings(items: &[&str]) -> Vec<String> {
    items.iter().map(|s| s.to_string()).collect()
}

fn condition(text: &str) -> Condition {
    match text.strip_prefix('!') {
        Some(rest) => Condition { not: true, path: rest.to_string() },
        None => Condition { not: false, path: text.to_string() },
    }
}

fn filter(name: &str, scopes: &[&str], targets: &[&str], conditions: &[&str]) -> Filter {
    Filter {
        name: name.to_string(),
        scopes: strings(scopes),
        targets: strings(targets),
        conditions: conditions.iter().map(|c| condition(c)).collect(),
    }
}

/// A disk held in memory: each directory with the names it lists, and the
/// files.
struct Disk {
    directories: Vec<(String, Vec<String>)>,
    files: Vec<String>,
    unreadable: Vec<String>,
    unlistable: Vec<String>,
}

impl Disk {
    fn new(directories: &[(&str, &[&str])], files: &[&str]) -> Disk {
        Disk {
            directories: directories.iter().map(|(d, l)| (d.to_string(), strings(l))).collect(),
            files: strings(files),
            unreadable: Vec::new(),
            unlistable: Vec::new(),
        }
    }

    fn listing(&self, path: &str) -> Option<&Vec<String>> {
        self.directories.iter().find(|(d, _)| d == path).map(|(_, l)| l)
    }

    fn is_there(&self, path: &str) -> bool {
        self.listing(path).is_some() || self.files.iter().any(|f| f == path)
    }

    fn reversed(&self) -> Disk {
        Disk {
            directories: self
                .directories
                .iter()
                .map(|(d, l)| (d.clone(), l.iter().rev().cloned().collect()))
                .collect(),
            files: self.files.clone(),
            unreadable: self.unreadable.clone(),
            unlistable: self.unlistable.clone(),
        }
    }
}

/// Walks the target over the disk, ignoring every failure, and returns the
/// names stored in the archive with the tally.
fn back_up(target: &Target, filters: &[Filter], disk: &Disk) -> (Vec<String>, Tally) {
    let active = get_filters(&target.name, filters);
    let mut stored = Vec::new();
    let mut tally = Tally::new();
    for root in &target.paths {
        let mut walker = Walker::new(root.clone());
        while let Some(path) = walker.next() {
            if disk.unlistable.contains(&path) {
                continue;
            }
            if let Some(listing) = disk.listing(&path) {
                let children: Vec<String> =
                    listing.iter().map(|name| format!("{}/{}", path, name)).collect();
                let mut present = Vec::new();
                for child in &children {
                    for probe in probe_paths(&active, child) {
                        if disk.is_there(&probe) {
                            present.push(probe);
                        }
                    }
                }
                walker.expand(&children, &active, &present);
                continue;
            }
            let mut phase = Phase::Opening;
            while phase == Phase::Opening || phase == Phase::Appending {
                let outcome = if disk.unreadable.contains(&path) {
                    Outcome::Failed(Action::IgnoreOrContinue)
                } else {
                    Outcome::Succeeded
                };
                phase = advance(phase, outcome);
            }
            if phase == Phase::Archived {
                stored.push(archive_path(&target.name, &path, walker.root_length()).unwrap());
            }
            tally.record(phase);
        }
    }
    (stored, tally)
}

fn sorted(mut names: Vec<String>) -> Vec<String> {
    names.sort();
    names
}

fn docs() -> Target {
    Target { name: "docs".to_string(), paths: strings(&["/data/docs"]) }
}

#[test]
fn walker_begins_with_the_root_alone() {
    let mut walker = Walker::new("/data/docs".to_string());
    assert_eq!(walker.root_length(), 10);
    assert_eq!(walker.remaining(), 1);
    assert_eq!(walker.next(), Some("/data/docs".to_string()));
    assert_eq!(walker.remaining(), 0);
    assert_eq!(walker.next(), None);
    assert_eq!(walker.next(), None);
    assert_eq!(walker.root_length(), 10);
}

#[test]
fn walker_counts_the_root_in_characters() {
    let walker = Walker::new("/dönerß".to_string());
    assert_eq!(walker.root_length(), 7);
}

#[test]
fn walker_visits_the_child_stacked_last_first() {
    let mut walker = Walker::new("/r".to_string());
    assert_eq!(walker.next(), Some("/r".to_string()));
    walker.expand(&strings(&["/r/a", "/r/b", "/r/c"]), &Vec::new(), &Vec::new());
    assert_eq!(walker.remaining(), 3);
    assert_eq!(walker.next(), Some("/r/c".to_string()));
    walker.expand(&strings(&["/r/c/1", "/r/c/2"]), &Vec::new(), &Vec::new());
    assert_eq!(walker.next(), Some("/r/c/2".to_string()));
    assert_eq!(walker.next(), Some("/r/c/1".to_string()));
    assert_eq!(walker.next(), Some("/r/b".to_string()));
    assert_eq!(walker.next(), Some("/r/a".to_string()));
    assert_eq!(walker.next(), None);
}

#[test]
fn walker_leaves_excluded_children_off_the_stack() {
    let skip = filter("skip", &["t"], &["build", "cache"], &["!.keep"]);
    let active = vec![&skip];
    let mut walker = Walker::new("/r".to_string());
    walker.next();
    let listed = strings(&["/r/a", "/r/build", "/r/b", "/r/cache", "/r/c"]);
    walker.expand(&listed, &active, &Vec::new());
    assert_eq!(walker.remaining(), 3);
    assert_eq!(walker.next(), Some("/r/c".to_string()));
    assert_eq!(walker.next(), Some("/r/b".to_string()));
    assert_eq!(walker.next(), Some("/r/a".to_string()));
    assert_eq!(walker.next(), None);
}

#[test]
fn walker_keeps_every_child_when_the_marker_is_there() {
    let skip = filter("skip", &["t"], &["build"], &["!.keep"]);
    let active = vec![&skip];
    let mut walker = Walker::new("/r".to_string());
    walker.next();
    walker.expand(&strings(&["/r/a", "/r/build"]), &active, &strings(&["/r/.keep"]));
    assert_eq!(walker.next(), Some("/r/build".to_string()));
    assert_eq!(walker.next(), Some("/r/a".to_string()));
}

#[test]
fn walker_with_an_empty_listing_goes_on_with_what_is_pending() {
    let mut walker = Walker::new("/r".to_string());
    walker.next();
    walker.expand(&strings(&["/r/a", "/r/b"]), &Vec::new(), &Vec::new());
    assert_eq!(walker.next(), Some("/r/b".to_string()));
    walker.expand(&Vec::new(), &Vec::new(), &Vec::new());
    assert_eq!(walker.remaining(), 1);
    assert_eq!(walker.next(), Some("/r/a".to_string()));
}

#[test]
fn excluded_build_directory_leaves_only_the_readme() {
    let disk = Disk::new(
        &[("/data/docs", &["build", "README.md"]), ("/data/docs/build", &["out.txt"])],
        &["/data/docs/build/out.txt", "/data/docs/README.md"],
    );
    let filters = vec![filter("skip-build", &["docs"], &["build"], &["!.keep"])];
    let (stored, tally) = back_up(&docs(), &filters, &disk);
    assert_eq!(stored, strings(&["docs/README.md"]));
    assert_eq!(tally, Tally { completed: 1, skipped: 0 });
}

#[test]
fn excluded_build_directory_does_not_cut_off_its_later_siblings() {
    let disk = Disk::new(
        &[
            ("/data/docs", &["a.txt", "build", "z.txt"]),
            ("/data/docs/build", &["out.txt"]),
        ],
        &["/data/docs/a.txt", "/data/docs/build/out.txt", "/data/docs/z.txt"],
    );
    let filters = vec![filter("skip-build", &["docs"], &["build"], &["!.keep"])];
    let (stored, _) = back_up(&docs(), &filters, &disk);
    assert_eq!(sorted(stored), strings(&["docs/a.txt", "docs/z.txt"]));
    let (stored, _) = back_up(&docs(), &filters, &disk.reversed());
    assert_eq!(sorted(stored), strings(&["docs/a.txt", "docs/z.txt"]));
}

#[test]
fn marker_beside_the_build_directory_retains_it() {
    let disk = Disk::new(
        &[("/data/docs", &["build", "README.md", ".keep"]), ("/data/docs/build", &["out.txt"])],
        &["/data/docs/build/out.txt", "/data/docs/README.md", "/data/docs/.keep"],
    );
    let filters = vec![filter("skip-build", &["docs"], &["build"], &["!.keep"])];
    let (stored, tally) = back_up(&docs(), &filters, &disk);
    assert_eq!(
        sorted(stored),
        strings(&["docs/.keep", "docs/README.md", "docs/build/out.txt"])
    );
    assert_eq!(tally, Tally { completed: 3, skipped: 0 });
}

#[test]
fn marker_named_through_the_build_directory_retains_it() {
    let disk = Disk::new(
        &[("/data/docs", &["build", "README.md"]), ("/data/docs/build", &["out.txt", ".keep"])],
        &["/data/docs/build/out.txt", "/data/docs/README.md", "/data/docs/build/.keep"],
    );
    let filters = vec![filter("skip-build", &["docs"], &["build"], &["!build/.keep"])];
    let (stored, _) = back_up(&docs(), &filters, &disk);
    assert_eq!(
        sorted(stored),
        strings(&["docs/README.md", "docs/build/.keep", "docs/build/out.txt"])
    );
}

#[test]
fn nothing_beneath_an_excluded_directory_is_stored() {
    let disk = Disk::new(
        &[
            ("/data/docs", &["src", "build"]),
            ("/data/docs/src", &["main.rs", "build"]),
            ("/data/docs/src/build", &["x"]),
            ("/data/docs/build", &["deep", "out.txt", "src"]),
            ("/data/docs/build/deep", &["er"]),
            ("/data/docs/build/deep/er", &["file"]),
            ("/data/docs/build/src", &["main.rs"]),
        ],
        &[
            "/data/docs/src/main.rs",
            "/data/docs/src/build/x",
            "/data/docs/build/out.txt",
            "/data/docs/build/deep/er/file",
            "/data/docs/build/src/main.rs",
            "/data/docs/src/.keep",
        ],
    );
    let filters = vec![filter("skip-build", &["docs"], &["build"], &["!.keep"])];
    let (stored, _) = back_up(&docs(), &filters, &disk);
    assert_eq!(sorted(stored.clone()), strings(&["docs/src/build/x", "docs/src/main.rs"]));
    assert!(stored.iter().all(|name| !name.starts_with("docs/build/")));
}

#[test]
fn filters_of_other_targets_do_not_apply() {
    let disk = Disk::new(
        &[("/data/docs", &["build", "README.md"]), ("/data/docs/build", &["out.txt"])],
        &["/data/docs/build/out.txt", "/data/docs/README.md"],
    );
    let filters = vec![filter("skip-build", &["music"], &["build"], &["!.keep"])];
    let (stored, _) = back_up(&docs(), &filters, &disk);
    assert_eq!(sorted(stored), strings(&["docs/README.md", "docs/build/out.txt"]));
    let filters = vec![filter("skip-build", &["global"], &["build"], &["!.keep"])];
    let (stored, _) = back_up(&docs(), &filters, &disk);
    assert_eq!(stored, strings(&["docs/README.md"]));
}

#[test]
fn root_is_never_excluded() {
    let disk = Disk::new(&[("/data/docs", &["README.md"])], &["/data/docs/README.md"]);
    let filters = vec![filter("skip-docs", &["docs"], &["docs"], &["!.keep"])];
    let (stored, _) = back_up(&docs(), &filters, &disk);
    assert_eq!(stored, strings(&["docs/README.md"]));
}

#[test]
fn root_that_is_a_file_is_stored_under_the_target_name() {
    let disk = Disk::new(&[], &["/data/notes.txt"]);
    let target = Target { name: "notes".to_string(), paths: strings(&["/data/notes.txt"]) };
    let (stored, _) = back_up(&target, &Vec::new(), &disk);
    assert_eq!(stored, strings(&["notes/notes.txt"]));
}

#[test]
fn several_roots_land_under_one_target_name() {
    let disk = Disk::new(
        &[("/a/one", &["x", "sub"]), ("/a/one/sub", &["y"]), ("/b/two", &["z"])],
        &["/a/one/x", "/a/one/sub/y", "/b/two/z", "/c/three.txt"],
    );
    let target =
        Target { name: "t".to_string(), paths: strings(&["/a/one", "/b/two", "/c/three.txt"]) };
    let (stored, tally) = back_up(&target, &Vec::new(), &disk);
    assert_eq!(sorted(stored), strings(&["t/sub/y", "t/three.txt", "t/x", "t/z"]));
    assert_eq!(tally.completed, 4);
}

#[test]
fn ignored_failures_are_counted_as_skipped() {
    let mut disk = Disk::new(
        &[("/data/docs", &["a", "b", "c"])],
        &["/data/docs/a", "/data/docs/b", "/data/docs/c"],
    );
    disk.unreadable = strings(&["/data/docs/b"]);
    let (stored, tally) = back_up(&docs(), &Vec::new(), &disk);
    assert_eq!(sorted(stored), strings(&["docs/a", "docs/c"]));
    assert_eq!(tally, Tally { completed: 2, skipped: 1 });
}

#[test]
fn two_runs_store_the_same_names_whatever_the_listing_order() {
    let mut disk = Disk::new(
        &[
            ("/data/docs", &["src", "build", "README.md", "cache"]),
            ("/data/docs/src", &["main.rs", "lib.rs", "gen"]),
            ("/data/docs/src/gen", &["a", "b"]),
            ("/data/docs/build", &["out.txt"]),
            ("/data/docs/cache", &["blob", "CACHEDIR.TAG"]),
        ],
        &[
            "/data/docs/README.md",
            "/data/docs/src/main.rs",
            "/data/docs/src/lib.rs",
            "/data/docs/src/gen/a",
            "/data/docs/src/gen/b",
            "/data/docs/build/out.txt",
            "/data/docs/cache/blob",
            "/data/docs/cache/CACHEDIR.TAG",
            "/data/docs/src/.generated",
        ],
    );
    disk.unreadable = strings(&["/data/docs/src/lib.rs"]);
    let filters = vec![
        filter("skip-build", &["docs"], &["build"], &["!.keep"]),
        filter("skip-gen", &["global"], &["gen"], &[".generated"]),
        filter("unused", &["music"], &["src"], &["!nothing"]),
    ];
    let (first, first_tally) = back_up(&docs(), &filters, &disk);
    let (again, _) = back_up(&docs(), &filters, &disk);
    let (other, other_tally) = back_up(&docs(), &filters, &disk.reversed());
    assert_eq!(first, again);
    assert_eq!(sorted(first.clone()), sorted(other));
    assert_eq!(
        sorted(first),
        strings(&[
            "docs/README.md",
            "docs/cache/CACHEDIR.TAG",
            "docs/cache/blob",
            "docs/src/main.rs"
        ])
    );
    assert_eq!(first_tally, other_tally);
    assert_eq!(first_tally, Tally { completed: 4, skipped: 1 });
}

#[test]
fn directory_that_cannot_be_listed_is_abandoned_and_the_walk_goes_on() {
    let mut disk = Disk::new(
        &[
            ("/data/docs", &["a", "locked", "z"]),
            ("/data/docs/locked", &["secret", "inner"]),
            ("/data/docs/locked/inner", &["deep"]),
        ],
        &[
            "/data/docs/a",
            "/data/docs/z",
            "/data/docs/locked/secret",
            "/data/docs/locked/inner/deep",
        ],
    );
    disk.unlistable = strings(&["/data/docs/locked"]);
    let (stored, tally) = back_up(&docs(), &Vec::new(), &disk);
    assert_eq!(sorted(stored), strings(&["docs/a", "docs/z"]));
    assert_eq!(tally, Tally { completed: 2, skipped: 0 });
}

#[test]
fn root_that_cannot_be_listed_stores_nothing() {
    let mut disk = Disk::new(&[("/data/docs", &["a"])], &["/data/docs/a"]);
    disk.unlistable = strings(&["/data/docs"]);
    let (stored, tally) = back_up(&docs(), &Vec::new(), &disk);
    assert!(stored.is_empty());
    assert_eq!(tally, Tally { completed: 0, skipped: 0 });
}
