use backup_engine::prune::Pruner;

/// Feeds the entries to a fresh pruner, each with the word on whether it is
/// an excluded directory, and returns those that are kept.
fn stream(entries: &[(&str, bool)]) -> Vec<String> {
    let mut pruner = Pruner::new();
    let mut kept = Vec::new();
    for (entry, excluded_directory) in entries {
        if pruner.observe(entry, *excluded_directory) {
            kept.push(entry.to_string());
        }
    }
    kept
}

fn strings(items: &[&str]) -> Vec<String> {
    items.iter().map(|s| s.to_string()).collect()
}

#[test]
fn pruner_turns_away_what_lies_beneath_an_excluded_directory() {
    let mut pruner = Pruner::new();
    assert!(pruner.excluded.is_none());
    assert!(pruner.observe("/r", false));
    assert!(pruner.observe("/r/a.txt", false));
    assert!(!pruner.observe("/r/build", true));
    assert_eq!(pruner.excluded, Some("/r/build".to_string()));
    assert!(!pruner.observe("/r/build/out.txt", false));
    assert!(!pruner.observe("/r/build/deep/er.txt", false));
    assert!(pruner.observe("/r/builder", false));
    assert!(pruner.observe("/r/c.txt", false));
    assert_eq!(pruner.excluded, Some("/r/build".to_string()));
}

#[test]
fn excluded_directory_beneath_an_excluded_directory_does_not_take_its_place() {
    let mut pruner = Pruner::new();
    assert!(!pruner.observe("/r/build", true));
    assert!(!pruner.observe("/r/build/sub", true));
    assert_eq!(pruner.excluded, Some("/r/build".to_string()));
    assert!(!pruner.observe("/r/build/sub/a", false));
    assert!(!pruner.observe("/r/build/other", false));
    assert!(!pruner.observe("/r/build/z", true));
    assert!(!pruner.observe("/r/build/zz.txt", false));
    assert_eq!(pruner.excluded, Some("/r/build".to_string()));
    assert!(pruner.observe("/r/c.txt", false));
}

#[test]
fn nothing_beneath_an_excluded_directory_is_kept_whatever_it_holds() {
    let kept = stream(&[
        ("/r", false),
        ("/r/a", false),
        ("/r/a/1.txt", false),
        ("/r/build", true),
        ("/r/build/0.txt", false),
        ("/r/build/build", true),
        ("/r/build/build/deep.txt", false),
        ("/r/build/cache", true),
        ("/r/build/cache/blob", false),
        ("/r/build/out.txt", false),
        ("/r/build/z", false),
        ("/r/build/z/last.txt", false),
        ("/r/c", false),
        ("/r/c/build", true),
        ("/r/c/build/x", false),
        ("/r/c/d.txt", false),
    ]);
    assert_eq!(kept, strings(&["/r", "/r/a", "/r/a/1.txt", "/r/c", "/r/c/d.txt"]));
    assert!(kept.iter().all(|entry| !entry.starts_with("/r/build")));
}

#[test]
fn pruner_remembers_a_later_excluded_directory_once_the_first_is_left() {
    let mut pruner = Pruner::new();
    assert!(!pruner.observe("/r/a", true));
    assert!(!pruner.observe("/r/a/x", false));
    assert!(!pruner.observe("/r/b", true));
    assert_eq!(pruner.excluded, Some("/r/b".to_string()));
    assert!(!pruner.observe("/r/b/y", false));
    assert!(pruner.observe("/r/c", false));
    assert_eq!(pruner.excluded, Some("/r/b".to_string()));
}

#[test]
fn excluded_directory_itself_is_not_kept() {
    assert!(stream(&[("/r/build", true)]).is_empty());
    assert_eq!(stream(&[("/r/build", false)]), strings(&["/r/build"]));
}

#[test]
fn covers_tells_what_lies_beneath_the_remembered_directory() {
    let mut pruner = Pruner::new();
    assert!(!pruner.covers("/r/build"));
    assert!(!pruner.covers(""));
    pruner.observe("/r/build", true);
    assert!(pruner.covers("/r/build"));
    assert!(pruner.covers("/r/build/deep/er"));
    assert!(!pruner.covers("/r/builder"));
    assert!(!pruner.covers("/r"));
    assert_eq!(pruner.excluded, Some("/r/build".to_string()));
}
