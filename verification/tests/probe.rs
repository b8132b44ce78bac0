use dirsize::probe::{
    classify_child, entry_size, process_directory, size_fits, subdirectories, Entry, ErrorKind,
    Stat,
};

fn entry(path: &str, is_symlink: bool, stat: Option<(bool, u64, u64)>) -> Entry {
    Entry {
        path: path.to_string(),
        is_symlink,
        stat: stat.map(|(is_dir, device, len)| Stat { is_dir, device, len }),
    }
}

#[test]
fn classification_of_entries() {
    assert!(classify_child(&entry("d", false, Some((true, 1, 4096))), 1));
    assert!(!classify_child(&entry("d", false, Some((true, 2, 4096))), 1));
    assert!(!classify_child(&entry("l", true, Some((true, 1, 4096))), 1));
    assert!(!classify_child(&entry("f", false, Some((false, 1, 10))), 1));
    assert!(!classify_child(&entry("x", false, None), 1));
}

#[test]
fn size_of_entries() {
    assert_eq!(entry_size(&entry("f", false, Some((false, 1, 10))), 1), 10);
    assert_eq!(entry_size(&entry("f", false, Some((false, 9, 10))), 1), 10);
    assert_eq!(entry_size(&entry("d", false, Some((true, 1, 4096))), 1), 0);
    assert_eq!(entry_size(&entry("d", false, Some((true, 2, 4096))), 1), 4096);
    assert_eq!(entry_size(&entry("l", true, Some((false, 1, 10))), 1), 0);
    assert_eq!(entry_size(&entry("x", false, None), 1), 0);
}

#[test]
fn summary_of_a_listing() {
    let listing = Ok(vec![
        entry("/d/z", false, Some((true, 1, 4096))),
        entry("/d/f", false, Some((false, 1, 100))),
        entry("/d/l", true, Some((false, 1, 50))),
        entry("/d/a", false, Some((true, 1, 4096))),
        entry("/d/other", false, Some((true, 2, 64))),
        entry("/d/gone", false, None),
        entry("/d/g", false, Some((false, 1, 23))),
    ]);
    let summary = process_directory(&"/d".to_string(), 1, &listing).unwrap();
    assert_eq!(summary.path, "/d");
    assert_eq!(summary.size, 100 + 64 + 23);
    assert_eq!(summary.paths, vec!["/d/z", "/d/a"]);
}

#[test]
fn summary_of_an_empty_listing() {
    let summary = process_directory(&"/e".to_string(), 1, &Ok(vec![])).unwrap();
    assert_eq!(summary.path, "/e");
    assert_eq!(summary.size, 0);
    assert!(summary.paths.is_empty());
}

#[test]
fn failed_listing_fails_the_probe() {
    let error = process_directory(&"/no".to_string(), 1, &Err(ErrorKind::ListFailed)).unwrap_err();
    assert_eq!(error.path, "/no");
    assert_eq!(error.kind, ErrorKind::ListFailed);
    let error =
        process_directory(&"/file".to_string(), 1, &Err(ErrorKind::NotADirectory)).unwrap_err();
    assert_eq!(error.path, "/file");
    assert_eq!(error.kind, ErrorKind::NotADirectory);
}

#[test]
fn size_that_fits_and_size_that_does_not() {
    let big = vec![
        entry("a", false, Some((false, 1, u64::MAX - 1))),
        entry("b", false, Some((false, 1, 1))),
    ];
    assert!(size_fits(&big, 1));
    let summary = process_directory(&"/big".to_string(), 1, &Ok(big)).unwrap();
    assert_eq!(summary.size, u64::MAX);

    let too_big = vec![
        entry("a", false, Some((false, 1, u64::MAX))),
        entry("l", true, Some((false, 1, 5))),
        entry("b", false, Some((false, 1, 1))),
    ];
    assert!(!size_fits(&too_big, 1));
    // A link of any length does not count toward the limit.
    let with_link = vec![
        entry("a", false, Some((false, 1, u64::MAX))),
        entry("l", true, Some((false, 1, 5))),
    ];
    assert!(size_fits(&with_link, 1));
    assert!(size_fits(&vec![], 1));
}

#[test]
fn subdirectories_of_a_listing() {
    let listing = vec![
        entry("/d/z", false, Some((true, 1, 4096))),
        entry("/d/f", false, Some((false, 1, 100))),
        entry("/d/l", true, Some((true, 1, 50))),
        entry("/d/a", false, Some((true, 1, 4096))),
        entry("/d/other", false, Some((true, 2, 64))),
        entry("/d/gone", false, None),
    ];
    assert_eq!(subdirectories(&listing, 1), vec!["/d/z", "/d/a"]);
    assert_eq!(subdirectories(&listing, 2), vec!["/d/other"]);
    assert!(subdirectories(&listing, 3).is_empty());
    assert!(subdirectories(&vec![], 1).is_empty());
}

#[test]
fn no_subdirectory_on_a_foreign_device() {
    let listing = Ok(vec![
        entry("/d/sub", false, Some((true, 2, 4096))),
        entry("/d/f", false, Some((false, 2, 10))),
        entry("/d/deep", false, Some((true, 3, 4096))),
    ]);
    let summary = process_directory(&"/d".to_string(), 1, &listing).unwrap();
    assert!(summary.paths.is_empty());
    assert_eq!(summary.size, 4096 + 10 + 4096);
}
