use std::collections::HashMap;

use dirsize::probe::{process_directory, size_fits, Entry, ErrorKind, Stat};
use dirsize::results::ResultMap;
use dirsize::scheduler::Scheduler;

const DEVICE: u64 = 7;

fn file(path: &str, len: u64) -> Entry {
    Entry {
        path: path.to_string(),
        is_symlink: false,
        stat: Some(Stat { is_dir: false, device: DEVICE, len }),
    }
}

fn dir_on(path: &str, device: u64) -> Entry {
    Entry {
        path: path.to_string(),
        is_symlink: false,
        stat: Some(Stat { is_dir: true, device, len: 4096 }),
    }
}

fn dir(path: &str) -> Entry {
    dir_on(path, DEVICE)
}

fn symlink(path: &str, len: u64) -> Entry {
    Entry {
        path: path.to_string(),
        is_symlink: true,
        stat: Some(Stat { is_dir: true, device: DEVICE, len }),
    }
}

fn unreadable(path: &str) -> Entry {
    Entry { path: path.to_string(), is_symlink: false, stat: None }
}

/// Runs a whole traversal over listings held in memory. The probes complete
/// oldest first, or newest first.
fn run(
    root: &str,
    blacklist: &[&str],
    world: &HashMap<String, Vec<Entry>>,
    newest_first: bool,
) -> (ResultMap, usize, Vec<String>) {
    let blacklist: Vec<String> = blacklist.iter().map(|p| p.to_string()).collect();
    let (mut scheduler, first) =
        Scheduler::start(root.to_string(), Some(DEVICE), &blacklist).unwrap();
    assert_eq!(scheduler.pending(), 1);
    let mut queue = vec![first];
    let mut submitted = 1;
    let mut probed = Vec::new();
    while !scheduler.is_done() {
        let request = if newest_first { queue.pop().unwrap() } else { queue.remove(0) };
        assert_eq!(request.device, DEVICE);
        let listing = match world.get(&request.path) {
            Some(entries) => Ok(entries.clone()),
            None => Err(ErrorKind::ListFailed),
        };
        if let Ok(entries) = &listing {
            assert!(size_fits(entries, request.device));
        }
        let result = process_directory(&request.path, request.device, &listing);
        probed.push(request.path.clone());
        let next = scheduler.complete(result);
        submitted += next.len();
        assert_eq!(scheduler.pending() as usize, submitted - probed.len());
        queue.extend(next);
    }
    assert!(queue.is_empty());
    (scheduler.into_results(), submitted, probed)
}

fn sorted_entries(results: &ResultMap) -> Vec<(String, u64)> {
    let mut entries = results.entries();
    entries.sort();
    entries
}

fn fixture() -> HashMap<String, Vec<Entry>> {
    let mut world = HashMap::new();
    world.insert(
        "/tmp/fixture".to_string(),
        vec![file("/tmp/fixture/a", 100), file("/tmp/fixture/b", 200), dir("/tmp/fixture/sub")],
    );
    world.insert("/tmp/fixture/sub".to_string(), vec![file("/tmp/fixture/sub/c", 300)]);
    world
}

fn wide_tree() -> HashMap<String, Vec<Entry>> {
    let mut world = HashMap::new();
    world.insert(
        "/r".to_string(),
        vec![dir("/r/a"), file("/r/f", 10), dir("/r/b"), dir("/r/c"), symlink("/r/l", 999)],
    );
    world.insert("/r/a".to_string(), vec![dir("/r/a/x"), file("/r/a/g", 20), dir("/r/a/y")]);
    world.insert("/r/a/x".to_string(), vec![file("/r/a/x/h", 30)]);
    world.insert("/r/a/y".to_string(), vec![]);
    world.insert("/r/b".to_string(), vec![file("/r/b/i", 40), file("/r/b/j", 50)]);
    // "/r/c" cannot be listed.
    world
}

#[test]
fn fixture_end_to_end() {
    let (results, submitted, probed) = run("/tmp/fixture", &[], &fixture(), false);
    assert_eq!(results.get("/tmp/fixture"), Some(300));
    assert_eq!(results.get("/tmp/fixture/sub"), Some(300));
    assert_eq!(results.len(), 2);
    assert_eq!(results.total(), Some(600));
    assert_eq!(submitted, 2);
    assert_eq!(probed.len(), 2);
}

#[test]
fn keys_are_the_directories_that_could_be_listed() {
    let (results, _, _) = run("/r", &[], &wide_tree(), false);
    let keys: Vec<String> = sorted_entries(&results).into_iter().map(|(path, _)| path).collect();
    assert_eq!(keys, vec!["/r", "/r/a", "/r/a/x", "/r/a/y", "/r/b"]);
}

#[test]
fn root_size_leaves_out_symlink_and_subdirectory() {
    let mut world = HashMap::new();
    world.insert(
        "/d".to_string(),
        vec![
            file("/d/one", 5),
            symlink("/d/link", 1000),
            dir("/d/sub"),
            file("/d/two", 7),
            unreadable("/d/gone"),
        ],
    );
    world.insert("/d/sub".to_string(), vec![file("/d/sub/deep", 11)]);
    let (results, _, _) = run("/d", &[], &world, false);
    assert_eq!(results.get("/d"), Some(12));
    assert_eq!(results.get("/d/sub"), Some(11));
}

#[test]
fn own_sizes_add_up_to_all_files() {
    let (results, _, _) = run("/r", &[], &wide_tree(), true);
    assert_eq!(results.get("/r"), Some(10));
    assert_eq!(results.get("/r/a"), Some(20));
    assert_eq!(results.get("/r/a/x"), Some(30));
    assert_eq!(results.get("/r/a/y"), Some(0));
    assert_eq!(results.get("/r/b"), Some(90));
    assert_eq!(results.total(), Some(10 + 20 + 30 + 40 + 50));
}

#[test]
fn directory_on_another_device_is_not_probed() {
    let mut world = HashMap::new();
    world.insert("/m".to_string(), vec![file("/m/f", 1), dir_on("/m/mnt", DEVICE + 1)]);
    world.insert("/m/mnt".to_string(), vec![file("/m/mnt/big", 1_000_000)]);
    let (results, submitted, probed) = run("/m", &[], &world, false);
    assert_eq!(probed, vec!["/m"]);
    assert_eq!(submitted, 1);
    assert!(!results.contains_key("/m/mnt"));
    // The mount point itself counts as an entry of its parent.
    assert_eq!(results.get("/m"), Some(1 + 4096));
    assert_eq!(results.len(), 1);
}

#[test]
fn blacklisted_directory_is_not_probed() {
    let mut world = HashMap::new();
    world.insert("/".to_string(), vec![dir("/proc"), dir("/home"), dir("/sys")]);
    world.insert("/proc".to_string(), vec![file("/proc/kcore", 1 << 40), dir("/proc/1")]);
    world.insert("/proc/1".to_string(), vec![file("/proc/1/mem", 5)]);
    world.insert("/sys".to_string(), vec![file("/sys/x", 9)]);
    world.insert("/home".to_string(), vec![file("/home/notes", 42)]);
    let (results, submitted, probed) = run("/", &["/proc", "/sys"], &world, false);
    assert_eq!(probed, vec!["/", "/home"]);
    assert_eq!(submitted, 2);
    assert!(!results.contains_key("/proc"));
    assert!(!results.contains_key("/proc/1"));
    assert!(!results.contains_key("/sys"));
    assert_eq!(results.get("/home"), Some(42));
    assert_eq!(results.get("/"), Some(0));
}

#[test]
fn blacklisted_root_is_still_probed() {
    let mut world = HashMap::new();
    world.insert("/proc".to_string(), vec![file("/proc/version", 3)]);
    let (results, _, probed) = run("/proc", &["/proc"], &world, false);
    assert_eq!(probed, vec!["/proc"]);
    assert_eq!(results.get("/proc"), Some(3));
}

#[test]
fn failed_directory_is_left_out_and_sibling_kept() {
    let mut world = HashMap::new();
    world.insert("/p".to_string(), vec![dir("/p/denied"), dir("/p/open")]);
    world.insert("/p/open".to_string(), vec![file("/p/open/f", 8)]);
    let (results, submitted, probed) = run("/p", &[], &world, false);
    assert_eq!(probed, vec!["/p", "/p/denied", "/p/open"]);
    assert_eq!(submitted, 3);
    assert!(!results.contains_key("/p/denied"));
    assert_eq!(results.get("/p/open"), Some(8));
    assert_eq!(results.len(), 2);
}

#[test]
fn order_of_completion_does_not_change_the_result() {
    let world = wide_tree();
    let (oldest_first, submitted_a, probed_a) = run("/r", &[], &world, false);
    let (newest_first, submitted_b, probed_b) = run("/r", &[], &world, true);
    assert_eq!(sorted_entries(&oldest_first), sorted_entries(&newest_first));
    assert_ne!(probed_a, probed_b);
    // One submission and one completion for each of the six directories,
    // the one that cannot be listed included.
    assert_eq!(submitted_a, 6);
    assert_eq!(submitted_b, 6);
    assert_eq!(probed_a.len(), 6);
    assert_eq!(probed_b.len(), 6);
}

#[test]
fn completion_records_and_submits() {
    let blacklist = vec!["/s/skip".to_string()];
    let (mut scheduler, first) =
        Scheduler::start("/s".to_string(), Some(3), &blacklist).unwrap();
    assert_eq!(first.path, "/s");
    assert_eq!(first.device, 3);
    assert_eq!(scheduler.device(), 3);
    assert!(scheduler.is_blacklisted("/s/skip"));
    assert!(!scheduler.is_blacklisted("/s"));
    assert!(!scheduler.is_done());
    let listing = Ok(vec![
        dir_on("/s/one", 3),
        dir_on("/s/skip", 3),
        Entry {
            path: "/s/file".to_string(),
            is_symlink: false,
            stat: Some(Stat { is_dir: false, device: 3, len: 77 }),
        },
        dir_on("/s/two", 3),
    ]);
    let next = scheduler.complete(process_directory(&first.path, 3, &listing));
    let paths: Vec<&str> = next.iter().map(|r| r.path.as_str()).collect();
    assert_eq!(paths, vec!["/s/one", "/s/two"]);
    assert!(next.iter().all(|r| r.device == 3));
    assert_eq!(scheduler.pending(), 2);
    assert_eq!(scheduler.results().get("/s"), Some(77));

    let failed = process_directory(&next[0].path, 3, &Err(ErrorKind::NotADirectory));
    let none = scheduler.complete(failed);
    assert!(none.is_empty());
    assert_eq!(scheduler.pending(), 1);
    assert_eq!(scheduler.results().len(), 1);

    let empty = process_directory(&next[1].path, 3, &Ok(vec![]));
    assert!(scheduler.complete(empty).is_empty());
    assert!(scheduler.is_done());
    let results = scheduler.into_results();
    assert_eq!(results.get("/s/two"), Some(0));
    assert_eq!(results.get("/s/one"), None);
}

#[test]
fn missing_root_does_not_start() {
    let started = Scheduler::start("/nowhere".to_string(), None, &vec!["/proc".to_string()]);
    match started {
        Ok(_) => panic!("a traversal began without a root"),
        Err(error) => {
            assert_eq!(error.path, "/nowhere");
            assert_eq!(error.kind, ErrorKind::RootNotFound);
        }
    }
}
