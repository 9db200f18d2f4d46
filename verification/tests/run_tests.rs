//! Whole-run scenarios over an in-memory directory, driven by the library's
//! decision functions: the skip check, the commit decision, and the derived
//! names.

use std::collections::HashMap;

use podsync::episode::Episode;
use podsync::names::derive_names;
use podsync::pipeline::{plan_commit, should_fetch, CommitAction};

fn ep(title: &str, ts: i64, url: &str) -> Episode {
    Episode {
        url: url.as_bytes().to_vec(),
        title: title.as_bytes().to_vec(),
        published_at: ts,
        raw_xml: Vec::new(),
    }
}

/// Processes the episodes in the given completion order against `dir`,
/// asking the library at each step whether to fetch and what to commit.
/// Returns how many fetches were performed.
fn run(
    episodes: &[Episode],
    fetch: &HashMap<Vec<u8>, Vec<u8>>,
    order: &[usize],
    dir: &mut HashMap<Vec<u8>, Vec<u8>>,
) -> usize {
    let mut fetches = 0;
    for &i in order {
        let (_, fin) = derive_names(&episodes[i]);
        if should_fetch(false, dir.contains_key(&fin)) {
            fetches += 1;
            let data = fetch.get(&episodes[i].url).cloned().unwrap_or_default();
            if plan_commit(data.len(), false, dir.contains_key(&fin)) == CommitAction::Write {
                dir.insert(fin, data);
            }
        }
    }
    fetches
}

#[test]
fn completion_order_does_not_change_the_file_set() {
    let episodes = vec![
        ep("One", 1, "u1"),
        ep("Two", 2, "u2"),
        ep("Three", 3, "u3"),
    ];
    let mut fetch: HashMap<Vec<u8>, Vec<u8>> = HashMap::new();
    fetch.insert(b"u1".to_vec(), b"data-one".to_vec());
    // u2 fails to fetch; u3 succeeds
    fetch.insert(b"u3".to_vec(), b"data-three".to_vec());

    let mut dir_a: HashMap<Vec<u8>, Vec<u8>> = HashMap::new();
    let mut dir_b: HashMap<Vec<u8>, Vec<u8>> = HashMap::new();
    run(&episodes, &fetch, &[0, 1, 2], &mut dir_a);
    run(&episodes, &fetch, &[2, 1, 0], &mut dir_b);
    assert_eq!(dir_a, dir_b);
    assert_eq!(dir_a.len(), 2);
    assert!(dir_a.contains_key(&b"1-One.mp3".to_vec()));
    assert!(dir_a.contains_key(&b"3-Three.mp3".to_vec()));
}

#[test]
fn a_second_run_changes_nothing_and_refetches_nothing_existing() {
    let episodes = vec![ep("One", 1, "u1"), ep("Two", 2, "u2")];
    let mut fetch: HashMap<Vec<u8>, Vec<u8>> = HashMap::new();
    fetch.insert(b"u1".to_vec(), b"data-one".to_vec());
    fetch.insert(b"u2".to_vec(), b"data-two".to_vec());

    let mut dir: HashMap<Vec<u8>, Vec<u8>> = HashMap::new();
    let first = run(&episodes, &fetch, &[0, 1], &mut dir);
    assert_eq!(first, 2);
    let snapshot = dir.clone();
    let second = run(&episodes, &fetch, &[0, 1], &mut dir);
    assert_eq!(second, 0);
    assert_eq!(dir, snapshot);
}

/// The write-then-rename protocol against an in-memory directory. A failed
/// write leaves a prefix under the temporary name and never renames.
fn commit_sim(
    dir: &mut HashMap<Vec<u8>, Vec<u8>>,
    temp: &[u8],
    fin: &[u8],
    data: &[u8],
    fail_after: Option<usize>,
) {
    match fail_after {
        Some(k) => {
            dir.insert(temp.to_vec(), data[..k].to_vec());
        }
        None => {
            dir.insert(temp.to_vec(), data.to_vec());
            let complete = dir.remove(temp).unwrap();
            dir.insert(fin.to_vec(), complete);
        }
    }
}

#[test]
fn a_failed_write_never_touches_the_final_name() {
    let episode = ep("Hello", 10, "u");
    let (temp, fin) = derive_names(&episode);
    let data = b"full payload".to_vec();

    // final name absent before: stays absent after a mid-write failure
    let mut dir: HashMap<Vec<u8>, Vec<u8>> = HashMap::new();
    commit_sim(&mut dir, &temp, &fin, &data, Some(4));
    assert!(!dir.contains_key(&fin));
    assert_eq!(dir.get(&temp), Some(&b"full".to_vec()));

    // final name present before: keeps its exact old content
    let mut dir2: HashMap<Vec<u8>, Vec<u8>> = HashMap::new();
    dir2.insert(fin.clone(), b"old content".to_vec());
    commit_sim(&mut dir2, &temp, &fin, &data, Some(7));
    assert_eq!(dir2.get(&fin), Some(&b"old content".to_vec()));

    // a complete write commits, and the temporary name is gone
    let mut dir3: HashMap<Vec<u8>, Vec<u8>> = HashMap::new();
    commit_sim(&mut dir3, &temp, &fin, &data, None);
    assert_eq!(dir3.get(&fin), Some(&data));
    assert!(!dir3.contains_key(&temp));
}
