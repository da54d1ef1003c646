use cef_finder::path_index::{group_candidates, Candidate, PathGroups};
use cef_finder::paths::{parent_directory, path_less};
use cef_finder::registry::{Measurement, Registry};
use cef_finder::size_format::format_size;
use std::collections::BTreeMap;

fn file(p: &str) -> Candidate {
    Candidate { path: p.to_string(), is_file: true }
}

fn not_file(p: &str) -> Candidate {
    Candidate { path: p.to_string(), is_file: false }
}

fn groups_as_map(g: &PathGroups) -> BTreeMap<String, Vec<String>> {
    let mut m = BTreeMap::new();
    for i in 0..g.len() {
        let mut fs = g.files_at(i).clone();
        fs.sort();
        m.insert(g.directory_at(i).clone(), fs);
    }
    m
}

fn sorted_members(r: &Registry, i: usize) -> Vec<String> {
    let mut fs = r.installations()[i].member_files().clone();
    fs.sort();
    fs
}

/// Runs the searches whose results are `searches`, measuring with `sizes`, and counts
/// the measurements asked for per directory.
fn run(searches: &[Vec<Candidate>], sizes: &BTreeMap<&str, Option<u128>>) -> (Registry, BTreeMap<String, usize>) {
    let mut r = Registry::new();
    let mut calls: BTreeMap<String, usize> = BTreeMap::new();
    for cs in searches {
        let g = group_candidates(cs);
        let mut ms = Vec::new();
        for d in r.pending_measurements(&g) {
            *calls.entry(d.clone()).or_insert(0) += 1;
            let size = sizes.get(d.as_str()).copied().unwrap_or(Some(0));
            ms.push(Measurement { directory: d, size });
        }
        r.merge(&g, &ms);
    }
    (r, calls)
}

#[test]
fn parent_of_paths() {
    assert_eq!(parent_directory("/opt/app1/a.bin"), Some("/opt/app1".to_string()));
    assert_eq!(parent_directory("/a.bin"), Some("/".to_string()));
    assert_eq!(parent_directory("a.bin"), None);
    assert_eq!(parent_directory("/opt/é/ü.pak"), Some("/opt/é".to_string()));
}

#[test]
fn order_of_paths() {
    assert!(path_less("/opt/a", "/opt/b"));
    assert!(path_less("/opt", "/opt/a"));
    assert!(!path_less("/opt/a", "/opt/a"));
    assert!(!path_less("/opt/b", "/opt/a"));
    assert!(path_less("/opt/Z", "/opt/a"));
}

#[test]
fn grouping_by_parent() {
    let cs = vec![
        file("/opt/app1/a.bin"),
        file("/opt/app2/a.bin"),
        file("/opt/app1/b.bin"),
        file("/opt/app1/a.bin"),
    ];
    let g = group_candidates(&cs);
    let m = groups_as_map(&g);
    assert_eq!(m.len(), 2);
    assert_eq!(m["/opt/app1"], vec!["/opt/app1/a.bin".to_string(), "/opt/app1/b.bin".to_string()]);
    assert_eq!(m["/opt/app2"], vec!["/opt/app2/a.bin".to_string()]);
}

#[test]
fn non_files_are_left_out() {
    let cs = vec![
        not_file("/opt/gone/a.bin"),
        not_file("/opt/app1/a.bin"),
        file("/opt/app1/b.bin"),
        file("relative.bin"),
    ];
    let g = group_candidates(&cs);
    let m = groups_as_map(&g);
    assert_eq!(m.len(), 1);
    assert_eq!(m["/opt/app1"], vec!["/opt/app1/b.bin".to_string()]);
    let (r, calls) = run(&[cs], &BTreeMap::new());
    assert_eq!(r.count(), 1);
    assert!(!calls.contains_key("/opt/gone"));
}

#[test]
fn empty_search() {
    let (r, calls) = run(&[vec![], vec![not_file("/x/a.bin")]], &BTreeMap::new());
    assert_eq!(r.count(), 0);
    assert_eq!(r.total_size(), Some(0));
    assert!(calls.is_empty());
}

#[test]
fn end_to_end_single_installation() {
    let searches = vec![vec![file("/opt/app1/a.bin")], vec![file("/opt/app1/b.pak")]];
    let sizes = BTreeMap::from([("/opt/app1", Some(2048u128))]);
    let (r, _) = run(&searches, &sizes);
    assert_eq!(r.count(), 1);
    let inst = &r.installations()[0];
    assert_eq!(inst.directory(), "/opt/app1");
    assert_eq!(inst.size(), 2048);
    assert_eq!(sorted_members(&r, 0), vec!["/opt/app1/a.bin".to_string(), "/opt/app1/b.pak".to_string()]);
    assert_eq!(format_size(r.total_size().unwrap()), "2.00MB");
}

#[test]
fn union_across_searches() {
    let searches = vec![
        vec![file("/opt/b/x.pak"), file("/opt/a/x.pak")],
        vec![file("/opt/a/y.so")],
        vec![file("/opt/a/x.pak"), file("/opt/c/z.pak")],
    ];
    let sizes = BTreeMap::from([("/opt/a", Some(10u128)), ("/opt/b", Some(20)), ("/opt/c", Some(30))]);
    let (r, _) = run(&searches, &sizes);
    assert_eq!(r.count(), 3);
    let dirs: Vec<String> = r.installations().iter().map(|i| i.directory().clone()).collect();
    assert_eq!(dirs, vec!["/opt/a".to_string(), "/opt/b".to_string(), "/opt/c".to_string()]);
    assert_eq!(sorted_members(&r, 0), vec!["/opt/a/x.pak".to_string(), "/opt/a/y.so".to_string()]);
    assert_eq!(sorted_members(&r, 1), vec!["/opt/b/x.pak".to_string()]);
    assert_eq!(r.total_size(), Some(60));
}

#[test]
fn each_directory_measured_once() {
    let searches = vec![
        vec![file("/opt/a/1"), file("/opt/b/1")],
        vec![file("/opt/a/2"), file("/opt/b/2")],
        vec![file("/opt/a/3")],
        vec![file("/opt/b/4"), file("/opt/c/4")],
    ];
    let (_, calls) = run(&searches, &BTreeMap::new());
    assert_eq!(calls.len(), 3);
    assert!(calls.values().all(|&n| n == 1));
}

#[test]
fn merging_twice_changes_nothing() {
    let cs = vec![file("/opt/a/x"), file("/opt/a/y")];
    let g = group_candidates(&cs);
    let mut r = Registry::new();
    let ms = vec![Measurement { directory: "/opt/a".to_string(), size: Some(5) }];
    r.merge(&g, &ms);
    let first = sorted_members(&r, 0);
    assert!(r.pending_measurements(&g).is_empty());
    r.merge(&g, &ms);
    assert_eq!(r.count(), 1);
    assert_eq!(r.installations()[0].member_files().len(), 2);
    assert_eq!(sorted_members(&r, 0), first);
    assert_eq!(r.installations()[0].size(), 5);
}

#[test]
fn failed_measurement_is_skipped_once() {
    let searches = vec![vec![file("/opt/bad/x"), file("/opt/good/x")], vec![file("/opt/bad/y")]];
    let sizes = BTreeMap::from([("/opt/bad", None), ("/opt/good", Some(7u128))]);
    let (r, calls) = run(&searches, &sizes);
    assert_eq!(r.count(), 1);
    assert_eq!(r.installations()[0].directory(), "/opt/good");
    assert_eq!(r.skipped(), &vec!["/opt/bad".to_string()]);
    assert_eq!(calls["/opt/bad"], 1);
}

#[test]
fn missing_measurement_leaves_directory_pending() {
    let g = group_candidates(&vec![file("/opt/a/x")]);
    let mut r = Registry::new();
    r.merge(&g, &vec![]);
    assert_eq!(r.count(), 0);
    assert_eq!(r.pending_measurements(&g), vec!["/opt/a".to_string()]);
}

#[test]
fn first_measurement_wins() {
    let g = group_candidates(&vec![file("/opt/a/x")]);
    let mut r = Registry::new();
    let ms = vec![
        Measurement { directory: "/opt/a".to_string(), size: Some(1) },
        Measurement { directory: "/opt/a".to_string(), size: Some(2) },
    ];
    r.merge(&g, &ms);
    assert_eq!(r.installations()[0].size(), 1);
}

#[test]
fn total_size_overflow() {
    let searches = vec![vec![file("/a/x"), file("/b/x")]];
    let sizes = BTreeMap::from([("/a", Some(u128::MAX)), ("/b", Some(1u128))]);
    let (r, _) = run(&searches, &sizes);
    assert_eq!(r.count(), 2);
    assert_eq!(r.total_size(), None);
}
