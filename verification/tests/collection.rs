use hardlinkview::hardlink::{EnumerationError, LinkSet};
use hardlinkview::path::FilePath;
use hardlinkview::shellext::{collect, CandidateOutcome, Selection};

fn wide(s: &str) -> Vec<u16> {
    s.encode_utf16().collect()
}

fn linkset_of(paths: &[&str]) -> LinkSet {
    let mut ls = LinkSet::empty();
    for p in paths {
        ls.insert(FilePath::new(wide(p)));
    }
    ls
}

fn selection_paths(sel: &Selection) -> Vec<Vec<u16>> {
    let mut out = Vec::new();
    let mut i = 0;
    while i < sel.len() {
        out.push(sel.entry(i).path.units().clone());
        i += 1;
    }
    out
}

fn entry_links(sel: &Selection, i: usize) -> Vec<Vec<u16>> {
    let ls = &sel.entry(i).links;
    let mut out = Vec::new();
    let mut k = 0;
    while k < ls.len() {
        out.push(ls.path(k).units().clone());
        k += 1;
    }
    out
}

#[test]
fn mixed_inputs_keep_only_linked_files() {
    // A directory, a nonexistent path, and two mutually hard-linked
    // files: both linked files appear, each holding the other.
    let inputs = vec![
        (
            FilePath::new(wide("C:\\dir")),
            CandidateOutcome::NotRegularFile,
        ),
        (
            FilePath::new(wide("C:\\gone.txt")),
            CandidateOutcome::NotRegularFile,
        ),
        (
            FilePath::new(wide("C:\\dir\\b.txt")),
            CandidateOutcome::Links(linkset_of(&["C:\\dir\\a.txt"])),
        ),
        (
            FilePath::new(wide("C:\\dir\\a.txt")),
            CandidateOutcome::Links(linkset_of(&["C:\\dir\\b.txt"])),
        ),
    ];
    let sel = collect(inputs);
    assert_eq!(
        selection_paths(&sel),
        vec![wide("C:\\dir\\a.txt"), wide("C:\\dir\\b.txt")]
    );
    assert_eq!(entry_links(&sel, 0), vec![wide("C:\\dir\\b.txt")]);
    assert_eq!(entry_links(&sel, 1), vec![wide("C:\\dir\\a.txt")]);
}

#[test]
fn result_sorted_regardless_of_input_order() {
    let forward = vec![
        (
            FilePath::new(wide("C:\\a")),
            CandidateOutcome::Links(linkset_of(&["C:\\b"])),
        ),
        (
            FilePath::new(wide("C:\\b")),
            CandidateOutcome::Links(linkset_of(&["C:\\a"])),
        ),
        (
            FilePath::new(wide("C:\\c")),
            CandidateOutcome::Links(linkset_of(&["C:\\d"])),
        ),
    ];
    let backward = vec![
        (
            FilePath::new(wide("C:\\c")),
            CandidateOutcome::Links(linkset_of(&["C:\\d"])),
        ),
        (
            FilePath::new(wide("C:\\b")),
            CandidateOutcome::Links(linkset_of(&["C:\\a"])),
        ),
        (
            FilePath::new(wide("C:\\a")),
            CandidateOutcome::Links(linkset_of(&["C:\\b"])),
        ),
    ];
    let sorted = vec![wide("C:\\a"), wide("C:\\b"), wide("C:\\c")];
    assert_eq!(selection_paths(&collect(forward)), sorted);
    assert_eq!(selection_paths(&collect(backward)), sorted);
}

#[test]
fn enumeration_failure_and_empty_sets_skipped() {
    let inputs = vec![
        (
            FilePath::new(wide("C:\\broken.txt")),
            CandidateOutcome::EnumerationFailed(EnumerationError::Platform(-3)),
        ),
        (
            FilePath::new(wide("C:\\lonely.txt")),
            CandidateOutcome::Links(LinkSet::empty()),
        ),
        (
            FilePath::new(wide("C:\\bad")),
            CandidateOutcome::EnumerationFailed(EnumerationError::InvalidPath),
        ),
    ];
    let sel = collect(inputs);
    assert!(sel.is_empty());
}

#[test]
fn end_to_end_two_linked_one_alone() {
    // a.txt and b.txt share their data; c.txt is linked to nothing.
    let inputs = vec![
        (
            FilePath::new(wide("C:\\dir\\b.txt")),
            CandidateOutcome::Links(linkset_of(&["C:\\dir\\a.txt"])),
        ),
        (
            FilePath::new(wide("C:\\dir\\c.txt")),
            CandidateOutcome::Links(LinkSet::empty()),
        ),
        (
            FilePath::new(wide("C:\\dir\\a.txt")),
            CandidateOutcome::Links(linkset_of(&["C:\\dir\\b.txt"])),
        ),
    ];
    let sel = collect(inputs);
    assert_eq!(sel.len(), 2);
    assert_eq!(
        selection_paths(&sel),
        vec![wide("C:\\dir\\a.txt"), wide("C:\\dir\\b.txt")]
    );
    assert_eq!(entry_links(&sel, 0), vec![wide("C:\\dir\\b.txt")]);
    assert_eq!(entry_links(&sel, 1), vec![wide("C:\\dir\\a.txt")]);
}

#[test]
fn sole_entry_is_taken_and_storage_emptied() {
    let inputs = vec![(
        FilePath::new(wide("C:\\one")),
        CandidateOutcome::Links(linkset_of(&["C:\\two"])),
    )];
    let mut sel = collect(inputs);
    let e = sel.take_first().expect("single entry must be taken");
    assert_eq!(e.path.units(), &wide("C:\\one"));
    assert!(sel.is_empty());
    assert!(sel.take_first().is_none());
}

#[test]
fn first_of_several_is_taken_and_rest_dropped() {
    // several files qualify: one page is still built, from the first
    // (lowest-path) entry; the rest are dropped with the storage
    let inputs = vec![
        (
            FilePath::new(wide("C:\\b")),
            CandidateOutcome::Links(linkset_of(&["C:\\a"])),
        ),
        (
            FilePath::new(wide("C:\\a")),
            CandidateOutcome::Links(linkset_of(&["C:\\b"])),
        ),
    ];
    let mut sel = collect(inputs);
    let e = sel.take_first().expect("first entry must be taken");
    assert_eq!(e.path.units(), &wide("C:\\a"));
    assert!(sel.is_empty());
    assert!(sel.take_first().is_none());
}

#[test]
fn offer_and_seal_match_collect() {
    let mut sel = Selection::new();
    sel.offer(
        FilePath::new(wide("C:\\z")),
        CandidateOutcome::Links(linkset_of(&["C:\\y"])),
    );
    sel.offer(FilePath::new(wide("C:\\dir")), CandidateOutcome::NotRegularFile);
    sel.offer(
        FilePath::new(wide("C:\\a")),
        CandidateOutcome::Links(linkset_of(&["C:\\b"])),
    );
    sel.seal();
    assert_eq!(selection_paths(&sel), vec![wide("C:\\a"), wide("C:\\z")]);
}
