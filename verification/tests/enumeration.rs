use hardlinkview::hardlink::{
    combine_close, EnumerationError, Enumeration, FindEvent, LinkSet, NextCall,
    HANDLE_EOF_HRESULT, INITIAL_BUFFER_UNITS, MORE_DATA_HRESULT,
};
use hardlinkview::path::FilePath;

fn enc(s: &str) -> Vec<u16> {
    s.encode_utf16().collect()
}

fn link_paths(ls: &LinkSet) -> Vec<Vec<u16>> {
    let mut out = Vec::new();
    let mut i = 0;
    while i < ls.len() {
        out.push(ls.path(i).units().clone());
        i += 1;
    }
    out
}

#[test]
fn single_name_yields_empty_linkset() {
    let mut e = Enumeration::start(FilePath::new(enc("C:\\dir\\a.txt"))).unwrap();
    assert_eq!(e.buffer_units(), INITIAL_BUFFER_UNITS);
    assert_eq!(e.step(FindEvent::Found(enc("\\dir\\a.txt"))), NextCall::CallNext);
    assert_eq!(e.step(FindEvent::EndOfData), NextCall::Finished);
    let ls = e.into_result().unwrap();
    assert!(ls.is_empty());
    assert_eq!(ls.len(), 0);
}

#[test]
fn other_links_sorted_excluding_self() {
    let mut e = Enumeration::start(FilePath::new(enc("C:\\dir\\b.txt"))).unwrap();
    e.step(FindEvent::Found(enc("\\dir\\c.txt")));
    e.step(FindEvent::Found(enc("\\dir\\a.txt")));
    e.step(FindEvent::Found(enc("\\dir\\b.txt")));
    e.step(FindEvent::EndOfData);
    let ls = e.into_result().unwrap();
    assert_eq!(
        link_paths(&ls),
        vec![enc("C:\\dir\\a.txt"), enc("C:\\dir\\c.txt")]
    );
}

#[test]
fn duplicate_reports_are_deduplicated() {
    let mut e = Enumeration::start(FilePath::new(enc("C:\\x"))).unwrap();
    e.step(FindEvent::Found(enc("\\y")));
    e.step(FindEvent::Found(enc("\\y")));
    e.step(FindEvent::Found(enc("\\x")));
    e.step(FindEvent::EndOfData);
    let ls = e.into_result().unwrap();
    assert_eq!(link_paths(&ls), vec![enc("C:\\y")]);
}

#[test]
fn buffer_retry_matches_sufficient_buffer() {
    // One run hits the growth path on the opening call and while
    // advancing; the other is fed the same names without any
    // undersized call. The results must agree: buffer size is an
    // implementation detail, not observable in the output.
    let mut grown = Enumeration::start(FilePath::new(enc("C:\\d\\a"))).unwrap();
    assert_eq!(grown.step(FindEvent::MoreData(400)), NextCall::CallFirst);
    assert_eq!(grown.buffer_units(), 401);
    grown.step(FindEvent::Found(enc("\\d\\a")));
    assert_eq!(grown.step(FindEvent::MoreData(500)), NextCall::CallNext);
    assert_eq!(grown.buffer_units(), 501);
    grown.step(FindEvent::Found(enc("\\d\\b")));
    grown.step(FindEvent::EndOfData);
    let grown_result = grown.into_result().unwrap();

    let mut seeded = Enumeration::start(FilePath::new(enc("C:\\d\\a"))).unwrap();
    seeded.step(FindEvent::Found(enc("\\d\\a")));
    seeded.step(FindEvent::Found(enc("\\d\\b")));
    seeded.step(FindEvent::EndOfData);
    let seeded_result = seeded.into_result().unwrap();

    assert_eq!(link_paths(&grown_result), link_paths(&seeded_result));
    assert_eq!(link_paths(&grown_result), vec![enc("C:\\d\\b")]);
}

#[test]
fn second_undersized_opening_call_fails() {
    let mut e = Enumeration::start(FilePath::new(enc("C:\\a"))).unwrap();
    assert_eq!(e.step(FindEvent::MoreData(300)), NextCall::CallFirst);
    assert_eq!(e.step(FindEvent::MoreData(300)), NextCall::Finished);
    assert_eq!(
        e.into_result().unwrap_err(),
        EnumerationError::Platform(MORE_DATA_HRESULT)
    );
}

#[test]
fn end_of_data_on_opening_call_fails() {
    let mut e = Enumeration::start(FilePath::new(enc("C:\\a"))).unwrap();
    assert_eq!(e.step(FindEvent::EndOfData), NextCall::Finished);
    assert_eq!(
        e.into_result().unwrap_err(),
        EnumerationError::Platform(HANDLE_EOF_HRESULT)
    );
}

#[test]
fn platform_failure_propagates() {
    let mut e = Enumeration::start(FilePath::new(enc("C:\\a"))).unwrap();
    e.step(FindEvent::Found(enc("\\a")));
    assert_eq!(e.step(FindEvent::Failed(-2147024894)), NextCall::Finished);
    assert!(e.needs_close());
    assert_eq!(
        e.into_result().unwrap_err(),
        EnumerationError::Platform(-2147024894)
    );
}

#[test]
fn relative_path_is_invalid() {
    assert_eq!(
        Enumeration::start(FilePath::new(enc("dir\\a.txt"))).unwrap_err(),
        EnumerationError::InvalidPath
    );
    assert_eq!(
        Enumeration::start(FilePath::new(enc(""))).unwrap_err(),
        EnumerationError::InvalidPath
    );
    assert_eq!(
        Enumeration::start(FilePath::new(enc("\\dir\\a.txt"))).unwrap_err(),
        EnumerationError::InvalidPath
    );
}

#[test]
fn unc_prefix_joins_links() {
    let mut e =
        Enumeration::start(FilePath::new(enc("\\\\server\\share\\f.txt"))).unwrap();
    e.step(FindEvent::Found(enc("\\f.txt")));
    e.step(FindEvent::Found(enc("\\g.txt")));
    e.step(FindEvent::EndOfData);
    let ls = e.into_result().unwrap();
    assert_eq!(link_paths(&ls), vec![enc("\\\\server\\share\\g.txt")]);
}

#[test]
fn verbatim_drive_prefix_accepted() {
    let mut e = Enumeration::start(FilePath::new(enc("\\\\?\\C:\\d\\a"))).unwrap();
    e.step(FindEvent::Found(enc("\\d\\b")));
    e.step(FindEvent::EndOfData);
    let ls = e.into_result().unwrap();
    assert_eq!(link_paths(&ls), vec![enc("\\\\?\\C:\\d\\b")]);
}

#[test]
fn close_failure_masks_only_success() {
    let ok: Result<LinkSet, EnumerationError> = Ok(LinkSet::empty());
    match combine_close(ok, Some(-5)) {
        Err(EnumerationError::Platform(code)) => assert_eq!(code, -5),
        _ => panic!("close failure after success must surface"),
    }
    let failed: Result<LinkSet, EnumerationError> =
        Err(EnumerationError::Platform(-7));
    assert_eq!(
        combine_close(failed, Some(-5)).unwrap_err(),
        EnumerationError::Platform(-7)
    );
    let ok2: Result<LinkSet, EnumerationError> = Ok(LinkSet::empty());
    assert!(combine_close(ok2, None).is_ok());
}

#[test]
fn volume_prefix_forms() {
    assert_eq!(FilePath::new(enc("C:\\a")).volume_prefix(), Some(2));
    assert_eq!(FilePath::new(enc("z:rel")).volume_prefix(), Some(2));
    assert_eq!(FilePath::new(enc("\\\\?\\D:\\x")).volume_prefix(), Some(6));
    assert_eq!(
        FilePath::new(enc("\\\\server\\share\\x")).volume_prefix(),
        Some(14)
    );
    assert_eq!(
        FilePath::new(enc("\\\\?\\UNC\\srv\\sh\\x")).volume_prefix(),
        Some(14)
    );
    assert_eq!(
        FilePath::new(enc("\\\\?\\Volume{0a}\\f.txt")).volume_prefix(),
        Some(14)
    );
    assert_eq!(
        FilePath::new(enc("\\\\.\\PhysicalDrive0")).volume_prefix(),
        Some(18)
    );
    assert_eq!(FilePath::new(enc("\\\\.\\C:\\x")).volume_prefix(), Some(6));
    assert_eq!(FilePath::new(enc("\\\\server")).volume_prefix(), None);
    assert_eq!(FilePath::new(enc("\\\\server\\")).volume_prefix(), None);
    assert_eq!(FilePath::new(enc("x")).volume_prefix(), None);
}
