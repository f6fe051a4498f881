use hardlinkview::dlg::{layout_text_control, Dialog};
use hardlinkview::hardlink::LinkSet;
use hardlinkview::path::FilePath;
use hardlinkview::shellext::PageSlot;

fn w16(s: &str) -> Vec<u16> {
    s.encode_utf16().collect()
}

fn links(paths: &[&str]) -> LinkSet {
    let mut ls = LinkSet::empty();
    for p in paths {
        ls.insert(FilePath::new(w16(p)));
    }
    ls
}

#[test]
fn page_text_exact_layout() {
    let dlg = Dialog::new(
        FilePath::new(w16("C:\\dir\\a.txt")),
        links(&["C:\\dir\\b.txt", "C:\\dir\\c.txt"]),
    );
    let expected = w16(
        "C:\\dir\\a.txt\r\n除自身外，还有 2 个硬链接：\r\n\r\n[1] C:\\dir\\b.txt\r\n[2] C:\\dir\\c.txt\r\n",
    );
    assert_eq!(dlg.to_string(), expected);
}

#[test]
fn page_text_without_links() {
    let dlg = Dialog::new(FilePath::new(w16("C:\\only.txt")), LinkSet::empty());
    let expected = w16("C:\\only.txt\r\n除自身外，还有 0 个硬链接：\r\n\r\n");
    assert_eq!(dlg.to_string(), expected);
}

#[test]
fn page_text_numbers_past_nine() {
    let mut ls = LinkSet::empty();
    for i in 0..11 {
        // link names chosen so their sorted order matches the digits
        let name = format!("C:\\n\\{:02}", i);
        ls.insert(FilePath::new(w16(&name)));
    }
    let dlg = Dialog::new(FilePath::new(w16("C:\\n\\self")), ls);
    let text = String::from_utf16(&dlg.to_string()).unwrap();
    assert!(text.contains("还有 11 个"));
    assert!(text.contains("[10] C:\\n\\09\r\n"));
    assert!(text.contains("[11] C:\\n\\10\r\n"));
}

#[test]
fn rejected_page_reclaims_without_leak() {
    // Host refuses the page: the rejection path reclaims the dialog,
    // and nothing is left in the slot to free twice.
    let dlg = Dialog::new(FilePath::new(w16("C:\\a")), links(&["C:\\b"]));
    let mut slot = PageSlot::new(dlg);
    assert!(slot.is_occupied());
    let taken = slot.reclaim();
    assert!(taken.is_some());
    assert!(!slot.is_occupied());
    assert!(slot.reclaim().is_none());
}

#[test]
fn release_callback_once_then_noop() {
    let dlg = Dialog::new(FilePath::new(w16("C:\\a")), links(&["C:\\b"]));
    let mut slot = PageSlot::new(dlg);
    let first = slot.reclaim();
    assert!(first.is_some());
    drop(first);
    // The host contract fires the release once; a stray second signal
    // finds the slot empty and does nothing.
    let second = slot.reclaim();
    assert!(second.is_none());
    assert!(!slot.is_occupied());
}

#[test]
fn text_control_fills_client_minus_margin() {
    assert_eq!(layout_text_control(200, 120), (16, 16, 168, 88));
    assert_eq!(layout_text_control(0, 0), (16, 16, -32, -32));
}
