//! The page's display content: one file and its links, rendered as the
//! text block the host shows in the page's single text control.

use vstd::prelude::*;

use crate::hardlink::LinkSet;
use crate::path::FilePath;
use crate::util::{dec_rep, push_all, push_dec};

verus! {

/// Carriage return and line feed, the host's line break.
pub open spec fn crlf() -> Seq<u16> {
    seq![0x0Du16, 0x0Au16]
}

/// The label before the link count. The code units spell, in Chinese,
/// "besides itself, there are " (followed by the count).
pub open spec fn label_before_count() -> Seq<u16> {
    seq![0x9664u16, 0x81EAu16, 0x8EABu16, 0x5916u16, 0xFF0Cu16, 0x8FD8u16, 0x6709u16, 0x20u16]
}

/// The label after the link count: " hard links:" in Chinese, with a
/// full-width colon.
pub open spec fn label_after_count() -> Seq<u16> {
    seq![0x20u16, 0x4E2Au16, 0x786Cu16, 0x94FEu16, 0x63A5u16, 0xFF1Au16]
}

/// The heading under the file's own path: a line break, the count of
/// other links framed by its labels, and a blank line.
pub open spec fn header_text(n: nat) -> Seq<u16> {
    crlf() + label_before_count() + dec_rep(n) + label_after_count() + crlf() + crlf()
}

/// One numbered list line: `[i] <path>` and a line break.
pub open spec fn item_line(i: nat, p: Seq<u16>) -> Seq<u16> {
    seq![0x5Bu16] + dec_rep(i) + seq![0x5Du16, 0x20u16] + p + crlf()
}

/// The numbered list of all links, 1-indexed in the set's order.
pub open spec fn items_text(links: Seq<Seq<u16>>) -> Seq<u16>
    decreases links.len(),
{
    if links.len() == 0 {
        Seq::empty()
    } else {
        items_text(links.drop_last()) + item_line(links.len(), links.last())
    }
}

/// The whole page text: the queried path, the heading with the count of
/// other links, and the numbered list.
pub open spec fn display_text(path: Seq<u16>, links: Seq<Seq<u16>>) -> Seq<u16> {
    path + header_text(links.len()) + items_text(links)
}

/// The state a visible page owns: one file and its links.
pub struct Dialog {
    path: FilePath,
    links: LinkSet,
}

impl View for Dialog {
    type V = (Seq<u16>, Seq<Seq<u16>>);

    closed spec fn view(&self) -> (Seq<u16>, Seq<Seq<u16>>) {
        (self.path@, self.links@)
    }
}

impl Dialog {
    pub fn new(path: FilePath, links: LinkSet) -> (r: Dialog)
        ensures
            r@ == (path@, links@),
    {
        Dialog { path, links }
    }

    pub fn path(&self) -> (r: &FilePath)
        ensures
            r@ == self@.0,
    {
        &self.path
    }

    pub fn links(&self) -> (r: &LinkSet)
        ensures
            r@ == self@.1,
    {
        &self.links
    }

    /// Renders the page text, exactly as `display_text` lays it out.
    pub fn to_string(&self) -> (r: Vec<u16>)
        ensures
            r@ == display_text(self@.0, self@.1),
    {
        let mut out: Vec<u16> = Vec::new();
        push_all(&mut out, self.path.units());
        out.push(0x0D);
        out.push(0x0A);
        out.push(0x9664);
        out.push(0x81EA);
        out.push(0x8EAB);
        out.push(0x5916);
        out.push(0xFF0C);
        out.push(0x8FD8);
        out.push(0x6709);
        out.push(0x20);
        push_dec(&mut out, self.links.len());
        out.push(0x20);
        out.push(0x4E2A);
        out.push(0x786C);
        out.push(0x94FE);
        out.push(0x63A5);
        out.push(0xFF1A);
        out.push(0x0D);
        out.push(0x0A);
        out.push(0x0D);
        out.push(0x0A);
        proof {
            assert(out@ =~= self@.0 + header_text(self@.1.len()));
        }
        let ghost head = out@;
        let n = self.links.len();
        let mut k: usize = 0;
        while k < n
            invariant
                0 <= k <= n,
                n == self@.1.len(),
                self.links@ == self@.1,
                out@ == head + items_text(self@.1.take(k as int)),
            decreases n - k,
        {
            let ghost before = out@;
            out.push(0x5B);
            push_dec(&mut out, k + 1);
            out.push(0x5D);
            out.push(0x20);
            push_all(&mut out, self.links.path(k).units());
            out.push(0x0D);
            out.push(0x0A);
            proof {
                assert(out@ =~= before + item_line((k + 1) as nat, self@.1[k as int]));
                let t = self@.1.take(k + 1 as int);
                assert(t.drop_last() =~= self@.1.take(k as int));
                assert(t.last() == self@.1[k as int]);
                assert(t.len() == k + 1);
                assert(out@ =~= head + items_text(t));
            }
            k += 1;
        }
        proof {
            assert(self@.1.take(n as int) =~= self@.1);
        }
        out
    }
}

/// The text control's rectangle for a client area of the given size: a
/// 16-unit margin on every side, recomputed on each size notification.
pub fn layout_text_control(width: i32, height: i32) -> (r: (i32, i32, i32, i32))
    requires
        0 <= width,
        0 <= height,
    ensures
        r == (16i32, 16i32, (width - 32) as i32, (height - 32) as i32),
{
    (16, 16, width - 32, height - 32)
}

} // verus!
