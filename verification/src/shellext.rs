//! The extension object's verified decisions: collecting the qualifying
//! files of a selection, the single-page hand-off, the page allocation's
//! ownership discipline, and the activation surface's identity checks.

use vstd::multiset::Multiset;
use vstd::prelude::*;

use crate::dlg::Dialog;
use crate::hardlink::{EnumerationError, LinkSet};
use crate::path::FilePath;
use crate::util::{
    lemma_lex_le_trans, lex_cmp, lex_le, lex_lt, PathOrder,
};

verus! {

broadcast use crate::path::FilePath::lemma_views_agree, vstd::seq_lib::group_to_multiset_ensures, vstd::multiset::group_multiset_axioms;

/// What the driver found out about one dropped path: not a regular file
/// (directories, links-to-files and nonexistent paths do not qualify),
/// enumeration failed, or enumeration succeeded with these links.
pub enum CandidateOutcome {
    NotRegularFile,
    EnumerationFailed(EnumerationError),
    Links(LinkSet),
}

/// A path qualifies when its enumeration succeeded with at least one
/// other link. Failures are swallowed: one file's failure never aborts
/// the collection of the rest.
pub open spec fn qualifies(o: CandidateOutcome) -> bool {
    match o {
        CandidateOutcome::Links(ls) => ls@.len() > 0,
        _ => false,
    }
}

pub open spec fn links_view(o: CandidateOutcome) -> Seq<Seq<u16>> {
    match o {
        CandidateOutcome::Links(ls) => ls@,
        _ => Seq::empty(),
    }
}

/// One qualifying file with its links.
pub struct SelectionEntry {
    pub path: FilePath,
    pub links: LinkSet,
}

impl View for SelectionEntry {
    type V = (Seq<u16>, Seq<Seq<u16>>);

    open spec fn view(&self) -> (Seq<u16>, Seq<Seq<u16>>) {
        (self.path@, self.links@)
    }
}

pub open spec fn entries_view(s: Seq<SelectionEntry>) -> Seq<(Seq<u16>, Seq<Seq<u16>>)> {
    Seq::new(s.len(), |i: int| s[i]@)
}

/// Entries in non-strict ascending order of their paths.
pub open spec fn sorted_by_path(s: Seq<(Seq<u16>, Seq<Seq<u16>>)>) -> bool {
    forall|i: int, j: int| 0 <= i < j < s.len() ==> lex_le(s[i].0, s[j].0)
}

/// The entries that `collect` keeps from `inputs`, in input order: one
/// per qualifying path.
pub open spec fn selected_of(inputs: Seq<(FilePath, CandidateOutcome)>) -> Seq<
    (Seq<u16>, Seq<Seq<u16>>),
>
    decreases inputs.len(),
{
    if inputs.len() == 0 {
        Seq::empty()
    } else {
        let rest = selected_of(inputs.drop_last());
        let last = inputs.last();
        if qualifies(last.1) {
            rest.push((last.0@, links_view(last.1)))
        } else {
            rest
        }
    }
}

/// The qualifying files of one host-provided selection, sorted by path
/// once sealed; consumed exactly once when a page is built.
pub struct Selection {
    entries: Vec<SelectionEntry>,
}

impl View for Selection {
    type V = Seq<(Seq<u16>, Seq<Seq<u16>>)>;

    closed spec fn view(&self) -> Seq<(Seq<u16>, Seq<Seq<u16>>)> {
        entries_view(self.entries@)
    }
}

impl Selection {
    pub fn new() -> (r: Selection)
        ensures
            r@ =~= Seq::<(Seq<u16>, Seq<Seq<u16>>)>::empty(),
    {
        Selection { entries: Vec::new() }
    }

    pub fn len(&self) -> (r: usize)
        ensures
            r == self@.len(),
    {
        self.entries.len()
    }

    pub fn is_empty(&self) -> (r: bool)
        ensures
            r == (self@.len() == 0),
    {
        self.entries.len() == 0
    }

    pub fn entry(&self, i: usize) -> (r: &SelectionEntry)
        requires
            i < self@.len(),
        ensures
            r@ == self@[i as int],
    {
        &self.entries[i]
    }

    /// Considers one dropped path: appended exactly when it qualifies,
    /// dropped otherwise.
    pub fn offer(&mut self, path: FilePath, outcome: CandidateOutcome)
        ensures
            qualifies(outcome) ==> final(self)@ =~= old(self)@.push(
                (path@, links_view(outcome)),
            ),
            !qualifies(outcome) ==> final(self)@ == old(self)@,
    {
        match outcome {
            CandidateOutcome::Links(links) => {
                if links.len() > 0 {
                    let ghost vold = self.entries@;
                    let entry = SelectionEntry { path, links };
                    self.entries.push(entry);
                    proof {
                        assert forall|k: int|
                            0 <= k < self@.len() implies self@[k] == entries_view(vold).push(
                            entry@,
                        )[k] by {
                            assert(self.entries@ == vold.push(entry));
                            if k < vold.len() {
                                assert(self.entries@[k] == vold[k]);
                            } else {
                                assert(self.entries@[k] == entry);
                            }
                        }
                        assert(self@ =~= entries_view(vold).push(entry@));
                    }
                }
            },
            _ => {},
        }
    }

    /// Sorts the accumulated entries by path.
    pub fn seal(&mut self)
        ensures
            sorted_by_path(final(self)@),
            final(self)@.to_multiset() == old(self)@.to_multiset(),
    {
        let mut sorted_entries: Vec<SelectionEntry> = Vec::new();
        while self.entries.len() > 0
            invariant
                sorted_by_path(entries_view(sorted_entries@)),
                entries_view(sorted_entries@).to_multiset().add(
                    entries_view(self.entries@).to_multiset(),
                ) == old(self)@.to_multiset(),
            decreases self.entries@.len(),
        {
            let ghost pre = self.entries@;
            let ghost acc = entries_view(sorted_entries@);
            let x = self.entries.pop().unwrap();
            proof {
                assert(entries_view(pre.drop_last()).push(x@) =~= entries_view(pre));
                assert(entries_view(pre.drop_last()).push(x@).to_multiset() == entries_view(
                    pre.drop_last(),
                ).to_multiset().insert(x@));
                assert(entries_view(pre).to_multiset() == entries_view(
                    pre.drop_last(),
                ).to_multiset().insert(x@));
            }
            insert_by_path(&mut sorted_entries, x);
            proof {
                lemma_multiset_shift(
                    acc.to_multiset(),
                    entries_view(self.entries@).to_multiset(),
                    x@,
                );
            }
        }
        self.entries = sorted_entries;
        proof {
            assert(entries_view(Seq::<SelectionEntry>::empty()).to_multiset()
                =~= Multiset::<(Seq<u16>, Seq<Seq<u16>>)>::empty());
        }
    }

    /// The hand-off to the one page: the first entry — the lowest path,
    /// once sealed — is moved out and the rest are dropped, leaving the
    /// backing storage empty; the selection is consumed exactly once.
    /// One page is built even when several files qualify: a known
    /// single-page limitation, open for future multi-page support.
    pub fn take_first(&mut self) -> (r: Option<SelectionEntry>)
        ensures
            final(self)@.len() == 0,
            old(self)@.len() == 0 ==> r is None,
            old(self)@.len() > 0 ==> match r {
                Some(e) => e@ == old(self)@[0],
                None => false,
            },
    {
        if self.entries.len() == 0 {
            return None;
        }
        let e = self.entries.remove(0);
        self.entries.clear();
        Some(e)
    }
}

proof fn lemma_multiset_shift(
    a: Multiset<(Seq<u16>, Seq<Seq<u16>>)>,
    b: Multiset<(Seq<u16>, Seq<Seq<u16>>)>,
    x: (Seq<u16>, Seq<Seq<u16>>),
)
    ensures
        a.insert(x).add(b) == a.add(b.insert(x)),
{
    broadcast use vstd::multiset::group_multiset_axioms;

    assert(a.insert(x).add(b) =~= a.add(b.insert(x)));
}

/// Inserts `x` before the first entry whose path orders after it.
fn insert_by_path(v: &mut Vec<SelectionEntry>, x: SelectionEntry)
    requires
        sorted_by_path(entries_view(old(v)@)),
    ensures
        sorted_by_path(entries_view(final(v)@)),
        entries_view(final(v)@).to_multiset() == entries_view(old(v)@).to_multiset().insert(x@),
{
    let ghost pre = entries_view(v@);
    let mut i: usize = 0;
    let mut stop = false;
    while i < v.len() && !stop
        invariant
            entries_view(v@) == pre,
            sorted_by_path(pre),
            0 <= i <= pre.len(),
            forall|j: int| 0 <= j < i ==> lex_le(pre[j].0, x@.0),
            stop ==> i < pre.len() && lex_lt(x@.0, pre[i as int].0),
        decreases pre.len() - i, 1int - (if stop { 1int } else { 0int }),
    {
        proof {
            assert(entries_view(v@)[i as int] == v@[i as int]@);
        }
        match lex_cmp(v[i].path.units(), x.path.units()) {
            PathOrder::Greater => {
                proof {
                    assert(lex_lt(x@.0, pre[i as int].0));
                }
                stop = true;
            },
            _ => {
                proof {
                    assert(lex_le(pre[i as int].0, x@.0));
                }
                i += 1;
            },
        }
    }
    let ghost vold = v@;
    v.insert(i, x);
    proof {
        let ii = i as int;
        let newv = entries_view(v@);
        assert forall|k: int| 0 <= k < newv.len() implies newv[k] == pre.insert(ii, x@)[k] by {
            assert(v@ == vold.insert(ii, x));
            assert(newv[k] == v@[k]@);
            if k < ii {
                assert(v@[k] == vold[k]);
            } else if k == ii {
                assert(v@[k] == x);
            } else {
                assert(v@[k] == vold[k - 1]);
            }
        }
        assert(newv =~= pre.insert(ii, x@));
        assert(newv.len() == pre.len() + 1);
        assert(forall|k: int| 0 <= k < ii ==> newv[k] == pre[k]);
        assert(newv[ii] == x@);
        assert(forall|k: int| ii < k < newv.len() ==> newv[k] == pre[k - 1]);
        assert forall|a: int, b: int| 0 <= a < b < newv.len() implies lex_le(
            newv[a].0,
            newv[b].0,
        ) by {
            if b < ii {
            } else if a < ii && b == ii {
            } else if b > ii {
                if a == ii {
                    assert(stop);
                    if b - 1 > ii {
                        lemma_lex_le_trans(x@.0, pre[ii].0, pre[b - 1].0);
                    }
                }
            } else {
            }
        }
    }
}

/// The entry one qualifying candidate contributes.
pub open spec fn entry_of(c: (FilePath, CandidateOutcome)) -> (Seq<u16>, Seq<Seq<u16>>) {
    (c.0@, links_view(c.1))
}

proof fn lemma_selected_of_remove(s: Seq<(FilePath, CandidateOutcome)>, j: int)
    requires
        0 <= j < s.len(),
    ensures
        selected_of(s).to_multiset() == (if qualifies(s[j].1) {
            selected_of(s.remove(j)).to_multiset().insert(entry_of(s[j]))
        } else {
            selected_of(s.remove(j)).to_multiset()
        }),
    decreases s.len(),
{
    let last = s.last();
    if j == s.len() - 1 {
        assert(s.remove(j) =~= s.drop_last());
        if qualifies(last.1) {
            assert(selected_of(s) == selected_of(s.drop_last()).push(entry_of(last)));
            assert(selected_of(s.drop_last()).push(entry_of(last)).to_multiset()
                == selected_of(s.drop_last()).to_multiset().insert(entry_of(last)));
        }
    } else {
        let t = s.drop_last();
        lemma_selected_of_remove(t, j);
        assert(s.remove(j).drop_last() =~= t.remove(j));
        assert(s.remove(j).last() == last);
        assert(s.remove(j).len() > 0);
        assert(t[j] == s[j]);
        if qualifies(last.1) {
            assert(selected_of(s) == selected_of(t).push(entry_of(last)));
            assert(selected_of(s.remove(j)) == selected_of(t.remove(j)).push(entry_of(last)));
            assert(selected_of(t).push(entry_of(last)).to_multiset() == selected_of(
                t,
            ).to_multiset().insert(entry_of(last)));
            assert(selected_of(t.remove(j)).push(entry_of(last)).to_multiset() == selected_of(
                t.remove(j),
            ).to_multiset().insert(entry_of(last)));
            if qualifies(s[j].1) {
                assert(selected_of(t.remove(j)).to_multiset().insert(entry_of(s[j])).insert(
                    entry_of(last),
                ) =~= selected_of(t.remove(j)).to_multiset().insert(entry_of(last)).insert(
                    entry_of(s[j]),
                ));
            }
        } else {
            assert(selected_of(s) == selected_of(t));
            assert(selected_of(s.remove(j)) == selected_of(t.remove(j)));
        }
    }
}

/// What `collect` keeps does not depend on the order in which the
/// selection arrives: two candidate lists holding the same candidates
/// keep the same entries. With the sortedness `collect` ensures, its
/// results for the two lists can differ only in the order of entries
/// that share a path.
pub proof fn lemma_selected_order_insensitive(
    a: Seq<(FilePath, CandidateOutcome)>,
    b: Seq<(FilePath, CandidateOutcome)>,
)
    requires
        a.to_multiset() == b.to_multiset(),
    ensures
        selected_of(a).to_multiset() == selected_of(b).to_multiset(),
    decreases a.len(),
{
    if a.len() == 0 {
        if b.len() > 0 {
            assert(b.to_multiset().count(b.last()) > 0);
            assert(a.to_multiset().count(b.last()) > 0);
            assert(a.contains(b.last()));
        }
    } else {
        let last = a.last();
        assert(a.contains(last));
        assert(a.to_multiset().count(last) > 0);
        assert(b.to_multiset().count(last) > 0);
        assert(b.contains(last));
        let j = choose|j: int| 0 <= j < b.len() && b[j] == last;
        assert(a.drop_last() =~= a.remove(a.len() - 1));
        assert(a.remove(a.len() - 1).to_multiset() == a.to_multiset().remove(last));
        assert(b.remove(j).to_multiset() == b.to_multiset().remove(last));
        lemma_selected_order_insensitive(a.drop_last(), b.remove(j));
        lemma_selected_of_remove(b, j);
        if qualifies(last.1) {
            assert(selected_of(a) == selected_of(a.drop_last()).push(entry_of(last)));
            assert(selected_of(a.drop_last()).push(entry_of(last)).to_multiset() == selected_of(
                a.drop_last(),
            ).to_multiset().insert(entry_of(last)));
        } else {
            assert(selected_of(a) == selected_of(a.drop_last()));
        }
    }
}

/// Filters a host selection to its qualifying files and sorts them by
/// path: exactly the qualifying entries survive (as a multiset), and the
/// sorted order holds whatever the input order was.
pub fn collect(inputs: Vec<(FilePath, CandidateOutcome)>) -> (r: Selection)
    ensures
        sorted_by_path(r@),
        r@.to_multiset() == selected_of(inputs@).to_multiset(),
{
    let ghost orig = inputs@;
    let mut rest = inputs;
    let mut sel = Selection::new();
    proof {
        assert(sel@.to_multiset() =~= Multiset::<(Seq<u16>, Seq<Seq<u16>>)>::empty());
    }
    while rest.len() > 0
        invariant
            sel@.to_multiset().add(selected_of(rest@).to_multiset()) == selected_of(
                orig,
            ).to_multiset(),
        decreases rest@.len(),
    {
        let ghost prev = rest@;
        let ghost acc = sel@;
        let entry = rest.pop().unwrap();
        let (p, o) = entry;
        proof {
            assert(prev.last() == (p, o));
            assert(rest@ == prev.drop_last());
        }
        sel.offer(p, o);
        proof {
            if qualifies(o) {
                let e = (p@, links_view(o));
                assert(selected_of(prev) == selected_of(prev.drop_last()).push(e));
                assert(selected_of(rest@).push(e).to_multiset() == selected_of(
                    rest@,
                ).to_multiset().insert(e));
                assert(sel@ =~= acc.push(e));
                assert(acc.push(e).to_multiset() == acc.to_multiset().insert(e));
                lemma_multiset_shift(acc.to_multiset(), selected_of(rest@).to_multiset(), e);
            }
        }
    }
    proof {
        assert(selected_of(rest@) =~= Seq::<(Seq<u16>, Seq<Seq<u16>>)>::empty());
        assert(selected_of(rest@).to_multiset() =~= Multiset::<
            (Seq<u16>, Seq<Seq<u16>>),
        >::empty());
    }
    sel.seal();
    sel
}

/// The page's lifetime-tracking allocation, across the ownership
/// boundary: the dialog state is lent to the host when the page is
/// registered, and reclaimed by exactly one of two mutually exclusive
/// paths — the host refused the page, or the host's release callback
/// fired. The option-like cell makes a second reclaim structurally a
/// no-op rather than a double free.
pub struct PageSlot {
    dlg: Option<Dialog>,
}

impl PageSlot {
    /// What the slot holds.
    pub closed spec fn contents(&self) -> Option<Dialog> {
        self.dlg
    }

    pub open spec fn occupied(&self) -> bool {
        self.contents() is Some
    }

    /// The slot as any reclaim leaves it: empty.
    pub closed spec fn reclaimed_slot() -> PageSlot {
        PageSlot { dlg: None }
    }

    pub fn new(dlg: Dialog) -> (r: PageSlot)
        ensures
            r.contents() == Some(dlg),
            r.occupied(),
    {
        PageSlot { dlg: Some(dlg) }
    }

    pub fn is_occupied(&self) -> (r: bool)
        ensures
            r == self.occupied(),
    {
        match self.dlg {
            Some(_) => true,
            None => false,
        }
    }

    /// Borrows the dialog while the page is displayed, without
    /// reclaiming anything.
    pub fn dialog(&self) -> (r: Option<&Dialog>)
        ensures
            match r {
                Some(d) => self.contents() == Some(*d) && self.occupied(),
                None => !self.occupied(),
            },
    {
        match &self.dlg {
            Some(d) => Some(d),
            None => None,
        }
    }

    /// The single reclaim operation: yields the dialog exactly when the
    /// slot still held it, and always leaves the slot empty, so the
    /// rejection path and the release callback can never both free it,
    /// and a late second call returns nothing and changes nothing.
    pub fn reclaim(&mut self) -> (r: Option<Dialog>)
        ensures
            r == old(self).contents(),
            r is Some <==> old(self).occupied(),
            *final(self) == PageSlot::reclaimed_slot(),
            !final(self).occupied(),
    {
        self.dlg.take()
    }
}

/// The allocation is reclaimed at most once. Every reclaim leaves the
/// reclaimed slot, which holds nothing and yields nothing: whichever of
/// the two paths — host rejection or the release callback — runs first
/// obtains the dialog, the other (or a stray repeated signal) gets
/// `None` and changes nothing, and a double free is impossible.
pub proof fn lemma_reclaim_at_most_once()
    ensures
        !PageSlot::reclaimed_slot().occupied(),
        PageSlot::reclaimed_slot().contents() is None,
{
}

/// The component's class identity.
pub const HARDLINKVIEW_CLSID: u128 = 0x552db720_103a_4783_9eb4_834e5e5915be;

/// The class-factory activation interface's identity.
pub const ICLASSFACTORY_IID: u128 = 0x00000001_0000_0000_c000_000000000046;

/// The root interface's identity.
pub const IUNKNOWN_IID: u128 = 0x00000000_0000_0000_c000_000000000046;

/// The initialize-with-selection capability's identity.
pub const ISHELLEXTINIT_IID: u128 = 0x000214e8_0000_0000_c000_000000000046;

/// The contribute-pages capability's identity.
pub const ISHELLPROPSHEETEXT_IID: u128 = 0x000214e9_0000_0000_c000_000000000046;

#[derive(PartialEq, Eq, Structural, Clone, Copy, Debug)]
pub enum ActivationError {
    /// The requested class is not this component's.
    ClassNotAvailable,
    /// The requested interface is outside the supported set.
    InterfaceNotSupported,
    /// Aggregation requests are refused.
    NoAggregation,
}

/// The object's closed capability set.
#[derive(PartialEq, Eq, Structural, Clone, Copy, Debug)]
pub enum Capability {
    Unknown,
    ShellExtInit,
    PropSheetExt,
}

/// Resolves an interface identity to the facet it selects, or refuses.
pub fn query_capability(riid: u128) -> (r: Result<Capability, ActivationError>)
    ensures
        r == (if riid == IUNKNOWN_IID {
            Ok::<Capability, ActivationError>(Capability::Unknown)
        } else if riid == ISHELLEXTINIT_IID {
            Ok::<Capability, ActivationError>(Capability::ShellExtInit)
        } else if riid == ISHELLPROPSHEETEXT_IID {
            Ok::<Capability, ActivationError>(Capability::PropSheetExt)
        } else {
            Err::<Capability, ActivationError>(ActivationError::InterfaceNotSupported)
        }),
{
    if riid == IUNKNOWN_IID {
        Ok(Capability::Unknown)
    } else if riid == ISHELLEXTINIT_IID {
        Ok(Capability::ShellExtInit)
    } else if riid == ISHELLPROPSHEETEXT_IID {
        Ok(Capability::PropSheetExt)
    } else {
        Err(ActivationError::InterfaceNotSupported)
    }
}

/// The class-object request: only the class-factory interface of the one
/// registered class is served — the interface is checked first, then the
/// class identity.
pub fn class_object_decision(rclsid: u128, riid: u128) -> (r: Result<(), ActivationError>)
    ensures
        r == (if riid != ICLASSFACTORY_IID {
            Err::<(), ActivationError>(ActivationError::InterfaceNotSupported)
        } else if rclsid != HARDLINKVIEW_CLSID {
            Err::<(), ActivationError>(ActivationError::ClassNotAvailable)
        } else {
            Ok::<(), ActivationError>(())
        }),
{
    if riid != ICLASSFACTORY_IID {
        Err(ActivationError::InterfaceNotSupported)
    } else if rclsid != HARDLINKVIEW_CLSID {
        Err(ActivationError::ClassNotAvailable)
    } else {
        Ok(())
    }
}

/// The activation surface: creates extension objects on request.
pub struct Factory;

impl Factory {
    /// An instantiation request: aggregation is refused, then the
    /// requested facet decides.
    pub fn create_instance(&self, aggregated: bool, riid: u128) -> (r: Result<
        Capability,
        ActivationError,
    >)
        ensures
            aggregated ==> r == Err::<Capability, ActivationError>(ActivationError::NoAggregation),
            !aggregated ==> r == (if riid == IUNKNOWN_IID {
                Ok::<Capability, ActivationError>(Capability::Unknown)
            } else if riid == ISHELLEXTINIT_IID {
                Ok::<Capability, ActivationError>(Capability::ShellExtInit)
            } else if riid == ISHELLPROPSHEETEXT_IID {
                Ok::<Capability, ActivationError>(Capability::PropSheetExt)
            } else {
                Err::<Capability, ActivationError>(ActivationError::InterfaceNotSupported)
            }),
    {
        if aggregated {
            Err(ActivationError::NoAggregation)
        } else {
            query_capability(riid)
        }
    }

    /// A lock or unlock request is accepted and has no effect: the
    /// component does not prevent host unloading, and the request never
    /// fails.
    pub fn lock_server(&self, _lock: bool) -> (r: Result<(), ActivationError>)
        ensures
            r == Ok::<(), ActivationError>(()),
    {
        Ok(())
    }
}

} // verus!
