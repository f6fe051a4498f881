//! Hard-link enumeration.
//!
//! The platform exposes the links of a file through a cursor with a
//! growable-buffer protocol: a first call opens the cursor and writes one
//! volume-relative link name into a caller-supplied buffer, each further
//! call advances it, and either kind of call may instead report that the
//! buffer is too small together with the size it needs. The protocol
//! decisions live here, verified, as the state machine [`Enumeration`]:
//! the caller performs one platform call per requested step and feeds the
//! outcome back as a [`FindEvent`]. The machine grows the capacity on a
//! "too small" signal (once for the opening call, as the platform promises
//! the resized retry succeeds; any number of times while advancing),
//! collects each reported name joined with the queried file's volume
//! prefix, and stops on the end signal or a failure. [`Enumeration::into_result`]
//! then removes the queried path itself and returns the rest as a sorted,
//! duplicate-free [`LinkSet`].

use vstd::prelude::*;

use crate::path::{join, join_spec, volume_prefix_len, FilePath};
use crate::util::{
    lemma_lex_lt_neq, lemma_lex_lt_trans, lemma_strictly_sorted_no_duplicates, lex_cmp, lex_lt,
    strictly_sorted, PathOrder,
};

verus! {

broadcast use crate::path::FilePath::lemma_views_agree;

/// Why a single file's enumeration failed.
#[derive(PartialEq, Eq, Structural, Clone, Copy, Debug)]
pub enum EnumerationError {
    /// The queried path has no volume prefix.
    InvalidPath,
    /// The platform reported a failure (an HRESULT) other than the
    /// expected "more data" and "end of data" signals.
    Platform(i32),
}

/// The HRESULT form of the platform's "buffer too small" signal.
pub const MORE_DATA_HRESULT: i32 = -2147024662;

/// The HRESULT form of the cursor's "end of data" signal.
pub const HANDLE_EOF_HRESULT: i32 = -2147024858;

/// Initial buffer capacity in code units: the traditional path-length
/// constant plus one for the terminator.
pub const INITIAL_BUFFER_UNITS: u32 = 261;

/// The outcome of one platform call, as the driver reports it back:
/// a link name (the filled buffer cut at its terminator), a "buffer too
/// small" signal with the required size in code units, the end of the
/// cursor, or any other failure with its code.
pub enum FindEvent {
    Found(Vec<u16>),
    MoreData(u32),
    EndOfData,
    Failed(i32),
}

/// Where the enumeration stands: before a (possibly retried) opening
/// call, between advancing calls, or finished with an outcome.
#[derive(PartialEq, Eq, Structural, Clone, Copy, Debug)]
pub enum Phase {
    First { retried: bool },
    Next,
    Done { failure: Option<i32> },
}

/// What the driver is asked to do next.
#[derive(PartialEq, Eq, Structural, Clone, Copy, Debug)]
pub enum NextCall {
    CallFirst,
    CallNext,
    Finished,
}

/// Capacity after a "too small, `required` units" signal: one more for
/// the terminator, saturating at the type's bound.
pub open spec fn grown_capacity(required: u32) -> u32 {
    if required == u32::MAX {
        u32::MAX
    } else {
        (required + 1) as u32
    }
}

/// The machine's observable protocol state: where it stands, the buffer
/// capacity it asks for, and what it has collected.
#[verifier::ext_equal]
pub struct RunModel {
    pub phase: Phase,
    pub cap: u32,
    pub collected: Seq<Seq<u16>>,
}

/// An event at the specification level.
pub enum EventModel {
    Found(Seq<u16>),
    MoreData(u32),
    EndOfData,
    Failed(i32),
}

pub open spec fn model_of(ev: FindEvent) -> EventModel {
    match ev {
        FindEvent::Found(name) => EventModel::Found(name@),
        FindEvent::MoreData(required) => EventModel::MoreData(required),
        FindEvent::EndOfData => EventModel::EndOfData,
        FindEvent::Failed(code) => EventModel::Failed(code),
    }
}

/// The machine's whole transition on one event, at the specification
/// level; [`Enumeration::step`] refines it exactly.
pub open spec fn step_model(m: RunModel, prefix: Seq<u16>, ev: EventModel) -> RunModel
    recommends
        !(m.phase is Done),
{
    match ev {
        EventModel::Found(name) => RunModel {
            phase: Phase::Next,
            cap: m.cap,
            collected: m.collected.push(join_spec(prefix, name)),
        },
        EventModel::MoreData(required) => match m.phase {
            Phase::First { retried } => if !retried {
                RunModel {
                    phase: Phase::First { retried: true },
                    cap: grown_capacity(required),
                    collected: m.collected,
                }
            } else {
                RunModel {
                    phase: Phase::Done { failure: Some(MORE_DATA_HRESULT) },
                    cap: m.cap,
                    collected: m.collected,
                }
            },
            _ => RunModel {
                phase: Phase::Next,
                cap: grown_capacity(required),
                collected: m.collected,
            },
        },
        EventModel::EndOfData => RunModel {
            phase: match m.phase {
                Phase::First { .. } => Phase::Done { failure: Some(HANDLE_EOF_HRESULT) },
                _ => Phase::Done { failure: None },
            },
            cap: m.cap,
            collected: m.collected,
        },
        EventModel::Failed(code) => RunModel {
            phase: Phase::Done { failure: Some(code) },
            cap: m.cap,
            collected: m.collected,
        },
    }
}

/// All other paths on the volume hard-linked to one file's data,
/// excluding the queried path itself: strictly sorted, so free of
/// duplicates.
#[derive(Debug)]
pub struct LinkSet {
    paths: Vec<FilePath>,
}

impl View for LinkSet {
    type V = Seq<Seq<u16>>;

    closed spec fn view(&self) -> Seq<Seq<u16>> {
        self.paths.deep_view()
    }
}

impl LinkSet {
    pub open spec fn wf(&self) -> bool {
        strictly_sorted(self@)
    }

    pub fn empty() -> (r: LinkSet)
        ensures
            r@ =~= Seq::<Seq<u16>>::empty(),
            r.wf(),
    {
        LinkSet { paths: Vec::new() }
    }

    pub fn len(&self) -> (r: usize)
        ensures
            r == self@.len(),
    {
        self.paths.len()
    }

    pub fn is_empty(&self) -> (r: bool)
        ensures
            r == (self@.len() == 0),
    {
        self.paths.len() == 0
    }

    pub fn path(&self, i: usize) -> (r: &FilePath)
        requires
            i < self@.len(),
        ensures
            r@ == self@[i as int],
    {
        &self.paths[i]
    }

    /// Inserts `p` at its sorted position; a path already present is not
    /// added again.
    pub fn insert(&mut self, p: FilePath)
        requires
            old(self).wf(),
        ensures
            final(self).wf(),
            forall|q: Seq<u16>|
                final(self)@.contains(q) <==> (old(self)@.contains(q) || q == p@),
    {
        let ghost pre = self@;
        let mut i: usize = 0;
        let mut stop = false;
        let mut equal = false;
        while i < self.paths.len() && !stop
            invariant
                self@ == pre,
                self.wf(),
                0 <= i <= self@.len(),
                forall|j: int| 0 <= j < i ==> lex_lt(self@[j], p@),
                equal ==> stop,
                stop ==> i < self@.len(),
                stop && equal ==> self@[i as int] == p@,
                stop && !equal ==> lex_lt(p@, self@[i as int]),
            decreases self@.len() - i, 1int - (if stop { 1int } else { 0int }),
        {
            proof {
                assert(self@[i as int] == self.paths@[i as int].deep_view());
            }
            match lex_cmp(self.paths[i].units(), p.units()) {
                PathOrder::Less => {
                    proof {
                        assert(lex_lt(self@[i as int], p@));
                    }
                    i += 1;
                },
                PathOrder::Equal => {
                    proof {
                        let elem = self.paths@[i as int];
                        assert(self@[i as int] == elem.deep_view());
                        assert(elem.deep_view() == elem@);
                        assert(elem@ == p@);
                        assert(self@[i as int] == p@);
                    }
                    equal = true;
                    stop = true;
                },
                PathOrder::Greater => {
                    proof {
                        assert(lex_lt(p@, self@[i as int]));
                    }
                    stop = true;
                },
            }
        }
        if equal {
            proof {
                assert(self@.contains(p@)) by {
                    assert(self@[i as int] == p@);
                }
            }
            return ;
        }
        let ghost vold = self.paths@;
        self.paths.insert(i, p);
        proof {
            let vnew = self.paths@;
            assert(vnew == vold.insert(i as int, p));
            assert forall|k: int| 0 <= k < self@.len() implies self@[k] == pre.insert(
                i as int,
                p@,
            )[k] by {
                assert(self@[k] == vnew[k].deep_view());
                if k < i {
                    assert(vnew[k] == vold[k]);
                    assert(pre[k] == vold[k].deep_view());
                } else if k == i {
                    assert(vnew[k] == p);
                } else {
                    assert(vnew[k] == vold[k - 1]);
                    assert(pre[k - 1] == vold[k - 1].deep_view());
                }
            }
            assert(self@ =~= pre.insert(i as int, p@));
            // sortedness around the insertion point
            assert forall|a: int, b: int| 0 <= a < b < self@.len() implies lex_lt(
                self@[a],
                self@[b],
            ) by {
                let ii = i as int;
                if b < ii {
                } else if a < ii && b == ii {
                } else if b > ii {
                    assert(stop);
                    if b - 1 > ii {
                        lemma_lex_lt_trans(p@, pre[ii], pre[b - 1]);
                    }
                    assert(lex_lt(p@, pre[b - 1]));
                    if a < ii {
                        lemma_lex_lt_trans(pre[a], p@, pre[b - 1]);
                    }
                } else {
                }
            }
            // membership
            let ii = i as int;
            let newv = self@;
            assert(newv.len() == pre.len() + 1);
            assert(forall|k: int| 0 <= k < ii ==> newv[k] == pre[k]);
            assert(newv[ii] == p@);
            assert(forall|k: int| ii < k < newv.len() ==> newv[k] == pre[k - 1]);
            assert forall|q: Seq<u16>| newv.contains(q) implies (pre.contains(q) || q
                == p@) by {
                let k = choose|k: int| 0 <= k < newv.len() && newv[k] == q;
                if k < ii {
                    assert(pre[k] == q);
                    assert(pre.contains(q));
                } else if k > ii {
                    assert(pre[k - 1] == q);
                    assert(pre.contains(q));
                }
            }
            assert forall|q: Seq<u16>| (pre.contains(q) || q == p@) implies newv.contains(
                q,
            ) by {
                if q == p@ {
                    assert(newv[ii] == q);
                    assert(newv.contains(q));
                } else {
                    let k = choose|k: int| 0 <= k < pre.len() && pre[k] == q;
                    if k < ii {
                        assert(newv[k] == q);
                    } else {
                        assert(newv[k + 1] == q);
                    }
                    assert(newv.contains(q));
                }
            }
        }
    }
}

/// The enumeration of one file's links, driven from outside: the machine
/// says which call to make and with how large a buffer, the driver
/// reports each call's outcome.
#[derive(Debug)]
pub struct Enumeration {
    prefix: Vec<u16>,
    queried: Vec<u16>,
    cap: u32,
    opened: bool,
    names: Vec<FilePath>,
    phase: Phase,
}

impl Enumeration {
    /// Current phase.
    pub closed spec fn state(&self) -> Phase {
        self.phase
    }

    /// The queried file's volume prefix.
    pub closed spec fn prefix_spec(&self) -> Seq<u16> {
        self.prefix@
    }

    /// The queried path itself.
    pub closed spec fn queried_spec(&self) -> Seq<u16> {
        self.queried@
    }

    /// Buffer capacity, in code units, the next call must be made with.
    pub closed spec fn capacity_spec(&self) -> u32 {
        self.cap
    }

    /// Whether a cursor was opened and must eventually be closed.
    pub closed spec fn opened_spec(&self) -> bool {
        self.opened
    }

    /// The absolute link names collected so far, in arrival order.
    pub closed spec fn collected(&self) -> Seq<Seq<u16>> {
        self.names.deep_view()
    }

    /// The machine's observable protocol state.
    pub open spec fn model(&self) -> RunModel {
        RunModel { phase: self.state(), cap: self.capacity_spec(), collected: self.collected() }
    }

    /// The capacity, in code units, of the buffer the next call must be
    /// made with.
    pub fn buffer_units(&self) -> (r: u32)
        ensures
            r == self.capacity_spec(),
    {
        self.cap
    }

    /// Whether a cursor was opened and must be closed by the driver.
    pub fn needs_close(&self) -> (r: bool)
        ensures
            r == self.opened_spec(),
    {
        self.opened
    }

    pub fn is_done(&self) -> (r: bool)
        ensures
            r == (self.state() is Done),
    {
        match self.phase {
            Phase::Done { .. } => true,
            _ => false,
        }
    }

    /// Opens an enumeration of the links of `path`. Fails with
    /// `InvalidPath` exactly when `path` has no volume prefix.
    pub fn start(path: FilePath) -> (r: Result<Enumeration, EnumerationError>)
        ensures
            match r {
                Ok(e) => {
                    &&& match volume_prefix_len(path@) {
                        Some(n) => e.prefix_spec() == path@.take(n),
                        None => false,
                    }
                    &&& e.queried_spec() == path@
                    &&& e.capacity_spec() == INITIAL_BUFFER_UNITS
                    &&& e.collected() =~= Seq::<Seq<u16>>::empty()
                    &&& e.state() == (Phase::First { retried: false })
                    &&& !e.opened_spec()
                },
                Err(EnumerationError::InvalidPath) => volume_prefix_len(path@) is None,
                Err(EnumerationError::Platform(_)) => false,
            },
    {
        let n = match path.volume_prefix() {
            Some(n) => n,
            None => {
                return Err(EnumerationError::InvalidPath);
            },
        };
        let units = path.into_units();
        let mut prefix: Vec<u16> = Vec::new();
        let mut i: usize = 0;
        while i < n
            invariant
                0 <= i <= n <= units@.len(),
                prefix@ == units@.take(i as int),
            decreases n - i,
        {
            prefix.push(units[i]);
            proof {
                assert(prefix@ =~= units@.take(i + 1 as int));
            }
            i += 1;
        }
        Ok(
            Enumeration {
                prefix,
                queried: units,
                cap: INITIAL_BUFFER_UNITS,
                opened: false,
                names: Vec::new(),
                phase: Phase::First { retried: false },
            },
        )
    }

    /// Feeds back the outcome of the call the machine last asked for, and
    /// says what to do next. A reported name is joined with the volume
    /// prefix and collected; a "too small" signal only grows the capacity
    /// — it never adds to or reorders what was collected, and the opening
    /// call is retried at most once; the end signal, a failure, and a
    /// second undersized opening call finish the machine.
    pub fn step(&mut self, ev: FindEvent) -> (next: NextCall)
        requires
            !(old(self).state() is Done),
        ensures
            final(self).prefix_spec() == old(self).prefix_spec(),
            final(self).queried_spec() == old(self).queried_spec(),
            final(self).model() == step_model(
                old(self).model(),
                old(self).prefix_spec(),
                model_of(ev),
            ),
            next == (match final(self).state() {
                Phase::First { .. } => NextCall::CallFirst,
                Phase::Next => NextCall::CallNext,
                Phase::Done { .. } => NextCall::Finished,
            }),
            match ev {
                FindEvent::Found(name) => {
                    &&& final(self).collected() =~= old(self).collected().push(
                        join_spec(old(self).prefix_spec(), name@),
                    )
                    &&& final(self).state() == Phase::Next
                    &&& final(self).opened_spec()
                    &&& final(self).capacity_spec() == old(self).capacity_spec()
                },
                FindEvent::MoreData(required) => {
                    &&& final(self).collected() =~= old(self).collected()
                    &&& final(self).opened_spec() == old(self).opened_spec()
                    &&& match old(self).state() {
                        Phase::First { retried } => if !retried {
                            &&& final(self).state() == (Phase::First { retried: true })
                            &&& final(self).capacity_spec() == grown_capacity(required)
                        } else {
                            &&& final(self).state() == (Phase::Done {
                                failure: Some(MORE_DATA_HRESULT),
                            })
                            &&& final(self).capacity_spec() == old(self).capacity_spec()
                        },
                        Phase::Next => {
                            &&& final(self).state() == Phase::Next
                            &&& final(self).capacity_spec() == grown_capacity(required)
                        },
                        Phase::Done { .. } => false,
                    }
                },
                FindEvent::EndOfData => {
                    &&& final(self).collected() =~= old(self).collected()
                    &&& final(self).opened_spec() == old(self).opened_spec()
                    &&& final(self).capacity_spec() == old(self).capacity_spec()
                    &&& final(self).state() == (match old(self).state() {
                        Phase::First { .. } => Phase::Done { failure: Some(HANDLE_EOF_HRESULT) },
                        _ => Phase::Done { failure: None },
                    })
                },
                FindEvent::Failed(code) => {
                    &&& final(self).collected() =~= old(self).collected()
                    &&& final(self).opened_spec() == old(self).opened_spec()
                    &&& final(self).capacity_spec() == old(self).capacity_spec()
                    &&& final(self).state() == (Phase::Done { failure: Some(code) })
                },
            },
    {
        match ev {
            FindEvent::Found(name) => {
                let joined = join(&self.prefix, &name);
                let fp = FilePath::new(joined);
                proof {
                    assert(fp.deep_view() == join_spec(old(self).prefix_spec(), name@));
                }
                let ghost vold = self.names@;
                self.names.push(fp);
                proof {
                    assert forall|k: int|
                        0 <= k < self.names.deep_view().len() implies self.names.deep_view()[k]
                        == old(self).collected().push(
                        join_spec(old(self).prefix_spec(), name@),
                    )[k] by {
                        assert(self.names@ == vold.push(fp));
                        if k < vold.len() {
                            assert(self.names@[k] == vold[k]);
                        } else {
                            assert(self.names@[k] == fp);
                        }
                    }
                }
                self.opened = true;
                self.phase = Phase::Next;
                NextCall::CallNext
            },
            FindEvent::MoreData(required) => {
                let grown = if required == 0xFFFF_FFFF {
                    required
                } else {
                    required + 1
                };
                match self.phase {
                    Phase::First { retried } => {
                        if !retried {
                            self.cap = grown;
                            self.phase = Phase::First { retried: true };
                            NextCall::CallFirst
                        } else {
                            self.phase = Phase::Done { failure: Some(MORE_DATA_HRESULT) };
                            NextCall::Finished
                        }
                    },
                    _ => {
                        self.cap = grown;
                        NextCall::CallNext
                    },
                }
            },
            FindEvent::EndOfData => {
                match self.phase {
                    Phase::First { .. } => {
                        self.phase = Phase::Done { failure: Some(HANDLE_EOF_HRESULT) };
                    },
                    _ => {
                        self.phase = Phase::Done { failure: None };
                    },
                }
                NextCall::Finished
            },
            FindEvent::Failed(code) => {
                self.phase = Phase::Done { failure: Some(code) };
                NextCall::Finished
            },
        }
    }

    /// The finished machine's outcome: the platform failure if one ended
    /// it, otherwise the collected names with the queried path removed,
    /// as a sorted, duplicate-free set. Self-removal compares code unit
    /// for code unit: the queried path is expected in the same canonical
    /// spelling in which the host hands paths over and the cursor
    /// reports names — a non-canonical spelling (a doubled separator in
    /// the tail) is not recognized as the file's own name.
    pub fn into_result(self) -> (r: Result<LinkSet, EnumerationError>)
        requires
            self.state() is Done,
        ensures
            match self.state() {
                Phase::Done { failure: Some(code) } => match r {
                    Ok(_) => false,
                    Err(e) => e == EnumerationError::Platform(code),
                },
                Phase::Done { failure: None } => match r {
                    Ok(ls) => {
                        &&& ls.wf()
                        &&& forall|q: Seq<u16>|
                            ls@.contains(q) <==> (self.collected().contains(q)
                                && q != self.queried_spec())
                    },
                    Err(_) => false,
                },
                _ => false,
            },
    {
        let Enumeration { queried, mut names, phase, .. } = self;
        if let Phase::Done { failure: Some(code) } = phase {
            return Err(EnumerationError::Platform(code));
        }
        let ghost orig = names.deep_view();
        let mut ls = LinkSet::empty();
        while names.len() > 0
            invariant
                ls.wf(),
                names.deep_view() =~= orig.take(names@.len() as int),
                names@.len() <= orig.len(),
                forall|q: Seq<u16>|
                    ls@.contains(q) <==> ((exists|k: int|
                        names@.len() <= k < orig.len() && orig[k] == q) && q != queried@),
            decreases names@.len(),
        {
            let ghost m = names@.len() as int;
            let ghost pre_deep = names.deep_view();
            let p = names.pop().unwrap();
            proof {
                assert(pre_deep[m - 1] == orig.take(m)[m - 1]);
                assert(p.deep_view() == pre_deep[m - 1]);
                assert(p@ == orig[m - 1]);
                assert forall|k: int|
                    0 <= k < names.deep_view().len() implies names.deep_view()[k] == orig.take(
                    m - 1,
                )[k] by {
                    assert(names.deep_view()[k] == names@[k].deep_view());
                    assert(pre_deep[k] == orig.take(m)[k]);
                }
                assert(names.deep_view() =~= orig.take(m - 1));
            }
            match lex_cmp(p.units(), &queried) {
                PathOrder::Equal => {
                    proof {
                        assert forall|q: Seq<u16>|
                            ls@.contains(q) <==> ((exists|k: int|
                                m - 1 <= k < orig.len() && orig[k] == q) && q != queried@) by {
                            if (exists|k: int| m - 1 <= k < orig.len() && orig[k] == q) && q
                                != queried@ {
                                let k = choose|k: int|
                                    m - 1 <= k < orig.len() && orig[k] == q;
                                if k == m - 1 {
                                    assert(q == queried@);
                                } else {
                                    assert(exists|k2: int|
                                        m <= k2 < orig.len() && orig[k2] == q);
                                }
                            }
                        }
                    }
                },
                _ => {
                    ls.insert(p);
                    proof {
                        assert forall|q: Seq<u16>|
                            ls@.contains(q) <==> ((exists|k: int|
                                m - 1 <= k < orig.len() && orig[k] == q) && q != queried@) by {
                            if q == orig[m - 1] {
                                assert(orig[m - 1] != queried@);
                            }
                            if ls@.contains(q) && q != orig[m - 1] {
                                assert(exists|k: int| m <= k < orig.len() && orig[k] == q);
                            }
                            if (exists|k: int| m - 1 <= k < orig.len() && orig[k] == q) && q
                                != queried@ && q != orig[m - 1] {
                                let k = choose|k: int|
                                    m - 1 <= k < orig.len() && orig[k] == q;
                                assert(m <= k < orig.len() && orig[k] == q);
                            }
                        }
                    }
                },
            }
        }
        proof {
            assert forall|q: Seq<u16>|
                ls@.contains(q) <==> (orig.contains(q) && q != queried@) by {
                if orig.contains(q) {
                    let k = choose|k: int| 0 <= k < orig.len() && orig[k] == q;
                    assert(exists|k2: int| 0 <= k2 < orig.len() && orig[k2] == q);
                }
            }
        }
        Ok(ls)
    }
}

/// Cursor closure is an independent, final, fallible step: a closure
/// failure never masks a primary error, and replaces a primary success.
pub fn combine_close(
    primary: Result<LinkSet, EnumerationError>,
    close_failure: Option<i32>,
) -> (r: Result<LinkSet, EnumerationError>)
    ensures
        match primary {
            Err(e) => r == Err::<LinkSet, EnumerationError>(e),
            Ok(_) => match close_failure {
                Some(code) => r == Err::<LinkSet, EnumerationError>(
                    EnumerationError::Platform(code),
                ),
                None => r == primary,
            },
        },
{
    match primary {
        Err(e) => Err(e),
        Ok(ls) => match close_failure {
            Some(code) => Err(EnumerationError::Platform(code)),
            None => Ok(ls),
        },
    }
}

/// A relative name fits a buffer of `cap` units, terminator included.
pub open spec fn fits(name: Seq<u16>, cap: u32) -> bool {
    name.len() + 1 <= cap
}

/// The size a "too small" signal reports for `name`: its length with
/// the terminator.
pub open spec fn required_units(name: Seq<u16>) -> u32 {
    (name.len() + 1) as u32
}

/// Each relative name joined with the queried file's volume prefix.
pub open spec fn joined(prefix: Seq<u16>, names: Seq<Seq<u16>>) -> Seq<Seq<u16>> {
    names.map_values(|n: Seq<u16>| join_spec(prefix, n))
}

/// A complete run of the machine against a modelled volume holding
/// `names`: a call made with enough capacity reports the next name, one
/// made with too little reports the size it needs, and past the last
/// name the cursor ends. (A name too long for any buffer stops the
/// model; the laws below exclude such names.)
pub open spec fn run_model(prefix: Seq<u16>, names: Seq<Seq<u16>>, m: RunModel, k: int) -> RunModel
    recommends
        0 <= k <= names.len(),
    decreases
            names.len() - k,
            (if m.phase is Done {
                0int
            } else {
                1int
            }),
            (if 0 <= k < names.len() && !fits(names[k], m.cap) {
                1int
            } else {
                0int
            }),
{
    if m.phase is Done || !(0 <= k <= names.len()) {
        m
    } else if k == names.len() {
        step_model(m, prefix, EventModel::EndOfData)
    } else if !(names[k].len() + 2 <= 0xFFFF_FFFF) {
        m
    } else if fits(names[k], m.cap) {
        run_model(prefix, names, step_model(m, prefix, EventModel::Found(names[k])), k + 1)
    } else {
        run_model(
            prefix,
            names,
            step_model(m, prefix, EventModel::MoreData(required_units(names[k]))),
            k,
        )
    }
}

proof fn lemma_joined_decompose(prefix: Seq<u16>, names: Seq<Seq<u16>>, k: int)
    requires
        0 <= k < names.len(),
    ensures
        joined(prefix, names.skip(k)) =~= seq![join_spec(prefix, names[k])] + joined(
            prefix,
            names.skip(k + 1),
        ),
{
    assert forall|j: int| 0 <= j < names.skip(k).len() implies joined(prefix, names.skip(k))[j]
        == (seq![join_spec(prefix, names[k])] + joined(prefix, names.skip(k + 1)))[j] by {
        assert(names.skip(k)[j] == names[k + j]);
        if j > 0 {
            assert(names.skip(k + 1)[j - 1] == names[k + j]);
        }
    }
}

proof fn lemma_run_collects_rest(prefix: Seq<u16>, names: Seq<Seq<u16>>, m: RunModel, k: int)
    requires
        m.phase == Phase::Next,
        0 <= k <= names.len(),
        forall|i: int| 0 <= i < names.len() ==> (#[trigger] names[i].len()) + 2 <= 0xFFFF_FFFF,
    ensures
        run_model(prefix, names, m, k).phase == (Phase::Done { failure: None::<i32> }),
        run_model(prefix, names, m, k).collected =~= m.collected + joined(prefix, names.skip(k)),
    decreases
            names.len() - k,
            (if 0 <= k < names.len() && !fits(names[k], m.cap) {
                1int
            } else {
                0int
            }),
{
    if k == names.len() {
        assert(names.skip(k) =~= Seq::<Seq<u16>>::empty());
        assert(joined(prefix, names.skip(k)) =~= Seq::<Seq<u16>>::empty());
        assert(run_model(prefix, names, m, k).collected =~= m.collected + joined(
            prefix,
            names.skip(k),
        ));
    } else if fits(names[k], m.cap) {
        let m2 = step_model(m, prefix, EventModel::Found(names[k]));
        lemma_run_collects_rest(prefix, names, m2, k + 1);
        lemma_joined_decompose(prefix, names, k);
        assert(run_model(prefix, names, m, k).collected =~= m.collected + joined(
            prefix,
            names.skip(k),
        ));
    } else {
        let m2 = step_model(m, prefix, EventModel::MoreData(required_units(names[k])));
        lemma_run_collects_rest(prefix, names, m2, k);
    }
}

proof fn lemma_first_run(prefix: Seq<u16>, names: Seq<Seq<u16>>, cap: u32)
    requires
        names.len() > 0,
        forall|i: int| 0 <= i < names.len() ==> (#[trigger] names[i].len()) + 2 <= 0xFFFF_FFFF,
    ensures
        ({
            let start = RunModel {
                phase: (Phase::First { retried: false }),
                cap: cap,
                collected: Seq::empty(),
            };
            let r = run_model(prefix, names, start, 0);
            &&& r.phase == (Phase::Done { failure: None::<i32> })
            &&& r.collected =~= joined(prefix, names)
        }),
{
    let start = RunModel {
        phase: (Phase::First { retried: false }),
        cap: cap,
        collected: Seq::empty(),
    };
    lemma_joined_decompose(prefix, names, 0);
    assert(names.skip(0) =~= names);
    if fits(names[0], cap) {
        let m2 = step_model(start, prefix, EventModel::Found(names[0]));
        assert(m2.collected =~= seq![join_spec(prefix, names[0])]);
        lemma_run_collects_rest(prefix, names, m2, 1);
        assert(run_model(prefix, names, start, 0) == run_model(prefix, names, m2, 1));
    } else {
        let m1 = step_model(start, prefix, EventModel::MoreData(required_units(names[0])));
        assert(m1.phase == (Phase::First { retried: true }));
        assert(fits(names[0], m1.cap));
        let m2 = step_model(m1, prefix, EventModel::Found(names[0]));
        assert(m2.collected =~= seq![join_spec(prefix, names[0])]);
        lemma_run_collects_rest(prefix, names, m2, 1);
        assert(run_model(prefix, names, m1, 0) == run_model(prefix, names, m2, 1));
        assert(run_model(prefix, names, start, 0) == run_model(prefix, names, m1, 0));
    }
}

/// Buffer capacity is an implementation detail, not observable in the
/// outcome: two runs of the enumeration against the same volume, seeded
/// with any two initial capacities — one of which may take growth
/// retries the other never needs — end in the same state and collect
/// the same names, each of the volume's names joined with its prefix.
/// The bound on each name is the protocol's own machine limit: sizes
/// travel in a 32-bit count of units, so no reportable name is longer.
pub proof fn lemma_capacity_not_observable(
    prefix: Seq<u16>,
    names: Seq<Seq<u16>>,
    cap1: u32,
    cap2: u32,
)
    requires
        names.len() > 0,
        forall|i: int| 0 <= i < names.len() ==> (#[trigger] names[i].len()) + 2 <= 0xFFFF_FFFF,
    ensures
        ({
            let start1 = RunModel {
                phase: (Phase::First { retried: false }),
                cap: cap1,
                collected: Seq::empty(),
            };
            let start2 = RunModel {
                phase: (Phase::First { retried: false }),
                cap: cap2,
                collected: Seq::empty(),
            };
            let r1 = run_model(prefix, names, start1, 0);
            let r2 = run_model(prefix, names, start2, 0);
            &&& r1.phase == r2.phase
            &&& r1.collected == r2.collected
            &&& r1.collected =~= joined(prefix, names)
        }),
{
    lemma_first_run(prefix, names, cap1);
    lemma_first_run(prefix, names, cap2);
}

/// A file with exactly one name: the cursor reported only the queried
/// path itself, and the link set is empty.
pub proof fn lemma_sole_name_yields_empty(
    collected: Seq<Seq<u16>>,
    queried: Seq<u16>,
    result: Seq<Seq<u16>>,
)
    requires
        collected =~= seq![queried],
        forall|q: Seq<u16>| result.contains(q) <==> (collected.contains(q) && q != queried),
    ensures
        result =~= Seq::<Seq<u16>>::empty(),
{
    if result.len() > 0 {
        let q = result[0];
        assert(result.contains(q));
        assert(collected.contains(q));
        let k = choose|k: int| 0 <= k < collected.len() && collected[k] == q;
        assert(q == queried);
    }
}

/// A file whose data has `collected.len()` distinct names, the queried
/// path among them: exactly one fewer links remain, none of them the
/// queried path, strictly sorted and free of duplicates.
pub proof fn lemma_linked_file_count(
    collected: Seq<Seq<u16>>,
    queried: Seq<u16>,
    result: Seq<Seq<u16>>,
)
    requires
        collected.no_duplicates(),
        collected.contains(queried),
        strictly_sorted(result),
        forall|q: Seq<u16>| result.contains(q) <==> (collected.contains(q) && q != queried),
    ensures
        result.len() == collected.len() - 1,
        forall|i: int| 0 <= i < result.len() ==> result[i] != queried,
        result.no_duplicates(),
{
    broadcast use vstd::seq_lib::seq_to_set_is_finite;
    broadcast use vstd::set::group_set_axioms;

    lemma_strictly_sorted_no_duplicates(result);
    assert(forall|i: int| 0 <= i < result.len() ==> result[i] != queried) by {
        assert(forall|i: int|
            0 <= i < result.len() ==> #[trigger] result.contains(result[i]));
    }
    assert(result.to_set() =~= collected.to_set().remove(queried)) by {
        assert(forall|q: Seq<u16>| result.to_set().contains(q) == result.contains(q));
        assert(forall|q: Seq<u16>| collected.to_set().contains(q) == collected.contains(q));
    }
    result.unique_seq_to_set();
    collected.unique_seq_to_set();
    assert(collected.to_set().contains(queried));
    assert(collected.to_set().remove(queried).len() == collected.to_set().len() - 1);
}

} // verus!
