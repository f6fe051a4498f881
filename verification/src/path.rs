//! Volume-qualified paths as UTF-16 code-unit strings.
//!
//! A path used for link enumeration must be volume-qualified: it starts
//! with a volume prefix — a drive `X:`, a verbatim drive `\\?\X:`, a
//! share `\\server\share` (server and share both present), a verbatim
//! share `\\?\UNC\server\share`, another verbatim component
//! (`\\?\Volume{..}`), or a device namespace (`\\.\C:`). The
//! enumeration cursor reports each link relative to the volume, and the
//! absolute form is rebuilt by joining the queried file's prefix with
//! that relative name.

use vstd::prelude::*;

verus! {

/// The platform's path separator, as a code unit.
pub const SEP: u16 = 0x5C;

/// The drive-letter separator `:`.
pub const COLON: u16 = 0x3A;

pub open spec fn is_ascii_letter(u: u16) -> bool {
    (0x41 <= u && u <= 0x5A) || (0x61 <= u && u <= 0x7A)
}

/// Index of the first separator at or after `i`, or the length if none.
pub open spec fn next_sep(s: Seq<u16>, i: int) -> int
    decreases s.len() - i,
{
    if i < 0 || i >= s.len() {
        s.len() as int
    } else if s[i] == SEP {
        i
    } else {
        next_sep(s, i + 1)
    }
}

/// A separator-free stretch before `i` does not move the next separator.
pub proof fn lemma_next_sep_stable(s: Seq<u16>, start: int, i: int)
    requires
        0 <= start <= i <= s.len(),
        forall|j: int| start <= j < i ==> s[j] != SEP,
    ensures
        next_sep(s, start) == next_sep(s, i),
    decreases i - start,
{
    if start < i {
        lemma_next_sep_stable(s, start + 1, i);
    }
}

/// Length of the share prefix `\\server\share` whose server name starts at
/// `start`: both components must be present and nonempty.
pub open spec fn share_prefix_len(s: Seq<u16>, start: int) -> Option<int> {
    let server_end = next_sep(s, start);
    if server_end == start || server_end >= s.len() {
        None
    } else {
        let share_end = next_sep(s, server_end + 1);
        if share_end == server_end + 1 {
            None
        } else {
            Some(share_end)
        }
    }
}

/// Length of the volume prefix of `s`, or `None` if `s` is not
/// volume-qualified. Beside drives, shares and their verbatim forms,
/// a verbatim prefix with any other first component (`\\?\Volume{..}`)
/// and a device namespace (`\\.\C:`) qualify, each ending at the first
/// separator after its opening.
pub open spec fn volume_prefix_len(s: Seq<u16>) -> Option<int> {
    if s.len() >= 2 && is_ascii_letter(s[0]) && s[1] == COLON {
        Some(2)
    } else if s.len() >= 4 && s[0] == SEP && s[1] == SEP && s[2] == 0x3F && s[3] == SEP {
        let comp_end = next_sep(s, 4);
        if comp_end == 6 && is_ascii_letter(s[4]) && s[5] == COLON {
            Some(6)
        } else if comp_end == 7 && s.len() >= 8 && (s[4] == 0x55 || s[4] == 0x75) && (s[5]
            == 0x4E || s[5] == 0x6E) && (s[6] == 0x43 || s[6] == 0x63) {
            share_prefix_len(s, 8)
        } else {
            Some(comp_end)
        }
    } else if s.len() >= 4 && s[0] == SEP && s[1] == SEP && s[2] == 0x2E && s[3] == SEP {
        Some(next_sep(s, 4))
    } else if s.len() >= 3 && s[0] == SEP && s[1] == SEP && s[2] != SEP {
        share_prefix_len(s, 2)
    } else {
        None
    }
}

/// An absolute, volume-qualified file path carried as UTF-16 code units.
#[derive(Debug)]
pub struct FilePath {
    units: Vec<u16>,
}

impl View for FilePath {
    type V = Seq<u16>;

    closed spec fn view(&self) -> Seq<u16> {
        self.units@
    }
}

impl DeepView for FilePath {
    type V = Seq<u16>;

    closed spec fn deep_view(&self) -> Seq<u16> {
        self.units@
    }
}

impl FilePath {
    /// The two views of a path agree.
    pub broadcast proof fn lemma_views_agree(&self)
        ensures
            #[trigger] self.deep_view() == self@,
    {
    }

    pub fn new(units: Vec<u16>) -> (r: FilePath)
        ensures
            r@ == units@,
    {
        FilePath { units }
    }

    pub fn units(&self) -> (r: &Vec<u16>)
        ensures
            r@ == self@,
    {
        &self.units
    }

    pub fn into_units(self) -> (r: Vec<u16>)
        ensures
            r@ == self@,
    {
        self.units
    }

    /// The length of this path's volume prefix, if it has one; exact with
    /// respect to `volume_prefix_len`.
    pub fn volume_prefix(&self) -> (r: Option<usize>)
        ensures
            match r {
                Some(n) => volume_prefix_len(self@) == Some(n as int) && n <= self@.len(),
                None => volume_prefix_len(self@) is None,
            },
    {
        let s = &self.units;
        let n = s.len();
        if n >= 2 && is_letter(s[0]) && s[1] == COLON {
            return Some(2);
        }
        if n >= 4 && s[0] == SEP && s[1] == SEP && s[2] == 0x3F && s[3] == SEP {
            let comp_end = find_sep(s, 4);
            if comp_end == 6 && is_letter(s[4]) && s[5] == COLON {
                return Some(6);
            }
            if comp_end == 7 && n >= 8 && (s[4] == 0x55 || s[4] == 0x75) && (s[5] == 0x4E || s[5]
                == 0x6E) && (s[6] == 0x43 || s[6] == 0x63) {
                return share_prefix(s, 8);
            }
            return Some(comp_end);
        }
        if n >= 4 && s[0] == SEP && s[1] == SEP && s[2] == 0x2E && s[3] == SEP {
            return Some(find_sep(s, 4));
        }
        if n >= 3 && s[0] == SEP && s[1] == SEP && s[2] != SEP {
            return share_prefix(s, 2);
        }
        None
    }
}

fn is_letter(u: u16) -> (r: bool)
    ensures
        r == is_ascii_letter(u),
{
    (0x41 <= u && u <= 0x5A) || (0x61 <= u && u <= 0x7A)
}

/// First separator at or after `start`, exact with respect to `next_sep`.
fn find_sep(s: &Vec<u16>, start: usize) -> (r: usize)
    requires
        start <= s@.len(),
    ensures
        r == next_sep(s@, start as int),
        start <= r <= s@.len(),
{
    let mut i: usize = start;
    while i < s.len()
        invariant
            start <= i <= s@.len(),
            forall|j: int| start <= j < i ==> s@[j] != SEP,
        decreases s@.len() - i,
    {
        if s[i] == SEP {
            proof {
                lemma_next_sep_stable(s@, start as int, i as int);
            }
            return i;
        }
        i += 1;
    }
    proof {
        lemma_next_sep_stable(s@, start as int, s@.len() as int);
    }
    s.len()
}

/// Share prefix end starting at `start`, exact with respect to
/// `share_prefix_len`.
fn share_prefix(s: &Vec<u16>, start: usize) -> (r: Option<usize>)
    requires
        start <= s@.len(),
    ensures
        match r {
            Some(n) => share_prefix_len(s@, start as int) == Some(n as int) && n <= s@.len(),
            None => share_prefix_len(s@, start as int) is None,
        },
{
    let server_end = find_sep(s, start);
    if server_end == start || server_end >= s.len() {
        return None;
    }
    let share_end = find_sep(s, server_end + 1);
    if share_end == server_end + 1 {
        return None;
    }
    Some(share_end)
}

/// The absolute form of a link name the cursor reported: the queried
/// file's volume prefix joined with the volume-relative name.
pub open spec fn join_spec(prefix: Seq<u16>, rel: Seq<u16>) -> Seq<u16> {
    if rel.len() > 0 && rel[0] == SEP {
        prefix + rel
    } else {
        prefix + seq![SEP] + rel
    }
}

pub fn join(prefix: &Vec<u16>, rel: &Vec<u16>) -> (r: Vec<u16>)
    ensures
        r@ == join_spec(prefix@, rel@),
{
    let mut out: Vec<u16> = Vec::new();
    crate::util::push_all(&mut out, prefix);
    if !(rel.len() > 0 && rel[0] == SEP) {
        out.push(SEP);
        proof {
            assert(out@ =~= prefix@ + seq![SEP]);
        }
    }
    crate::util::push_all(&mut out, rel);
    proof {
        assert(out@ =~= join_spec(prefix@, rel@));
    }
    out
}

} // verus!
