//! Helpers on UTF-16 code-unit strings: terminator truncation, lexicographic
//! order, and decimal rendering. Paths in this library are sequences of
//! `u16`, the code units the platform reads and writes.

use vstd::prelude::*;

verus! {

/// Lexicographic "strictly less" on code-unit sequences: the usual
/// dictionary order, unit by unit, with a proper prefix ordered first.
pub open spec fn lex_lt(a: Seq<u16>, b: Seq<u16>) -> bool
    decreases a.len(),
{
    if b.len() == 0 {
        false
    } else if a.len() == 0 {
        true
    } else if a[0] < b[0] {
        true
    } else if a[0] == b[0] {
        lex_lt(a.skip(1), b.skip(1))
    } else {
        false
    }
}

/// Non-strict companion of `lex_lt`.
pub open spec fn lex_le(a: Seq<u16>, b: Seq<u16>) -> bool {
    lex_lt(a, b) || a == b
}

/// The order is irreflexive.
pub proof fn lemma_lex_lt_irrefl(a: Seq<u16>)
    ensures
        !lex_lt(a, a),
    decreases a.len(),
{
    if a.len() > 0 {
        lemma_lex_lt_irrefl(a.skip(1));
    }
}

/// The order is transitive.
pub proof fn lemma_lex_lt_trans(a: Seq<u16>, b: Seq<u16>, c: Seq<u16>)
    requires
        lex_lt(a, b),
        lex_lt(b, c),
    ensures
        lex_lt(a, c),
    decreases a.len(),
{
    if a.len() == 0 {
    } else {
        if a[0] == b[0] && b[0] == c[0] {
            lemma_lex_lt_trans(a.skip(1), b.skip(1), c.skip(1));
        }
    }
}

/// The non-strict order is transitive.
pub proof fn lemma_lex_le_trans(a: Seq<u16>, b: Seq<u16>, c: Seq<u16>)
    requires
        lex_le(a, b),
        lex_le(b, c),
    ensures
        lex_le(a, c),
{
    if a != b && b != c {
        lemma_lex_lt_trans(a, b, c);
    }
}

/// Strict order rules out equality.
pub proof fn lemma_lex_lt_neq(a: Seq<u16>, b: Seq<u16>)
    requires
        lex_lt(a, b),
    ensures
        a != b,
{
    if a == b {
        lemma_lex_lt_irrefl(a);
    }
}

/// When the first `i` units agree, the comparison is decided by the tails.
proof fn lemma_lex_lt_common_prefix(a: Seq<u16>, b: Seq<u16>, i: int)
    requires
        0 <= i <= a.len(),
        i <= b.len(),
        forall|j: int| 0 <= j < i ==> a[j] == b[j],
    ensures
        lex_lt(a, b) == lex_lt(a.skip(i), b.skip(i)),
    decreases i,
{
    if i > 0 {
        assert(a.skip(1).skip(i - 1) =~= a.skip(i));
        assert(b.skip(1).skip(i - 1) =~= b.skip(i));
        assert(forall|j: int| 0 <= j < i - 1 ==> a.skip(1)[j] == b.skip(1)[j]);
        lemma_lex_lt_common_prefix(a.skip(1), b.skip(1), i - 1);
        assert(a[0] == b[0]);
    } else {
        assert(a.skip(0) =~= a);
        assert(b.skip(0) =~= b);
    }
}

/// Strict ascending lexicographic order over a sequence of paths: sorted
/// and, in particular, free of duplicates.
pub open spec fn strictly_sorted(s: Seq<Seq<u16>>) -> bool {
    forall|i: int, j: int| 0 <= i < j < s.len() ==> lex_lt(s[i], s[j])
}

pub proof fn lemma_strictly_sorted_no_duplicates(s: Seq<Seq<u16>>)
    requires
        strictly_sorted(s),
    ensures
        s.no_duplicates(),
{
    assert forall|i: int, j: int|
        0 <= i < s.len() && 0 <= j < s.len() && i != j implies s[i] != s[j] by {
        if i < j {
            lemma_lex_lt_neq(s[i], s[j]);
        } else {
            lemma_lex_lt_neq(s[j], s[i]);
        }
    }
}

/// A strictly sorted sequence is determined by its members: two of them
/// with the same members are equal. A contract that fixes a result's
/// membership and strict sortedness therefore fixes the result.
pub proof fn lemma_strictly_sorted_unique(x: Seq<Seq<u16>>, y: Seq<Seq<u16>>)
    requires
        strictly_sorted(x),
        strictly_sorted(y),
        forall|q: Seq<u16>| x.contains(q) <==> y.contains(q),
    ensures
        x =~= y,
    decreases x.len(),
{
    if x.len() == 0 {
        if y.len() > 0 {
            assert(y.contains(y[0]));
            assert(x.contains(y[0]));
        }
    } else {
        assert(x.contains(x[0]));
        assert(y.contains(x[0]));
        assert(y.len() > 0);
        // the heads are each sequence's least member, so they agree
        assert(x[0] == y[0]) by {
            let kx = choose|k: int| 0 <= k < y.len() && y[k] == x[0];
            let ky = choose|k: int| 0 <= k < x.len() && x[k] == y[0];
            assert(y.contains(y[0]));
            assert(x.contains(y[0]));
            assert(x[ky] == y[0]);
            if kx > 0 {
                assert(lex_lt(y[0], y[kx]));
            }
            if ky > 0 {
                assert(lex_lt(x[0], x[ky]));
            }
            if kx > 0 && ky > 0 {
                lemma_lex_lt_trans(x[0], y[0], x[0]);
                lemma_lex_lt_irrefl(x[0]);
            }
        }
        assert forall|q: Seq<u16>| x.skip(1).contains(q) <==> y.skip(1).contains(q) by {
            lemma_head_tail_membership(x, q);
            lemma_head_tail_membership(y, q);
        }
        lemma_strictly_sorted_unique(x.skip(1), y.skip(1));
        assert forall|i: int| 0 <= i < x.len() implies x[i] == y[i] by {
            if i > 0 {
                assert(x.skip(1)[i - 1] == y.skip(1)[i - 1]);
            }
        }
    }
}

/// In a strictly sorted sequence, a member of the tail is a member other
/// than the head.
proof fn lemma_head_tail_membership(s: Seq<Seq<u16>>, q: Seq<u16>)
    requires
        strictly_sorted(s),
        s.len() > 0,
    ensures
        s.skip(1).contains(q) <==> (s.contains(q) && q != s[0]),
{
    if s.skip(1).contains(q) {
        let k = choose|k: int| 0 <= k < s.skip(1).len() && s.skip(1)[k] == q;
        assert(s[k + 1] == q);
        assert(lex_lt(s[0], s[k + 1]));
        lemma_lex_lt_neq(s[0], q);
        assert(s.contains(q));
    }
    if s.contains(q) && q != s[0] {
        let k = choose|k: int| 0 <= k < s.len() && s[k] == q;
        assert(k > 0);
        assert(s.skip(1)[k - 1] == q);
        assert(s.skip(1).contains(q));
    }
}

/// Three-way outcome of a path comparison.
#[derive(PartialEq, Eq, Structural, Clone, Copy, Debug)]
pub enum PathOrder {
    Less,
    Equal,
    Greater,
}

/// Three-way lexicographic comparison of two code-unit strings, exact with
/// respect to `lex_lt`.
pub fn lex_cmp(a: &Vec<u16>, b: &Vec<u16>) -> (r: PathOrder)
    ensures
        r is Less <==> lex_lt(a@, b@),
        r is Equal <==> a@ == b@,
        r is Greater <==> lex_lt(b@, a@),
{
    let mut i: usize = 0;
    let n = if a.len() < b.len() {
        a.len()
    } else {
        b.len()
    };
    while i < n
        invariant
            0 <= i <= n,
            n == if a@.len() < b@.len() {
                a@.len()
            } else {
                b@.len()
            },
            forall|j: int| 0 <= j < i ==> a@[j] == b@[j],
        decreases n - i,
    {
        let x = a[i];
        let y = b[i];
        if x < y {
            proof {
                lemma_lex_lt_common_prefix(a@, b@, i as int);
                lemma_lex_lt_common_prefix(b@, a@, i as int);
                lemma_lex_lt_neq(a@, b@);
            }
            return PathOrder::Less;
        }
        if y < x {
            proof {
                lemma_lex_lt_common_prefix(a@, b@, i as int);
                lemma_lex_lt_common_prefix(b@, a@, i as int);
                lemma_lex_lt_neq(b@, a@);
            }
            return PathOrder::Greater;
        }
        i += 1;
    }
    proof {
        lemma_lex_lt_common_prefix(a@, b@, n as int);
        lemma_lex_lt_common_prefix(b@, a@, n as int);
    }
    if a.len() < b.len() {
        proof {
            lemma_lex_lt_neq(a@, b@);
        }
        PathOrder::Less
    } else if b.len() < a.len() {
        proof {
            lemma_lex_lt_neq(b@, a@);
        }
        PathOrder::Greater
    } else {
        proof {
            assert(a@ =~= b@);
            lemma_lex_lt_irrefl(a@);
        }
        PathOrder::Equal
    }
}

/// A buffer the platform filled holds a terminated string: everything from
/// the first NUL unit on is padding. Returns the string up to (excluding)
/// the first NUL, the whole buffer if none occurs.
pub fn truncate_at_nul(buff: &Vec<u16>) -> (r: Vec<u16>)
    ensures
        r@.len() <= buff@.len(),
        r@ == buff@.subrange(0, r@.len() as int),
        forall|j: int| 0 <= j < r@.len() ==> buff@[j] != 0,
        r@.len() < buff@.len() ==> buff@[r@.len() as int] == 0,
{
    let mut out: Vec<u16> = Vec::new();
    let mut i: usize = 0;
    while i < buff.len()
        invariant
            0 <= i <= buff@.len(),
            out@ == buff@.subrange(0, i as int),
            forall|j: int| 0 <= j < i ==> buff@[j] != 0,
        decreases buff@.len() - i,
    {
        let u = buff[i];
        if u == 0 {
            return out;
        }
        out.push(u);
        proof {
            assert(out@ =~= buff@.subrange(0, i + 1 as int));
        }
        i += 1;
    }
    proof {
        assert(out@ =~= buff@.subrange(0, buff@.len() as int));
    }
    out
}

/// Decimal digits of `n`, most significant first.
pub open spec fn dec_rep(n: nat) -> Seq<u16>
    decreases n,
{
    if n < 10 {
        seq![(0x30 + n) as u16]
    } else {
        dec_rep(n / 10).push((0x30 + n % 10) as u16)
    }
}

/// Appends the decimal rendering of `n` to `out`.
pub fn push_dec(out: &mut Vec<u16>, n: usize)
    ensures
        final(out)@ == old(out)@ + dec_rep(n as nat),
    decreases n,
{
    if n >= 10 {
        push_dec(out, n / 10);
        out.push((0x30 + (n % 10) as u16) as u16);
        proof {
            assert(out@ =~= old(out)@ + dec_rep(n as nat));
        }
    } else {
        out.push(0x30 + n as u16);
        proof {
            assert(out@ =~= old(out)@ + dec_rep(n as nat));
        }
    }
}

/// Appends all of `s` to `out`.
pub fn push_all(out: &mut Vec<u16>, s: &Vec<u16>)
    ensures
        final(out)@ == old(out)@ + s@,
{
    let mut i: usize = 0;
    while i < s.len()
        invariant
            0 <= i <= s@.len(),
            out@ == old(out)@ + s@.subrange(0, i as int),
        decreases s@.len() - i,
    {
        out.push(s[i]);
        proof {
            assert(out@ =~= old(out)@ + s@.subrange(0, i + 1 as int));
        }
        i += 1;
    }
    proof {
        assert(out@ =~= old(out)@ + s@);
    }
}

} // verus!
