//! Single-pattern matcher: a border table over one literal marker, and an
//! incremental scan that reports either the first full match or the length
//! of the live suffix that must be retained for future input.
//!
//! The scan's behaviour is specified by the spec-level automaton
//! [`kstep`]/[`kscan`]: one table-driven transition per input character.
//! The lemmas below give the declarative reading needed by the processors:
//! a reported match really is an occurrence of the marker, a miss leaves a
//! partial match of the marker as the retained suffix, and rescanning that
//! retained suffix from scratch returns the automaton to the same state.
//! The construction is shown to produce the maximal table ([`wf_lps_max`]),
//! from which the scan is exact ([`lemma_kscan_live`]): a hit is the first
//! position at which the marker ends, and a miss retains the longest live
//! suffix and passes over no occurrence.

use vstd::prelude::*;

use crate::chars_of;

verus! {

/// `k` is a proper border of the prefix `p[0..i]`: a strict prefix of it
/// that is also its suffix.
pub open spec fn is_border(p: Seq<char>, i: int, k: int) -> bool {
    &&& 0 <= k < i <= p.len()
    &&& p.subrange(0, k) == p.subrange(i - k, i)
}

/// A valid border table for `p`: entry `i` holds a proper border of the
/// prefix `p[0..i+1]`.
pub open spec fn wf_lps(p: Seq<char>, l: Seq<usize>) -> bool {
    &&& l.len() == p.len()
    &&& forall|i: int| 0 <= i < l.len() ==> is_border(p, i + 1, #[trigger] l[i] as int)
}

/// A maximal border table: each entry is the longest proper border of its
/// prefix. This is what the construction computes; it is what makes the
/// scan report the first match and retain the longest live suffix.
pub open spec fn wf_lps_max(p: Seq<char>, l: Seq<usize>) -> bool {
    &&& wf_lps(p, l)
    &&& (forall|i: int, k: int|
        0 <= i < l.len() && l[i] < k < i + 1 ==> !(#[trigger] is_border(p, i + 1, k)))
}

/// The maximal border table of a pattern is unique: the marker alone
/// determines it.
pub proof fn lemma_lps_max_unique(p: Seq<char>, l1: Seq<usize>, l2: Seq<usize>)
    requires
        wf_lps_max(p, l1),
        wf_lps_max(p, l2),
    ensures
        l1 == l2,
{
    assert forall|i: int| 0 <= i < l1.len() implies l1[i] == l2[i] by {
        assert(is_border(p, i + 1, l1[i] as int));
        assert(is_border(p, i + 1, l2[i] as int));
    }
    assert(l1 =~= l2);
}

/// The first `k` characters of `p` are a suffix of `h`.
pub open spec fn is_live(p: Seq<char>, h: Seq<char>, k: int) -> bool {
    &&& 0 <= k <= p.len()
    &&& k <= h.len()
    &&& p.subrange(0, k) == h.subrange(h.len() - k, h.len() as int)
}

/// `j` is the longest prefix of `p` that is a suffix of `h`.
pub open spec fn live_ok(p: Seq<char>, h: Seq<char>, j: int) -> bool {
    &&& is_live(p, h, j)
    &&& (forall|k: int| j < k ==> !(#[trigger] is_live(p, h, k)))
}

/// Two borders of one prefix nest: the shorter is a border of the longer.
pub proof fn lemma_border_chain(p: Seq<char>, i: int, b1: int, b2: int)
    requires
        is_border(p, i, b1),
        is_border(p, i, b2),
        b1 < b2,
    ensures
        b1 == 0 || is_border(p, b2, b1),
{
    if b1 > 0 {
        assert forall|x: int| 0 <= x < b1 implies p.subrange(0, b1)[x] == p.subrange(
            b2 - b1,
            b2,
        )[x] by {
            assert(p.subrange(0, b1)[x] == p.subrange(i - b1, i)[x]);
            assert(p.subrange(i - b1, i)[x] == p[i - b1 + x]);
            assert(p.subrange(b2 - b1, b2)[x] == p[b2 - b1 + x]);
            assert(p.subrange(0, b2)[b2 - b1 + x] == p[b2 - b1 + x]);
            assert(p.subrange(0, b2)[b2 - b1 + x] == p.subrange(i - b2, i)[b2 - b1 + x]);
            assert(p.subrange(i - b2, i)[b2 - b1 + x] == p[i - b2 + b2 - b1 + x]);
        }
        assert(p.subrange(0, b1) =~= p.subrange(b2 - b1, b2));
    }
}

/// A border of a prefix, shortened by its last character, borders the
/// prefix shortened by its last character; the dropped characters agree.
pub proof fn lemma_border_droplast(p: Seq<char>, i: int, m: int)
    requires
        is_border(p, i + 1, m),
        1 <= m,
    ensures
        p[m - 1] == p[i],
        m - 1 == 0 || is_border(p, i, m - 1),
{
    assert(p.subrange(0, m)[m - 1] == p.subrange(i + 1 - m, i + 1)[m - 1]);
    assert(p.subrange(i + 1 - m, i + 1)[m - 1] == p[i]);
    if m - 1 > 0 {
        assert forall|x: int| 0 <= x < m - 1 implies #[trigger] p.subrange(0, m - 1)[x]
            == p.subrange(i - (m - 1), i)[x] by {
            assert(p.subrange(0, m)[x] == p.subrange(i + 1 - m, i + 1)[x]);
            assert(p.subrange(0, m)[x] == p[x]);
            assert(p.subrange(i + 1 - m, i + 1)[x] == p[i + 1 - m + x]);
            assert(p.subrange(0, m - 1)[x] == p[x]);
            assert(p.subrange(i - (m - 1), i)[x] == p[i + 1 - m + x]);
        }
        assert(p.subrange(0, m - 1) =~= p.subrange(i - (m - 1), i));
    }
}

/// Dropping the last character of a live prefix leaves a live prefix, and
/// pins the dropped character.
pub proof fn lemma_live_drop(p: Seq<char>, h: Seq<char>, c: char, k: int)
    requires
        1 <= k,
        is_live(p, h.push(c), k),
    ensures
        p[k - 1] == c,
        is_live(p, h, k - 1),
{
    let hc = h.push(c);
    assert(p.subrange(0, k)[k - 1] == hc.subrange(hc.len() - k, hc.len() as int)[k - 1]);
    assert(p.subrange(0, k - 1) =~= h.subrange(h.len() - (k - 1), h.len() as int)) by {
        assert(forall|x: int|
            0 <= x < k ==> p.subrange(0, k)[x] == hc.subrange(hc.len() - k, hc.len() as int)[x]);
    }
}

/// A live prefix shorter than another is a border of the longer one.
pub proof fn lemma_live_to_border(p: Seq<char>, h: Seq<char>, j: int, k: int)
    requires
        is_live(p, h, j),
        is_live(p, h, k),
        0 <= k < j,
    ensures
        is_border(p, j, k),
{
    assert(p.subrange(0, k) =~= p.subrange(j - k, j)) by {
        assert(forall|x: int|
            0 <= x < k ==> p.subrange(0, k)[x] == h.subrange(h.len() - k, h.len() as int)[x]);
        assert(forall|x: int|
            0 <= x < j ==> p.subrange(0, j)[x] == h.subrange(h.len() - j, h.len() as int)[x]);
        assert(forall|x: int|
            0 <= x < k ==> #[trigger] p.subrange(j - k, j)[x] == p.subrange(0, j)[j - k + x]);
    }
}

/// A border of a live prefix is itself live.
pub proof fn lemma_border_live(p: Seq<char>, h: Seq<char>, j: int, b: int)
    requires
        is_live(p, h, j),
        is_border(p, j, b),
    ensures
        is_live(p, h, b),
{
    assert(p.subrange(0, b) =~= h.subrange(h.len() - b, h.len() as int)) by {
        assert(forall|x: int| 0 <= x < b ==> p.subrange(0, b)[x] == p.subrange(j - b, j)[x]);
        assert(forall|x: int|
            0 <= x < b ==> #[trigger] p.subrange(j - b, j)[x] == p.subrange(0, j)[j - b + x]);
        assert(forall|x: int|
            0 <= x < j ==> p.subrange(0, j)[x] == h.subrange(h.len() - j, h.len() as int)[x]);
    }
}

/// With a maximal table, one transition from a live state yields a live
/// state that is maximal among lengths up to one more than before.
proof fn lemma_kstep_livemax(p: Seq<char>, l: Seq<usize>, j: int, c: char, h: Seq<char>)
    requires
        wf_lps_max(p, l),
        is_live(p, h, j),
        0 <= j < p.len(),
    ensures
        ({
            let j1 = kstep(p, l, j, c);
            &&& is_live(p, h.push(c), j1)
            &&& j1 <= j + 1
            &&& (forall|k: int| j1 < k <= j + 1 ==> !(#[trigger] is_live(p, h.push(c), k)))
        }),
    decreases j,
{
    lemma_kstep_bounds(p, l, j, c);
    lemma_kstep_partial(p, l, j, c, h);
    let j1 = kstep(p, l, j, c);
    if 0 <= j < p.len() && p[j] == c {
    } else if j <= 0 {
        assert forall|k: int| #![trigger is_live(p, h.push(c), k)] j1 < k <= j + 1 implies !is_live(
            p,
            h.push(c),
            k,
        ) by {
            if is_live(p, h.push(c), k) {
                lemma_live_drop(p, h, c, k);
            }
        }
    } else {
        let b = l[j - 1] as int;
        assert(is_border(p, j, b));
        lemma_border_live(p, h, j, b);
        lemma_kstep_livemax(p, l, b, c, h);
        assert forall|k: int| #![trigger is_live(p, h.push(c), k)] j1 < k <= j + 1 implies !is_live(
            p,
            h.push(c),
            k,
        ) by {
            if is_live(p, h.push(c), k) {
                lemma_live_drop(p, h, c, k);
                if k == j + 1 {
                    assert(p[j] == c);
                } else if k - 1 == 0 {
                    assert(j1 < 1 && 1 <= b + 1);
                } else {
                    assert(is_live(p, h, k - 1));
                    if k - 1 < j {
                        lemma_live_to_border(p, h, j, k - 1);
                        if k - 1 > b {
                            assert(!is_border(p, j, k - 1));
                        }
                    }
                }
            }
        }
    }
}

/// With a maximal table, a transition preserves "longest live prefix".
pub proof fn lemma_kstep_live(p: Seq<char>, l: Seq<usize>, j: int, c: char, h: Seq<char>)
    requires
        wf_lps_max(p, l),
        live_ok(p, h, j),
        0 <= j < p.len(),
    ensures
        live_ok(p, h.push(c), kstep(p, l, j, c)),
{
    lemma_kstep_livemax(p, l, j, c, h);
    let j1 = kstep(p, l, j, c);
    assert forall|k: int| j1 < k implies !is_live(p, h.push(c), k) by {
        if is_live(p, h.push(c), k) {
            if k > j + 1 {
                lemma_live_drop(p, h, c, k);
                assert(!is_live(p, h, k - 1));
            } else {
                assert(!is_live(p, h.push(c), k + 0));
            }
        }
    }
}

/// With a maximal table the scan is exact: a hit is the first position at
/// which the marker ends, and a miss leaves the longest live suffix as the
/// state, with the marker ending nowhere.
pub proof fn lemma_kscan_live(p: Seq<char>, l: Seq<usize>, j: int, s: Seq<char>, h: Seq<char>)
    requires
        wf_lps_max(p, l),
        live_ok(p, h, j),
        0 <= j < p.len(),
    ensures
        ({
            match kscan(p, l, j, s) {
                KScan::Miss(jf) => live_ok(p, h + s, jf) && (forall|e2: int|
                    0 <= e2 <= s.len() ==> !is_live(p, h + #[trigger] s.take(e2), p.len() as int)),
                KScan::Hit(e) => is_live(p, h + s.take(e), p.len() as int) && (forall|e2: int|
                    0 <= e2 < e ==> !is_live(p, h + #[trigger] s.take(e2), p.len() as int)),
            }
        }),
    decreases s.len(),
{
    if s.len() == 0 {
        assert(h + s =~= h);
        assert forall|e2: int| 0 <= e2 <= s.len() implies !is_live(
            p,
            h + s.take(e2),
            p.len() as int,
        ) by {
            assert(h + s.take(e2) =~= h);
            assert(!is_live(p, h, p.len() as int));
        }
    } else {
        let j1 = kstep(p, l, j, s[0]);
        lemma_kstep_live(p, l, j, s[0], h);
        let h1 = h.push(s[0]);
        assert(h + s.take(1) =~= h1);
        if j1 == p.len() {
            assert forall|e2: int| 0 <= e2 < 1 implies !is_live(
                p,
                h + s.take(e2),
                p.len() as int,
            ) by {
                assert(h + s.take(e2) =~= h);
                assert(!is_live(p, h, p.len() as int));
            }
        } else {
            lemma_kscan_live(p, l, j1, s.drop_first(), h1);
            lemma_kscan_facts(p, l, j1, s.drop_first(), h1);
            assert(h1 + s.drop_first() =~= h + s);
            match kscan(p, l, j1, s.drop_first()) {
                KScan::Miss(jf) => {
                    assert forall|e2: int| 0 <= e2 <= s.len() implies !is_live(
                        p,
                        h + s.take(e2),
                        p.len() as int,
                    ) by {
                        if e2 == 0 {
                            assert(h + s.take(e2) =~= h);
                            assert(!is_live(p, h, p.len() as int));
                        } else {
                            assert(h + s.take(e2) =~= h1 + s.drop_first().take(e2 - 1));
                            assert(!is_live(
                                p,
                                h1 + s.drop_first().take(e2 - 1),
                                p.len() as int,
                            ));
                        }
                    }
                },
                KScan::Hit(f) => {
                    assert(h + s.take(f + 1) =~= h1 + s.drop_first().take(f));
                    assert forall|e2: int| 0 <= e2 < f + 1 implies !is_live(
                        p,
                        h + s.take(e2),
                        p.len() as int,
                    ) by {
                        if e2 == 0 {
                            assert(h + s.take(e2) =~= h);
                            assert(!is_live(p, h, p.len() as int));
                        } else {
                            assert(h + s.take(e2) =~= h1 + s.drop_first().take(e2 - 1));
                            assert(!is_live(
                                p,
                                h1 + s.drop_first().take(e2 - 1),
                                p.len() as int,
                            ));
                        }
                    }
                },
            }
        }
    }
}

/// One transition of the matching automaton: from match length `j`, on
/// character `c`, fall back through the border table until the character
/// extends the match or the match is empty.
pub open spec fn kstep(p: Seq<char>, l: Seq<usize>, j: int, c: char) -> int
    decreases j,
    when wf_lps(p, l) && 0 <= j <= p.len()
    via kstep_dec
{
    if 0 <= j < p.len() && p[j] == c {
        j + 1
    } else if j <= 0 {
        0
    } else {
        kstep(p, l, l[j - 1] as int, c)
    }
}

#[via_fn]
proof fn kstep_dec(p: Seq<char>, l: Seq<usize>, j: int, c: char) {
    if wf_lps(p, l) && 0 <= j <= p.len() && !(0 <= j < p.len() && p[j] == c) && j > 0 {
        assert(is_border(p, j, l[j - 1] as int));
    }
}

/// The outcome of scanning a buffer: a match that completed after consuming
/// `e` characters, or no match, with the automaton left in state `j`.
pub enum KScan {
    Hit(int),
    Miss(int),
}

/// Shifts a hit position by `n` consumed characters.
pub open spec fn kshift(r: KScan, n: int) -> KScan {
    match r {
        KScan::Hit(e) => KScan::Hit(e + n),
        KScan::Miss(j) => KScan::Miss(j),
    }
}

/// Runs the automaton over `s` from state `j`, stopping at the first
/// completed match.
pub open spec fn kscan(p: Seq<char>, l: Seq<usize>, j: int, s: Seq<char>) -> KScan
    decreases s.len(),
    when wf_lps(p, l) && 0 <= j <= p.len()
    via kscan_dec
{
    if s.len() == 0 {
        KScan::Miss(j)
    } else {
        let j1 = kstep(p, l, j, s[0]);
        if j1 == p.len() {
            KScan::Hit(1)
        } else {
            kshift(kscan(p, l, j1, s.drop_first()), 1)
        }
    }
}

#[via_fn]
proof fn kscan_dec(p: Seq<char>, l: Seq<usize>, j: int, s: Seq<char>) {
    if wf_lps(p, l) && 0 <= j <= p.len() && s.len() > 0 {
        lemma_kstep_bounds(p, l, j, s[0]);
    }
}

pub proof fn lemma_kstep_bounds(p: Seq<char>, l: Seq<usize>, j: int, c: char)
    requires
        wf_lps(p, l),
        0 <= j <= p.len(),
    ensures
        0 <= kstep(p, l, j, c) <= p.len(),
        kstep(p, l, j, c) <= j + 1,
    decreases j,
{
    if !(0 <= j < p.len() && p[j] == c) && j > 0 {
        assert(is_border(p, j, l[j - 1] as int));
        lemma_kstep_bounds(p, l, l[j - 1] as int, c);
    }
}

/// Partial-match preservation: if the automaton state `j` means "the last
/// `j` characters read equal `p[0..j]`", the state after one transition
/// means the same of the extended input.
pub proof fn lemma_kstep_partial(p: Seq<char>, l: Seq<usize>, j: int, c: char, h: Seq<char>)
    requires
        wf_lps(p, l),
        0 <= j <= p.len(),
        j <= h.len(),
        p.subrange(0, j) == h.subrange(h.len() - j, h.len() as int),
    ensures
        ({
            let j1 = kstep(p, l, j, c);
            &&& 0 <= j1 <= p.len()
            &&& j1 <= h.len() + 1
            &&& p.subrange(0, j1) == h.push(c).subrange(h.len() + 1 - j1, h.len() as int + 1)
        }),
    decreases j,
{
    lemma_kstep_bounds(p, l, j, c);
    let hc = h.push(c);
    if 0 <= j < p.len() && p[j] == c {
        assert(p.subrange(0, j + 1) =~= hc.subrange(h.len() + 1 - (j + 1), h.len() as int + 1)) by {
            assert(forall|x: int|
                0 <= x < j ==> p.subrange(0, j)[x] == h.subrange(h.len() - j, h.len() as int)[x]);
        }
    } else if j <= 0 {
        assert(p.subrange(0, 0) =~= hc.subrange(h.len() as int + 1, h.len() as int + 1));
    } else {
        let b = l[j - 1] as int;
        assert(is_border(p, j, b));
        assert forall|x: int| 0 <= x < b implies p.subrange(0, b)[x] == h.subrange(
            h.len() - b,
            h.len() as int,
        )[x] by {
            assert(p.subrange(0, b)[x] == p.subrange(j - b, j)[x]);
            assert(p.subrange(j - b, j)[x] == p[j - b + x]);
            assert(p.subrange(0, j)[x + j - b] == p[j - b + x]);
            assert(p.subrange(0, j)[x + j - b] == h.subrange(h.len() - j, h.len() as int)[x + j
                - b]);
            assert(h.subrange(h.len() - j, h.len() as int)[x + j - b] == h[h.len() - b + x]);
            assert(h.subrange(h.len() - b, h.len() as int)[x] == h[h.len() - b + x]);
        }
        assert(p.subrange(0, b) =~= h.subrange(h.len() - b, h.len() as int));
        lemma_kstep_partial(p, l, b, c, h);
    }
}

/// Scanning a concatenation: scan the first part; on a miss, continue over
/// the second part from the state the first part left behind.
pub proof fn lemma_kscan_app(p: Seq<char>, l: Seq<usize>, j: int, a: Seq<char>, b: Seq<char>)
    requires
        wf_lps(p, l),
        0 <= j <= p.len(),
    ensures
        kscan(p, l, j, a + b) == (match kscan(p, l, j, a) {
            KScan::Miss(j1) => kshift(kscan(p, l, j1, b), a.len() as int),
            KScan::Hit(e) => KScan::Hit(e),
        }),
    decreases a.len(),
{
    if a.len() == 0 {
        assert(a + b =~= b);
        assert(kscan(p, l, j, a) == KScan::Miss(j));
        match kscan(p, l, j, b) {
            KScan::Hit(e) => {},
            KScan::Miss(j1) => {},
        }
    } else {
        let j1 = kstep(p, l, j, a[0]);
        lemma_kstep_bounds(p, l, j, a[0]);
        assert((a + b)[0] == a[0]);
        if j1 == p.len() {
        } else {
            assert((a + b).drop_first() =~= a.drop_first() + b);
            lemma_kscan_app(p, l, j1, a.drop_first(), b);
        }
    }
}

/// The facts a caller needs from a scan, threading the partial-match
/// interpretation of the start state: a hit is a real occurrence of the
/// marker ending where reported, and a miss leaves the marker's prefix of
/// length `j` as the suffix of everything read.
pub proof fn lemma_kscan_facts(p: Seq<char>, l: Seq<usize>, j: int, s: Seq<char>, h: Seq<char>)
    requires
        wf_lps(p, l),
        0 <= j < p.len(),
        j <= h.len(),
        p.subrange(0, j) == h.subrange(h.len() - j, h.len() as int),
    ensures
        ({
            match kscan(p, l, j, s) {
                KScan::Miss(jf) => {
                    &&& 0 <= jf < p.len()
                    &&& jf <= h.len() + s.len()
                    &&& p.subrange(0, jf) == (h + s).subrange(
                        h.len() + s.len() - jf,
                        (h.len() + s.len()) as int,
                    )
                },
                KScan::Hit(e) => {
                    &&& 1 <= e <= s.len()
                    &&& p.len() <= h.len() + e
                    &&& (h + s.take(e)).subrange(h.len() + e - p.len(), h.len() + e) == p
                },
            }
        }),
    decreases s.len(),
{
    if s.len() == 0 {
        assert(p.subrange(0, j) =~= (h + s).subrange(
            h.len() + s.len() - j,
            (h.len() + s.len()) as int,
        ));
    } else {
        let j1 = kstep(p, l, j, s[0]);
        lemma_kstep_partial(p, l, j, s[0], h);
        let h1 = h.push(s[0]);
        if j1 == p.len() {
            assert((h + s.take(1)) =~= h1);
            assert(p.subrange(0, p.len() as int) =~= p);
        } else {
            lemma_kscan_facts(p, l, j1, s.drop_first(), h1);
            match kscan(p, l, j1, s.drop_first()) {
                KScan::Miss(jf) => {
                    assert(h1 + s.drop_first() =~= h + s);
                },
                KScan::Hit(e) => {
                    assert(h1 + s.drop_first().take(e) =~= h + s.take(e + 1));
                },
            }
        }
    }
}

/// Range facts that hold of any scan: a hit consumes at least one and at
/// most all characters, a miss leaves a state within the table's bounds.
pub proof fn lemma_kscan_bounds(p: Seq<char>, l: Seq<usize>, j: int, s: Seq<char>)
    requires
        wf_lps(p, l),
        0 <= j <= p.len(),
    ensures
        ({
            match kscan(p, l, j, s) {
                KScan::Hit(e) => 1 <= e <= s.len(),
                KScan::Miss(jf) => 0 <= jf <= p.len() && jf <= j + s.len(),
            }
        }),
    decreases s.len(),
{
    if s.len() > 0 {
        let j1 = kstep(p, l, j, s[0]);
        lemma_kstep_bounds(p, l, j, s[0]);
        if j1 != p.len() {
            lemma_kscan_bounds(p, l, j1, s.drop_first());
        }
    }
}

/// Rescanning the marker's own prefix of length `j` from scratch returns
/// the automaton to state `j` without firing: retained live suffixes can be
/// carried across calls.
pub proof fn lemma_kscan_rescan(p: Seq<char>, l: Seq<usize>, j: int)
    requires
        wf_lps(p, l),
        0 <= j < p.len(),
    ensures
        kscan(p, l, 0, p.subrange(0, j)) == KScan::Miss(j),
    decreases j,
{
    if j == 0 {
        assert(p.subrange(0, 0).len() == 0);
    } else {
        lemma_kscan_rescan(p, l, j - 1);
        let single = seq![p[j - 1]];
        assert(p.subrange(0, j - 1) + single =~= p.subrange(0, j));
        lemma_kscan_app(p, l, 0, p.subrange(0, j - 1), single);
        assert(kstep(p, l, j - 1, single[0]) == j);
        assert(single.drop_first().len() == 0);
        assert(kscan(p, l, j, single.drop_first()) == KScan::Miss(j));
    }
}

/// One configured marker with its border table.
pub struct Kpair {
    pub mark: Vec<char>,
    pub lps: Vec<usize>,
}

impl Kpair {
    /// The marker's table is a maximal border table.
    pub open spec fn wf(&self) -> bool {
        wf_lps_max(self.mark@, self.lps@)
    }
}

/// Builds the matcher state for one marker.
pub fn new(mark: &str) -> (k: Kpair)
    ensures
        k.mark@ == mark@,
        k.wf(),
{
    let m = chars_of(mark);
    let l = gen_lps_chars(&m);
    Kpair { mark: m, lps: l }
}

/// Computes a border table for `pat`: the classic prefix-function
/// construction, one entry per pattern position.
pub fn gen_lps(pat: &str) -> (l: Vec<usize>)
    ensures
        wf_lps_max(pat@, l@),
{
    let p = chars_of(pat);
    gen_lps_chars(&p)
}

/// Border-table construction over the pattern's characters: the classic
/// prefix-function loop, shown to compute the longest border of every
/// prefix.
pub(crate) fn gen_lps_chars(pat: &Vec<char>) -> (l: Vec<usize>)
    ensures
        wf_lps_max(pat@, l@),
{
    let n = pat.len();
    let mut lps: Vec<usize> = vec![0usize; n];
    let mut i: usize = 1;
    let mut j: usize = 0;

    proof {
        if n > 0 {
            assert(pat@.subrange(0, 0) =~= pat@.subrange(1, 1));
        }
    }
    while i < n
        invariant
            n == pat@.len(),
            lps@.len() == n,
            1 <= i <= n || (n == 0 && i == 1),
            j < i,
            forall|t: int| 0 <= t < i && t < n ==> is_border(pat@, t + 1, #[trigger] lps@[t] as int),
            forall|t: int, k: int|
                0 <= t < i && t < n && lps@[t] < k < t + 1 ==> !(#[trigger] is_border(
                    pat@,
                    t + 1,
                    k,
                )),
            i <= n ==> pat@.subrange(0, j as int) == pat@.subrange(i - j, i as int),
            i < n ==> (forall|m: int|
                1 <= m && #[trigger] is_border(pat@, i + 1, m) ==> m - 1 <= j && (m - 1 == 0
                    || is_border(pat@, i as int, m - 1))),
        decreases n - i, j,
    {
        if pat[i] == pat[j] {
            proof {
                assert(pat@.subrange(0, j + 1) =~= pat@.subrange(i + 1 - (j + 1), i + 1)) by {
                    assert(forall|x: int|
                        0 <= x < j ==> pat@.subrange(0, j as int)[x] == pat@.subrange(
                            i - j,
                            i as int,
                        )[x]);
                }
            }
            j = j + 1;
            lps[i] = j;
            proof {
                assert forall|k: int| (j as int) < k < i + 1 implies !(#[trigger] is_border(
                    pat@,
                    i + 1,
                    k,
                )) by {
                    if is_border(pat@, i + 1, k) {
                        assert(k - 1 <= j - 1);
                    }
                }
                if i + 1 < n {
                    assert forall|m: int| 1 <= m && #[trigger] is_border(pat@, i + 2, m) implies m
                        - 1 <= j && (m - 1 == 0 || is_border(pat@, i + 1, m - 1)) by {
                        lemma_border_droplast(pat@, i + 1, m);
                        if m - 1 > 0 {
                            assert(!(lps@[i as int] < m - 1 < i + 1));
                        }
                    }
                }
            }
            i = i + 1;
        } else if j != 0 {
            let b = lps[j - 1];
            proof {
                assert(is_border(pat@, j as int, b as int));
                let jj = j as int;
                let bb = b as int;
                assert forall|x: int| 0 <= x < bb implies pat@.subrange(0, bb)[x] == pat@.subrange(
                    i - bb,
                    i as int,
                )[x] by {
                    assert(pat@.subrange(0, bb)[x] == pat@.subrange(jj - bb, jj)[x]);
                    assert(pat@.subrange(jj - bb, jj)[x] == pat@[jj - bb + x]);
                    assert(pat@.subrange(0, jj)[x + jj - bb] == pat@.subrange(i - jj, i as int)[x
                        + jj - bb]);
                }
                assert(pat@.subrange(0, bb) =~= pat@.subrange(i - bb, i as int));
                assert forall|m: int| 1 <= m && #[trigger] is_border(pat@, i + 1, m) implies m - 1
                    <= bb && (m - 1 == 0 || is_border(pat@, i as int, m - 1)) by {
                    lemma_border_droplast(pat@, i as int, m);
                    if m - 1 != 0 {
                        assert(pat@[m - 1] == pat@[i as int]);
                        assert(m - 1 != jj);
                        assert(is_border(pat@, i as int, jj));
                        lemma_border_chain(pat@, i as int, m - 1, jj);
                        assert(!(lps@[jj - 1] < m - 1 < jj));
                    }
                }
            }
            j = b;
        } else {
            proof {
                assert(pat@.subrange(0, 0) =~= pat@.subrange(i + 1, i + 1));
            }
            lps[i] = 0;
            proof {
                assert forall|k: int| 0 < k < i + 1 implies !(#[trigger] is_border(
                    pat@,
                    i + 1,
                    k,
                )) by {
                    if is_border(pat@, i + 1, k) {
                        lemma_border_droplast(pat@, i as int, k);
                        assert(k - 1 <= 0);
                        assert(pat@[0] == pat@[i as int]);
                    }
                }
                if i + 1 < n {
                    assert forall|m: int| 1 <= m && #[trigger] is_border(pat@, i + 2, m) implies m
                        - 1 <= 0 && (m - 1 == 0 || is_border(pat@, i + 1, m - 1)) by {
                        lemma_border_droplast(pat@, i + 1, m);
                        if m - 1 > 0 {
                            assert(!(lps@[i as int] < m - 1 < i + 1));
                        }
                    }
                }
            }
            i = i + 1;
        }
    }
    lps
}

/// Scans `s` for `pat`, using `pat`'s border table. Returns the start
/// offset of the first full match and `true`, or, with `false`, the number
/// of leading characters that are provably not part of a future match.
pub fn do_match(pat: &str, s: &str, lps: &Vec<usize>) -> (r: (usize, bool))
    requires
        wf_lps(pat@, lps@),
        pat@.len() > 0,
    ensures
        ({
            match kscan(pat@, lps@, 0, s@) {
                KScan::Hit(e) => r.1 == true && r.0 == e - pat@.len() && e <= s@.len()
                    && s@.subrange(r.0 as int, e) == pat@,
                KScan::Miss(j) => r.1 == false && r.0 == s@.len() - j && 0 <= j < pat@.len()
                    && j <= s@.len() && s@.subrange(r.0 as int, s@.len() as int) == pat@.subrange(
                    0,
                    j,
                ),
            }
        }),
        wf_lps_max(pat@, lps@) ==> (match kscan(pat@, lps@, 0, s@) {
            KScan::Hit(e) => forall|e2: int|
                0 <= e2 < e ==> !is_live(pat@, #[trigger] s@.take(e2), pat@.len() as int),
            KScan::Miss(j) => live_ok(pat@, s@, j) && (forall|e2: int|
                0 <= e2 <= s@.len() ==> !is_live(pat@, #[trigger] s@.take(e2), pat@.len() as int)),
        }),
{
    let pv = chars_of(pat);
    let sv = chars_of(s);
    do_match_chars(&pv, &sv, lps)
}

/// The scan over character vectors; the matcher engines and processors use
/// this form directly.
pub fn do_match_chars(pat: &Vec<char>, s: &Vec<char>, lps: &Vec<usize>) -> (r: (usize, bool))
    requires
        wf_lps(pat@, lps@),
        pat@.len() > 0,
    ensures
        ({
            match kscan(pat@, lps@, 0, s@) {
                KScan::Hit(e) => r.1 == true && r.0 == e - pat@.len() && e <= s@.len()
                    && s@.subrange(r.0 as int, e) == pat@,
                KScan::Miss(j) => r.1 == false && r.0 == s@.len() - j && 0 <= j < pat@.len()
                    && j <= s@.len() && s@.subrange(r.0 as int, s@.len() as int) == pat@.subrange(
                    0,
                    j,
                ),
            }
        }),
        // with a maximal table, the reported match is the first occurrence
        // and a miss retains exactly the longest live suffix
        wf_lps_max(pat@, lps@) ==> (match kscan(pat@, lps@, 0, s@) {
            KScan::Hit(e) => forall|e2: int|
                0 <= e2 < e ==> !is_live(pat@, #[trigger] s@.take(e2), pat@.len() as int),
            KScan::Miss(j) => live_ok(pat@, s@, j) && (forall|e2: int|
                0 <= e2 <= s@.len() ==> !is_live(pat@, #[trigger] s@.take(e2), pat@.len() as int)),
        }),
{
    proof {
        if wf_lps_max(pat@, lps@) {
            assert(pat@.subrange(0, 0) =~= Seq::<char>::empty().subrange(0, 0));
            assert(is_live(pat@, Seq::<char>::empty(), 0));
            assert(live_ok(pat@, Seq::<char>::empty(), 0));
            lemma_kscan_live(pat@, lps@, 0, s@, Seq::<char>::empty());
            assert(Seq::<char>::empty() + s@ =~= s@);
            match kscan(pat@, lps@, 0, s@) {
                KScan::Hit(e) => {
                    assert forall|e2: int| 0 <= e2 < e implies !is_live(
                        pat@,
                        #[trigger] s@.take(e2),
                        pat@.len() as int,
                    ) by {
                        assert(Seq::<char>::empty() + s@.take(e2) =~= s@.take(e2));
                    }
                },
                KScan::Miss(j) => {
                    assert forall|e2: int| 0 <= e2 <= s@.len() implies !is_live(
                        pat@,
                        #[trigger] s@.take(e2),
                        pat@.len() as int,
                    ) by {
                        assert(Seq::<char>::empty() + s@.take(e2) =~= s@.take(e2));
                    }
                },
            }
        }
    }
    let ghost target = kscan(pat@, lps@, 0, s@);
    let n = s.len();
    let m = pat.len();
    let mut i: usize = 0;
    let mut j: usize = 0;

    proof {
        assert(s@.skip(0) =~= s@);
    }
    while i < n
        invariant
            wf_lps(pat@, lps@),
            0 < m == pat@.len(),
            n == s@.len(),
            0 <= j < m,
            j <= i <= n,
            pat@.subrange(0, j as int) == s@.subrange(i - j, i as int),
            target == kscan(pat@, lps@, 0, s@),
            wf_lps_max(pat@, lps@) ==> (match target {
                KScan::Hit(e) => forall|e2: int|
                    0 <= e2 < e ==> !is_live(pat@, #[trigger] s@.take(e2), pat@.len() as int),
                KScan::Miss(jf) => live_ok(pat@, s@, jf) && (forall|e2: int|
                    0 <= e2 <= s@.len() ==> !is_live(
                        pat@,
                        #[trigger] s@.take(e2),
                        pat@.len() as int,
                    )),
            }),
            kshift(kscan(pat@, lps@, j as int, s@.skip(i as int)), i as int) == target,
        decreases n - i, j,
    {
        let c = s[i];
        proof {
            assert(s@.skip(i as int)[0] == s@[i as int]);
            assert(s@.skip(i as int).drop_first() =~= s@.skip(i + 1));
        }
        if pat[j] == c {
            proof {
                assert(kstep(pat@, lps@, j as int, c) == j + 1);
                assert(pat@.subrange(0, j + 1) =~= s@.subrange(i + 1 - (j + 1), i + 1)) by {
                    assert(forall|x: int|
                        0 <= x < j ==> pat@.subrange(0, j as int)[x] == s@.subrange(
                            i - j,
                            i as int,
                        )[x]);
                }
            }
            i = i + 1;
            j = j + 1;
            if j == m {
                proof {
                    assert(kscan(pat@, lps@, (j - 1) as int, s@.skip(i - 1)) == KScan::Hit(1));
                    assert(target == KScan::Hit(i as int));
                    assert(pat@.subrange(0, m as int) =~= pat@);
                    assert(s@.subrange(i - m, i as int) == pat@.subrange(0, m as int));
                    assert(s@.subrange(i - m, i as int) == pat@);
                    assert((i - m) as int == i as int - pat@.len());
                    assert(m == pat@.len());
                }
                return (i - m, true);
            }
        } else if j == 0 {
            proof {
                assert(kstep(pat@, lps@, 0, c) == 0);
                assert(pat@.subrange(0, 0) =~= s@.subrange(i + 1, i + 1));
            }
            i = i + 1;
        } else {
            let b = lps[j - 1];
            proof {
                assert(is_border(pat@, j as int, b as int));
                assert(kstep(pat@, lps@, j as int, c) == kstep(pat@, lps@, b as int, c));
                let jj = j as int;
                let bb = b as int;
                assert forall|x: int| 0 <= x < bb implies pat@.subrange(0, bb)[x] == s@.subrange(
                    i - bb,
                    i as int,
                )[x] by {
                    assert(pat@.subrange(0, bb)[x] == pat@.subrange(jj - bb, jj)[x]);
                    assert(pat@.subrange(jj - bb, jj)[x] == pat@[jj - bb + x]);
                    assert(pat@.subrange(0, jj)[x + jj - bb] == s@.subrange(i - jj, i as int)[x + jj
                        - bb]);
                }
                assert(pat@.subrange(0, bb) =~= s@.subrange(i - bb, i as int));
            }
            j = b;
        }
    }
    proof {
        assert(s@.skip(n as int).len() == 0);
        assert(kscan(pat@, lps@, j as int, s@.skip(n as int)) == KScan::Miss(j as int));
        assert(target == KScan::Miss(j as int));
    }
    (n - j, false)
}

} // verus!
