//! Multi-pattern matcher: a trie over all configured start markers with
//! per-node failure links, scanned incrementally.
//!
//! Every node carries a ghost label: the text spelled from the root. The
//! invariant [`Ahoca::wf`] ties each edge, failure link and terminal flag
//! to those labels, so a reported match is provably an occurrence of a
//! configured marker, and the retained live suffix is provably the label
//! of the node the scan stopped in. Scanning is specified by the spec
//! automaton [`Ahoca::aget`] / [`Ahoca::aretreat`] / [`Ahoca::ascan`]: a
//! transition per character, with a retreat along failure links out of
//! dead ends, firing when the retreat meets a terminal leaf. Node labels
//! are unique and each is a prefix of a configured marker; construction
//! ends with every failure link maximal ([`Ahoca::fail_maximal`]): it
//! reaches the longest proper suffix of the node's label that the trie
//! spells, and a duplicated start marker keeps the last pair's flag.

use vstd::prelude::*;

use crate::{chars_of, string_of, Tpair};

verus! {

/// `a` is a suffix of `b`.
pub open spec fn is_suffix(a: Seq<char>, b: Seq<char>) -> bool {
    &&& a.len() <= b.len()
    &&& a == b.subrange(b.len() - a.len(), b.len() as int)
}

/// First edge on `c` in an edge list, from position `i` on.
pub open spec fn edge_find(es: Seq<(char, usize)>, c: char, i: int) -> Option<int>
    decreases es.len() - i,
{
    if i < 0 || i >= es.len() {
        None
    } else if es[i].0 == c {
        Some(es[i].1 as int)
    } else {
        edge_find(es, c, i + 1)
    }
}

proof fn lemma_edge_find_push_none(es: Seq<(char, usize)>, c: char, x: (char, usize), i: int)
    requires
        edge_find(es, c, i) is None,
        0 <= i <= es.len(),
    ensures
        edge_find(es.push(x), c, i) == (if x.0 == c {
            Some(x.1 as int)
        } else {
            Option::<int>::None
        }),
    decreases es.len() - i,
{
    if i < es.len() {
        lemma_edge_find_push_none(es, c, x, i + 1);
        assert(es.push(x)[i] == es[i]);
    } else {
        assert(es.push(x)[i] == x);
        assert(edge_find(es.push(x), c, i + 1) is None);
    }
}

proof fn lemma_edge_find_push_some(es: Seq<(char, usize)>, c: char, x: (char, usize), i: int)
    requires
        edge_find(es, c, i) is Some,
        0 <= i,
    ensures
        edge_find(es.push(x), c, i) == edge_find(es, c, i),
    decreases es.len() - i,
{
    if i < es.len() && es[i].0 != c {
        lemma_edge_find_push_some(es, c, x, i + 1);
    }
}

/// The outcome of retreating out of a dead end: a marker fired, or the
/// scan stays live in the given node.
pub enum ARes {
    Fire(int),
    Stay(int),
}

/// The outcome of scanning a buffer: marker `k` completed after consuming
/// `e` characters, or no marker completed and the scan stopped in node `t`.
pub enum AScan {
    Hit { e: int, k: int },
    Miss { t: int },
}

/// Shifts a hit position by `n` consumed characters.
pub open spec fn ashift(r: AScan, n: int) -> AScan {
    match r {
        AScan::Hit { e, k } => AScan::Hit { e: e + n, k },
        AScan::Miss { t } => AScan::Miss { t },
    }
}

/// The multi-pattern matching automaton: a trie with failure links.
pub struct Ahoca {
    span: Vec<usize>,
    fail: Vec<usize>,
    trie: Vec<Vec<(char, usize)>>,
    exist: Vec<Option<usize>>,
    pats: Vec<Vec<char>>,
    labels: Ghost<Seq<Seq<char>>>,
    parent: Ghost<Seq<(int, char)>>,
    owner: Ghost<Seq<int>>,
}

impl Ahoca {
    /// Number of trie nodes.
    pub closed spec fn nlen(&self) -> int {
        self.trie@.len() as int
    }

    /// The text spelled from the root to node `t`.
    pub closed spec fn label(&self, t: int) -> Seq<char> {
        self.labels@[t]
    }

    /// The depth of node `t`.
    pub closed spec fn spanv(&self, t: int) -> int {
        self.span@[t] as int
    }

    /// Number of configured patterns.
    pub closed spec fn npats(&self) -> int {
        self.pats@.len() as int
    }

    /// The text of pattern `k`.
    pub closed spec fn patv(&self, k: int) -> Seq<char> {
        self.pats@[k]@
    }

    /// Some node is flagged terminal for text of pattern `k`: the pattern
    /// was indexed by construction (for duplicated start markers, the last
    /// configured pair's flag survives).
    pub closed spec fn has_terminal_for(&self, k: int) -> bool {
        exists|q: int|
            0 <= q < self.nlen() && self.labels@[q] == self.pats@[k]@ && self.exist@[q] is Some
    }

    /// Some node spells exactly the text `s`.
    pub closed spec fn has_node_for(&self, s: Seq<char>) -> bool {
        exists|q: int| 0 <= q < self.nlen() && self.labels@[q] == s
    }

    /// Whether a marker completes exactly at node `q`.
    pub closed spec fn is_terminal(&self, q: int) -> bool {
        self.exist@[q] is Some
    }

    /// The pattern whose marker completes at node `q`, if any.
    pub closed spec fn terminal_of(&self, q: int) -> Option<usize> {
        self.exist@[q]
    }

    /// A node the scan may rest in: the root, or a node with children.
    pub closed spec fn quiescent(&self, t: int) -> bool {
        t == 0 || self.trie@[t]@.len() > 0
    }

    /// First edge out of `t` on `c`.
    pub closed spec fn edge_lookup(&self, t: int, c: char) -> Option<int> {
        edge_find(self.trie@[t]@, c, 0)
    }

    /// The automaton's invariant, tying edges, failure links, depths and
    /// terminal flags to the ghost labels.
    pub closed spec fn wf(&self) -> bool {
        let n = self.nlen();
        &&& self.span@.len() == n
        &&& self.fail@.len() == n
        &&& self.exist@.len() == n
        &&& self.labels@.len() == n
        &&& self.parent@.len() == n
        &&& n >= 1
        &&& self.labels@[0] == Seq::<char>::empty()
        &&& (forall|q: int| 0 <= q < n ==> #[trigger] self.span@[q] == self.labels@[q].len())
        &&& (forall|q: int|
            1 <= q < n ==> {
                let pc = #[trigger] self.parent@[q];
                &&& 0 <= pc.0 < n
                &&& self.edge_lookup(pc.0, pc.1) == Some(q)
                &&& self.labels@[q] == self.labels@[pc.0].push(pc.1)
            })
        &&& (forall|p: int, e: int|
            0 <= p < n && 0 <= e < self.trie@[p]@.len() ==> {
                let edge = #[trigger] self.trie@[p]@[e];
                &&& 1 <= edge.1 < n
                &&& self.labels@[edge.1 as int] == self.labels@[p].push(edge.0)
                &&& self.parent@[edge.1 as int] == (p as int, edge.0)
            })
        &&& (forall|q: int|
            1 <= q < n ==> {
                let f = #[trigger] self.fail@[q] as int;
                &&& 0 <= f < n
                &&& self.labels@[f].len() < self.labels@[q].len()
                &&& is_suffix(self.labels@[f], self.labels@[q])
            })
        &&& (forall|q: int|
            0 <= q < n ==> match #[trigger] self.exist@[q] {
                Some(k) => {
                    &&& 0 <= k < self.pats@.len()
                    &&& self.labels@[q] == self.pats@[k as int]@
                    &&& self.pats@[k as int]@.len() > 0
                },
                None => true,
            })
        &&& self.owner@.len() == n
        &&& (forall|q1: int, q2: int|
            0 <= q1 < n && 0 <= q2 < n && #[trigger] self.labels@[q1] == #[trigger] self.labels@[q2]
                ==> q1 == q2)
        &&& (forall|q: int|
            1 <= q < n ==> 0 <= #[trigger] self.owner@[q] < self.pats@.len()
                && self.labels@[q] == self.pats@[self.owner@[q]]@.take(self.labels@[q].len() as int))
    }

    /// One transition: follow the edge on `c`, else fall back along
    /// failure links until an edge exists or the root is reached.
    pub closed spec fn aget(&self, t: int, c: char) -> int
        decreases self.spanv(t),
        when self.wf() && 0 <= t < self.nlen()
        via Ahoca::aget_dec
    {
        match self.edge_lookup(t, c) {
            Some(q) => q,
            None => {
                if t == 0 {
                    0
                } else {
                    self.aget(self.fail@[t] as int, c)
                }
            },
        }
    }

    #[via_fn]
    proof fn aget_dec(&self, t: int, c: char) {
        if self.wf() && 0 <= t < self.nlen() && self.edge_lookup(t, c) is None && t != 0 {
            assert(self.labels@[self.fail@[t] as int].len() < self.labels@[t].len());
        }
    }

    /// Retreat out of dead ends: from a childless non-root node, fire its
    /// marker if it is terminal, else fall back along the failure link.
    pub closed spec fn aretreat(&self, t: int) -> ARes
        decreases self.spanv(t),
        when self.wf() && 0 <= t < self.nlen()
        via Ahoca::aretreat_dec
    {
        if t == 0 || self.trie@[t]@.len() > 0 {
            ARes::Stay(t)
        } else {
            match self.exist@[t] {
                Some(k) => ARes::Fire(k as int),
                None => self.aretreat(self.fail@[t] as int),
            }
        }
    }

    #[via_fn]
    proof fn aretreat_dec(&self, t: int) {
        if self.wf() && 0 < t < self.nlen() && self.trie@[t]@.len() == 0 && self.exist@[t] is None {
            assert(self.labels@[self.fail@[t] as int].len() < self.labels@[t].len());
        }
    }

    /// Scans `s` from node `t`, stopping at the first fired marker.
    pub closed spec fn ascan(&self, t: int, s: Seq<char>) -> AScan
        decreases s.len(),
        when self.wf() && 0 <= t < self.nlen()
        via Ahoca::ascan_dec
    {
        if s.len() == 0 {
            AScan::Miss { t }
        } else {
            let t1 = self.aget(t, s[0]);
            match self.aretreat(t1) {
                ARes::Fire(k) => AScan::Hit { e: 1, k },
                ARes::Stay(t2) => ashift(self.ascan(t2, s.drop_first()), 1),
            }
        }
    }

    #[via_fn]
    proof fn ascan_dec(&self, t: int, s: Seq<char>) {
        if self.wf() && 0 <= t < self.nlen() && s.len() > 0 {
            self.lemma_aget_range(t, s[0]);
            match self.aretreat(self.aget(t, s[0])) {
                ARes::Fire(k) => {},
                ARes::Stay(t2) => {
                    self.lemma_aretreat_range(self.aget(t, s[0]));
                },
            }
        }
    }

    /// The transition stays within the node set and its target's label
    /// extends a suffix of what has been read.
    pub proof fn lemma_aget_range(&self, t: int, c: char)
        requires
            self.wf(),
            0 <= t < self.nlen(),
        ensures
            0 <= self.aget(t, c) < self.nlen(),
            is_suffix(self.label(self.aget(t, c)), self.label(t).push(c)),
        decreases self.spanv(t),
    {
        match self.edge_lookup(t, c) {
            Some(q) => {
                self.lemma_edge_lookup_valid(t, c);
                assert(self.label(q) =~= self.label(t).push(c).subrange(
                    0,
                    self.label(t).len() as int + 1,
                ));
            },
            None => {
                if t == 0 {
                    assert(self.label(0).len() == 0);
                    assert(self.label(0) =~= self.label(t).push(c).subrange(
                        self.label(t).len() as int + 1,
                        self.label(t).len() as int + 1,
                    ));
                } else {
                    let f = self.fail@[t] as int;
                    self.lemma_aget_range(f, c);
                    let r = self.aget(f, c);
                    assert(self.label(r) =~= self.label(t).push(c).subrange(
                        self.label(t).len() + 1 - self.label(r).len(),
                        self.label(t).len() as int + 1,
                    )) by {
                        assert(is_suffix(self.label(r), self.label(f).push(c)));
                        assert(is_suffix(self.label(f), self.label(t)));
                    }
                }
            },
        }
    }

    /// A successful lookup returns a real edge of the trie.
    pub proof fn lemma_edge_lookup_valid(&self, t: int, c: char)
        requires
            self.wf(),
            0 <= t < self.nlen(),
            self.edge_lookup(t, c) is Some,
        ensures
            ({
                let q = self.edge_lookup(t, c)->Some_0;
                &&& 1 <= q < self.nlen()
                &&& self.label(q) == self.label(t).push(c)
                &&& self.quiescent(t)
            }),
    {
        self.lemma_edge_find_hit(self.trie@[t]@, t, c, 0);
    }

    proof fn lemma_edge_find_hit(&self, es: Seq<(char, usize)>, t: int, c: char, i: int)
        requires
            self.wf(),
            0 <= t < self.nlen(),
            es == self.trie@[t]@,
            0 <= i,
            edge_find(es, c, i) is Some,
        ensures
            ({
                let q = edge_find(es, c, i)->Some_0;
                &&& 1 <= q < self.nlen()
                &&& self.label(q) == self.label(t).push(c)
            }),
        decreases es.len() - i,
    {
        if i < es.len() {
            if es[i].0 == c {
                assert(self.trie@[t]@[i] == es[i]);
            } else {
                self.lemma_edge_find_hit(es, t, c, i + 1);
            }
        }
    }

    /// The retreat stays within the node set; a fired marker is a suffix
    /// of the node's label, a survived node keeps a suffix of it.
    pub proof fn lemma_aretreat_range(&self, t: int)
        requires
            self.wf(),
            0 <= t < self.nlen(),
        ensures
            ({
                match self.aretreat(t) {
                    ARes::Fire(k) => {
                        &&& 0 <= k < self.npats()
                        &&& self.patv(k).len() > 0
                        &&& is_suffix(self.patv(k), self.label(t))
                    },
                    ARes::Stay(t2) => {
                        &&& 0 <= t2 < self.nlen()
                        &&& self.quiescent(t2)
                        &&& is_suffix(self.label(t2), self.label(t))
                    },
                }
            }),
        decreases self.spanv(t),
    {
        if t == 0 || self.trie@[t]@.len() > 0 {
            assert(self.label(t) =~= self.label(t).subrange(0, self.label(t).len() as int));
        } else {
            match self.exist@[t] {
                Some(k) => {
                    assert(self.label(t) =~= self.label(t).subrange(0, self.label(t).len() as int));
                },
                None => {
                    let f = self.fail@[t] as int;
                    self.lemma_aretreat_range(f);
                    match self.aretreat(f) {
                        ARes::Fire(k) => {
                            self.lemma_suffix_trans(self.patv(k), self.label(f), self.label(t));
                        },
                        ARes::Stay(t2) => {
                            self.lemma_suffix_trans(self.label(t2), self.label(f), self.label(t));
                        },
                    }
                },
            }
        }
    }

    proof fn lemma_suffix_trans(&self, a: Seq<char>, b: Seq<char>, c: Seq<char>)
        requires
            is_suffix(a, b),
            is_suffix(b, c),
        ensures
            is_suffix(a, c),
    {
        assert(a =~= c.subrange(c.len() - a.len(), c.len() as int));
    }

    /// Two suffixes of one sequence nest: the shorter is a suffix of the
    /// longer.
    proof fn lemma_suffix_nest(&self, a: Seq<char>, b: Seq<char>, c: Seq<char>)
        requires
            is_suffix(a, c),
            is_suffix(b, c),
            a.len() <= b.len(),
        ensures
            is_suffix(a, b),
    {
        assert(a =~= b.subrange(b.len() - a.len(), b.len() as int)) by {
            assert(forall|x: int|
                0 <= x < a.len() ==> a[x] == c.subrange(c.len() - a.len(), c.len() as int)[x]);
            assert(forall|x: int|
                0 <= x < b.len() ==> b[x] == c.subrange(c.len() - b.len(), c.len() as int)[x]);
            assert(forall|x: int|
                0 <= x < a.len() ==> #[trigger] b.subrange(b.len() - a.len(), b.len() as int)[x]
                    == b[b.len() - a.len() + x]);
        }
    }

    /// A non-empty suffix of `m.push(c)` ends in `c`, and loses `c` to a
    /// suffix of `m`.
    proof fn lemma_suffix_pop(&self, l: Seq<char>, m: Seq<char>, c: char)
        requires
            is_suffix(l, m.push(c)),
            l.len() >= 1,
        ensures
            l[l.len() - 1] == c,
            is_suffix(l.subrange(0, l.len() - 1), m),
    {
        let mc = m.push(c);
        assert(l[l.len() - 1] == mc.subrange(mc.len() - l.len(), mc.len() as int)[l.len() - 1]);
        assert(l.subrange(0, l.len() - 1) =~= m.subrange(
            m.len() - (l.len() - 1),
            m.len() as int,
        )) by {
            assert(forall|x: int|
                0 <= x < l.len() ==> l[x] == mc.subrange(mc.len() - l.len(), mc.len() as int)[x]);
        }
    }

    /// Where no edge leaves `t` on `c`, no node at all spells `label(t) + c`.
    proof fn lemma_no_edge_no_node(&self, t: int, c: char)
        requires
            self.wf(),
            0 <= t < self.nlen(),
            self.edge_lookup(t, c) is None,
        ensures
            forall|q: int|
                0 <= q < self.nlen() ==> #[trigger] self.labels@[q] != self.labels@[t].push(c),
    {
        assert forall|q: int| 0 <= q < self.nlen() implies #[trigger] self.labels@[q]
            != self.labels@[t].push(c) by {
            if self.labels@[q] == self.labels@[t].push(c) {
                assert(q >= 1) by {
                    assert(self.labels@[q].len() > 0);
                }
                let pc = self.parent@[q];
                assert(self.labels@[pc.0].push(pc.1) == self.labels@[t].push(c));
                assert(self.labels@[pc.0].push(pc.1).len() == self.labels@[t].push(c).len());
                assert(self.labels@[pc.0].len() == self.labels@[t].len());
                assert forall|x: int| 0 <= x < self.labels@[t].len() implies self.labels@[pc.0][x]
                    == self.labels@[t][x] by {
                    assert(self.labels@[pc.0].push(pc.1)[x] == self.labels@[pc.0][x]);
                    assert(self.labels@[t].push(c)[x] == self.labels@[t][x]);
                    assert(self.labels@[pc.0].push(pc.1)[x] == self.labels@[t].push(c)[x]);
                }
                assert(self.labels@[pc.0] =~= self.labels@[t]);
                assert(pc.1 == c) by {
                    assert(self.labels@[pc.0].push(pc.1)[self.labels@[t].len() as int]
                        == self.labels@[t].push(c)[self.labels@[t].len() as int]);
                }
                assert(pc.0 == t);
                assert(self.edge_lookup(t, c) == Some(q));
            }
        }
    }

    /// A spelled text stays spelled when nodes are only added.
    proof fn lemma_has_node_grow(&self, other: Ahoca, s: Seq<char>)
        requires
            other.has_node_for(s),
            other.nlen() <= self.nlen(),
            forall|q: int| 0 <= q < other.nlen() ==> #[trigger] self.labels@[q] == other.labels@[q],
        ensures
            self.has_node_for(s),
    {
        let q = choose|q: int| 0 <= q < other.nlen() && other.labels@[q] == s;
        assert(0 <= q < self.nlen() && self.labels@[q] == s);
    }

    /// Every non-root node spells a prefix of a configured start marker.
    pub proof fn lemma_label_is_marker_prefix(&self, t: int)
        requires
            self.wf(),
            1 <= t < self.nlen(),
        ensures
            exists|k: int|
                0 <= k < self.npats() && #[trigger] self.patv(k).take(self.label(t).len() as int)
                    == self.label(t),
    {
        let k = self.owner@[t];
        assert(0 <= k < self.npats() && self.patv(k).take(self.label(t).len() as int)
            == self.label(t));
    }

    /// What every scan guarantees: a hit is an occurrence of a configured
    /// marker ending where reported; a miss rests in a live node whose
    /// label is the suffix of everything read.
    pub proof fn lemma_ascan_facts(&self, t: int, s: Seq<char>, h: Seq<char>)
        requires
            self.wf(),
            0 <= t < self.nlen(),
            self.quiescent(t),
            is_suffix(self.label(t), h),
        ensures
            ({
                match self.ascan(t, s) {
                    AScan::Hit { e, k } => {
                        &&& 1 <= e <= s.len()
                        &&& 0 <= k < self.npats()
                        &&& self.patv(k).len() > 0
                        &&& is_suffix(self.patv(k), h + s.take(e))
                    },
                    AScan::Miss { t: tf } => {
                        &&& 0 <= tf < self.nlen()
                        &&& self.quiescent(tf)
                        &&& is_suffix(self.label(tf), h + s)
                    },
                }
            }),
        decreases s.len(),
    {
        if s.len() == 0 {
            assert(h + s =~= h);
        } else {
            let t1 = self.aget(t, s[0]);
            self.lemma_aget_range(t, s[0]);
            let h1 = h.push(s[0]);
            assert(is_suffix(self.label(t1), h1)) by {
                self.lemma_suffix_push(self.label(t1), self.label(t), h, s[0]);
            }
            self.lemma_aretreat_range(t1);
            match self.aretreat(t1) {
                ARes::Fire(k) => {
                    assert(h + s.take(1) =~= h1);
                    self.lemma_suffix_trans(self.patv(k), self.label(t1), h1);
                },
                ARes::Stay(t2) => {
                    self.lemma_suffix_trans(self.label(t2), self.label(t1), h1);
                    self.lemma_ascan_facts(t2, s.drop_first(), h1);
                    match self.ascan(t2, s.drop_first()) {
                        AScan::Hit { e, k } => {
                            assert(h1 + s.drop_first().take(e) =~= h + s.take(e + 1));
                        },
                        AScan::Miss { t: tf } => {
                            assert(h1 + s.drop_first() =~= h + s);
                        },
                    }
                },
            }
        }
    }

    proof fn lemma_suffix_push(&self, a: Seq<char>, b: Seq<char>, h: Seq<char>, c: char)
        requires
            is_suffix(a, b.push(c)),
            is_suffix(b, h),
        ensures
            is_suffix(a, h.push(c)),
    {
        assert(a =~= h.push(c).subrange(h.len() + 1 - a.len(), h.len() as int + 1)) by {
            assert(forall|x: int|
                0 <= x < b.len() ==> b[x] == h.subrange(h.len() - b.len(), h.len() as int)[x]);
            assert(forall|x: int|
                0 <= x < a.len() ==> a[x] == b.push(c).subrange(
                    b.len() + 1 - a.len(),
                    b.len() as int + 1,
                )[x]);
        }
    }

    /// Scanning a concatenation: scan the first part; on a miss, continue
    /// from the node the first part stopped in.
    pub proof fn lemma_ascan_app(&self, t: int, a: Seq<char>, b: Seq<char>)
        requires
            self.wf(),
            0 <= t < self.nlen(),
        ensures
            self.ascan(t, a + b) == (match self.ascan(t, a) {
                AScan::Miss { t: tm } => ashift(self.ascan(tm, b), a.len() as int),
                AScan::Hit { e, k } => AScan::Hit { e, k },
            }),
        decreases a.len(),
    {
        if a.len() == 0 {
            assert(a + b =~= b);
            match self.ascan(t, b) {
                AScan::Hit { e, k } => {},
                AScan::Miss { t: tm } => {},
            }
        } else {
            let t1 = self.aget(t, a[0]);
            self.lemma_aget_range(t, a[0]);
            assert((a + b)[0] == a[0]);
            match self.aretreat(t1) {
                ARes::Fire(k) => {},
                ARes::Stay(t2) => {
                    self.lemma_aretreat_range(t1);
                    assert((a + b).drop_first() =~= a.drop_first() + b);
                    self.lemma_ascan_app(t2, a.drop_first(), b);
                },
            }
        }
    }

    /// Rescanning a live node's own label from the root returns the scan
    /// to that node without firing: retained live suffixes can be carried
    /// across calls.
    pub proof fn lemma_ascan_rescan(&self, t: int)
        requires
            self.wf(),
            0 <= t < self.nlen(),
            self.quiescent(t),
        ensures
            self.ascan(0, self.label(t)) == (AScan::Miss { t }),
        decreases self.spanv(t),
    {
        if t == 0 {
            assert(self.label(0).len() == 0);
        } else {
            let pc = self.parent@[t];
            let pp = pc.0;
            assert(self.edge_lookup(pp, pc.1) == Some(t));
            self.lemma_edge_lookup_valid(pp, pc.1);
            assert(self.quiescent(pp));
            self.lemma_ascan_rescan(pp);
            let single = seq![pc.1];
            assert(self.label(pp) + single =~= self.label(t));
            self.lemma_ascan_app(0, self.label(pp), single);
            assert(self.aget(pp, pc.1) == t);
            assert(self.aretreat(t) == ARes::Stay(t));
            assert(single.drop_first().len() == 0);
            assert(self.ascan(t, single.drop_first()) == (AScan::Miss { t }));
        }
    }

    /// The failure link of node `q`.
    pub closed spec fn failv(&self, q: int) -> int {
        self.fail@[q] as int
    }

    /// Node `q`'s failure link reaches the longest label, among all node
    /// labels, that is a proper suffix of `label(q)`.
    pub open spec fn fail_max_at(&self, q: int) -> bool {
        forall|q2: int|
            0 <= q2 < self.nlen() && is_suffix(#[trigger] self.label(q2), self.label(q))
                && self.label(q2).len() < self.label(q).len() ==> self.label(q2).len()
                <= self.label(self.failv(q)).len()
    }

    /// Every failure link is maximal: the automaton's retreat always lands
    /// on the longest live suffix the trie knows.
    pub open spec fn fail_maximal(&self) -> bool {
        forall|q: int| 1 <= q < self.nlen() ==> #[trigger] self.fail_max_at(q)
    }

    proof fn lemma_edge_find_witness(&self, es: Seq<(char, usize)>, c: char, i: int)
        requires
            0 <= i,
            edge_find(es, c, i) is Some,
        ensures
            exists|e: int|
                i <= e < es.len() && (#[trigger] es[e]).0 == c && es[e].1 as int == edge_find(
                    es,
                    c,
                    i,
                )->Some_0,
        decreases es.len() - i,
    {
        if i < es.len() {
            if es[i].0 == c {
                assert(es[i].0 == c && es[i].1 as int == edge_find(es, c, i)->Some_0);
            } else {
                self.lemma_edge_find_witness(es, c, i + 1);
            }
        }
    }

    /// A node keeps a maximal link when the labels and its own link are
    /// unchanged.
    proof fn lemma_fail_max_same(&self, other: Ahoca, q: int)
        requires
            other.fail_max_at(q),
            self.labels@ == other.labels@,
            0 <= q < self.labels@.len(),
            q < other.fail@.len() && q < self.fail@.len(),
            self.fail@[q] == other.fail@[q],
            self.nlen() == other.nlen(),
        ensures
            self.fail_max_at(q),
    {
        assert forall|q2: int|
            0 <= q2 < self.nlen() && is_suffix(#[trigger] self.label(q2), self.label(q))
                && self.label(q2).len() < self.label(q).len() implies self.label(q2).len()
            <= self.label(self.failv(q)).len() by {
            assert(is_suffix(other.label(q2), other.label(q)));
            assert(other.label(q2).len() <= other.label(other.failv(q)).len());
        }
    }

    /// With every link up to `label(t)`'s depth already maximal, the lazy
    /// transition from `t` on `c` reaches the node with the longest label,
    /// among all node labels, that is a suffix of `label(t) + c`.
    proof fn lemma_aget_max(&self, t: int, c: char)
        requires
            self.wf(),
            0 <= t < self.nlen(),
            forall|q: int|
                1 <= q < self.nlen() && self.spanv(q) <= self.spanv(t)
                    ==> #[trigger] self.fail_max_at(q),
        ensures
            forall|q2: int|
                0 <= q2 < self.nlen() && is_suffix(
                    #[trigger] self.label(q2),
                    self.label(t).push(c),
                ) ==> self.label(q2).len() <= self.label(self.aget(t, c)).len(),
        decreases self.spanv(t),
    {
        self.lemma_aget_range(t, c);
        let g = self.aget(t, c);
        match self.edge_lookup(t, c) {
            Some(x) => {
                self.lemma_edge_lookup_valid(t, c);
            },
            None => {
                self.lemma_no_edge_no_node(t, c);
                if t == 0 {
                    assert forall|q2: int|
                        0 <= q2 < self.nlen() && is_suffix(
                            #[trigger] self.label(q2),
                            self.label(0).push(c),
                        ) implies self.label(q2).len() <= self.label(g).len() by {
                        if self.label(q2).len() > 0 {
                            assert(self.labels@[q2] =~= self.labels@[0].push(c));
                        }
                    }
                } else {
                    let f = self.fail@[t] as int;
                    self.lemma_aget_max(f, c);
                    assert forall|q2: int|
                        0 <= q2 < self.nlen() && is_suffix(
                            #[trigger] self.label(q2),
                            self.label(t).push(c),
                        ) implies self.label(q2).len() <= self.label(g).len() by {
                        let lq = self.labels@[q2];
                        if lq.len() == self.labels@[t].len() + 1 {
                            assert(lq =~= self.labels@[t].push(c));
                        } else if lq.len() >= 1 {
                            self.lemma_suffix_pop(lq, self.labels@[t], c);
                            assert(q2 != 0);
                            let pc = self.parent@[q2];
                            assert(self.labels@[pc.0] =~= lq.subrange(0, lq.len() - 1)) by {
                                assert(lq == self.labels@[pc.0].push(pc.1));
                            }
                            assert(is_suffix(self.label(pc.0), self.label(t)));
                            assert(self.fail_max_at(t));
                            assert(self.labels@[pc.0].len() <= self.labels@[f].len());
                            self.lemma_suffix_nest(
                                self.labels@[pc.0],
                                self.labels@[f],
                                self.labels@[t],
                            );
                            assert(pc.1 == c) by {
                                assert(self.labels@[pc.0].push(pc.1)[lq.len() - 1] == lq[lq.len()
                                    - 1]);
                            }
                            assert(is_suffix(lq, self.labels@[pc.0].push(c))) by {
                                assert(lq =~= self.labels@[pc.0].push(c));
                                assert(lq =~= self.labels@[pc.0].push(c).subrange(
                                    0,
                                    self.labels@[pc.0].push(c).len() as int,
                                ));
                            }
                            self.lemma_suffix_push(
                                lq,
                                self.labels@[pc.0],
                                self.labels@[f],
                                c,
                            );
                            assert(is_suffix(self.label(q2), self.label(f).push(c)));
                        }
                    }
                }
            },
        }
    }

    /// The empty root node: where every scan starts.
    pub proof fn lemma_root(&self)
        requires
            self.wf(),
        ensures
            self.label(0) == Seq::<char>::empty(),
            self.quiescent(0),
            self.nlen() >= 1,
    {
    }

    /// A node's depth equals its label's length.
    pub proof fn lemma_spanv(&self, t: int)
        requires
            self.wf(),
            0 <= t < self.nlen(),
        ensures
            self.spanv(t) == self.label(t).len(),
    {
        assert(self.span@[t] == self.labels@[t].len());
    }

    /// Scanning nothing moves nothing.
    pub proof fn lemma_ascan_empty(&self, t: int)
        requires
            self.wf(),
            0 <= t < self.nlen(),
        ensures
            self.ascan(t, Seq::<char>::empty()) == (AScan::Miss { t }),
    {
    }

    /// The length of pattern `k`.
    pub fn pat_len(&self, k: usize) -> (n: usize)
        requires
            (k as int) < self.npats(),
        ensures
            n == self.patv(k as int).len(),
    {
        self.pats[k].len()
    }

    /// Scans node `t`'s edge list for `c`.
    fn find_edge(&self, t: usize, c: char) -> (r: Option<usize>)
        requires
            (t as int) < self.nlen(),
        ensures
            (match r {
                Some(q) => self.edge_lookup(t as int, c) == Some(q as int),
                None => self.edge_lookup(t as int, c) is None,
            }),
    {
        let row = &self.trie[t];
        let mut i: usize = 0;
        while i < row.len()
            invariant
                i <= row@.len(),
                row@ == self.trie@[t as int]@,
                edge_find(self.trie@[t as int]@, c, 0) == edge_find(
                    self.trie@[t as int]@,
                    c,
                    i as int,
                ),
            decreases row@.len() - i,
        {
            let e = row[i];
            if e.0 == c {
                return Some(e.1);
            }
            i = i + 1;
        }
        None
    }

    /// The total transition function, computed lazily: follow the edge on
    /// `c` or fall back along failure links to the root.
    fn goto_node(&self, t: usize, c: char) -> (r: usize)
        requires
            self.wf(),
            (t as int) < self.nlen(),
        ensures
            r as int == self.aget(t as int, c),
            (r as int) < self.nlen(),
    {
        proof {
            self.lemma_aget_range(t as int, c);
        }
        let mut u = t;
        loop
            invariant
                self.wf(),
                (u as int) < self.nlen(),
                self.aget(u as int, c) == self.aget(t as int, c),
                0 <= self.aget(t as int, c) < self.nlen(),
            decreases self.spanv(u as int),
        {
            match self.find_edge(u, c) {
                Some(q) => {
                    proof {
                        self.lemma_edge_lookup_valid(u as int, c);
                    }
                    return q;
                },
                None => {
                    if u == 0 {
                        return 0;
                    }
                    u = self.fail[u];
                },
            }
        }
    }

    /// Inserts pattern `k` into the trie, creating nodes as needed and
    /// flagging the final node as terminal for `k` (a later duplicate of
    /// the same text overwrites the flag: last-write-wins).
    fn insert(&mut self, pat: &Vec<char>, k: usize)
        requires
            old(self).wf(),
            (k as int) < old(self).npats(),
            old(self).patv(k as int) == pat@,
            pat@.len() > 0,
        ensures
            final(self).wf(),
            final(self).pats@ == old(self).pats@,
            final(self).nlen() >= old(self).nlen(),
            forall|q: int|
                0 <= q < old(self).nlen() ==> final(self).labels@[q] == old(self).labels@[q] && (
                old(self).exist@[q] is Some ==> final(self).exist@[q] is Some),
            exists|q: int|
                0 <= q < final(self).nlen() && final(self).labels@[q] == pat@
                    && final(self).exist@[q] is Some,
            // existing edges are untouched: this call only appends
            forall|pp: int|
                0 <= pp < old(self).nlen() ==> old(self).trie@[pp]@.len()
                    <= #[trigger] final(self).trie@[pp]@.len(),
            forall|pp: int, e: int|
                0 <= pp < old(self).nlen() && 0 <= e < old(self).trie@[pp]@.len()
                    ==> #[trigger] final(self).trie@[pp]@[e] == old(self).trie@[pp]@[e],
            // only the pattern's missing path nodes are created
            forall|q: int|
                old(self).nlen() <= q < final(self).nlen() ==> #[trigger] final(self).labels@[q]
                    == pat@.take(final(self).labels@[q].len() as int),
            // the terminal flag moves exactly at the node spelling the
            // pattern: last-write-wins for a duplicated text
            forall|q: int|
                0 <= q < final(self).nlen() && #[trigger] final(self).labels@[q] == pat@
                    ==> final(self).exist@[q] == Some(k),
            forall|q: int|
                0 <= q < old(self).nlen() && old(self).labels@[q] != pat@
                    ==> #[trigger] final(self).exist@[q] == old(self).exist@[q],
            forall|q: int|
                old(self).nlen() <= q < final(self).nlen() && final(self).labels@[q] != pat@
                    ==> #[trigger] final(self).exist@[q] is None,
            // afterwards the trie spells every prefix of the pattern
            forall|dd: int|
                0 <= dd <= pat@.len() ==> final(self).has_node_for(#[trigger] pat@.take(dd)),
    {
        let n = pat.len();
        let mut p: usize = 0;
        let mut d: usize = 0;
        let ghost orig = *self;
        let ghost mut path: Seq<int> = seq![0int];
        proof {
            assert(self.labels@[0] =~= pat@.take(0));
            assert(self.labels@.subrange(0, orig.nlen()) =~= orig.labels@);
            assert(self.exist@.subrange(0, orig.nlen()) =~= orig.exist@);
        }
        while d < n
            invariant
                self.wf(),
                orig == *old(self),
                self.pats@ == orig.pats@,
                (k as int) < orig.pats@.len(),
                orig.pats@[k as int]@ == pat@,
                d <= n,
                n == pat@.len(),
                (p as int) < self.nlen(),
                self.labels@[p as int] == pat@.take(d as int),
                self.nlen() >= orig.nlen(),
                self.labels@.subrange(0, orig.nlen()) == orig.labels@,
                self.exist@.subrange(0, orig.nlen()) == orig.exist@,
                forall|pp: int|
                    0 <= pp < orig.nlen() ==> orig.trie@[pp]@.len()
                        <= #[trigger] self.trie@[pp]@.len(),
                forall|pp: int, e: int|
                    0 <= pp < orig.nlen() && 0 <= e < orig.trie@[pp]@.len()
                        ==> #[trigger] self.trie@[pp]@[e] == orig.trie@[pp]@[e],
                forall|q: int|
                    orig.nlen() <= q < self.nlen() ==> #[trigger] self.labels@[q] == pat@.take(
                        self.labels@[q].len() as int,
                    ),
                forall|q: int| orig.nlen() <= q < self.nlen() ==> #[trigger] self.exist@[q] is None,
                path.len() == d + 1,
                forall|dd: int|
                    0 <= dd <= d ==> 0 <= #[trigger] path[dd] < self.nlen()
                        && self.labels@[path[dd]] == pat@.take(dd),
            decreases n - d,
        {
            let c = pat[d];
            match self.find_edge(p, c) {
                Some(q) => {
                    proof {
                        self.lemma_edge_lookup_valid(p as int, c);
                        assert(pat@.take(d as int).push(c) =~= pat@.take(d + 1));
                        path = path.push(q as int);
                        assert forall|dd: int| 0 <= dd <= d + 1 implies 0 <= #[trigger] path[dd]
                            < self.nlen() && self.labels@[path[dd]] == pat@.take(dd) by {
                            if dd <= d {
                                assert(path[dd] == path.drop_last()[dd]);
                            }
                        }
                    }
                    p = q;
                },
                None => {
                    let q = self.trie.len();
                    let ghost os = *self;
                    proof {
                        os.lemma_no_edge_no_node(p as int, c);
                    }
                    self.span.push(d + 1);
                    self.fail.push(0);
                    self.exist.push(None);
                    self.trie.push(Vec::new());
                    self.labels = Ghost(self.labels@.push(pat@.take(d + 1)));
                    self.parent = Ghost(self.parent@.push((p as int, c)));
                    self.owner = Ghost(self.owner@.push(k as int));
                    self.trie[p].push((c, q));
                    proof {
                        let ns = *self;
                        let nn = ns.nlen();
                        assert(pat@.take(d as int).push(c) =~= pat@.take(d + 1));
                        assert forall|q1: int, q2: int|
                            0 <= q1 < nn && 0 <= q2 < nn && #[trigger] ns.labels@[q1]
                                == #[trigger] ns.labels@[q2] implies q1 == q2 by {
                            if q1 < os.nlen() && q2 == q as int {
                                assert(ns.labels@[q1] == os.labels@[q1]);
                                assert(ns.labels@[q2] == os.labels@[p as int].push(c));
                            }
                            if q2 < os.nlen() && q1 == q as int {
                                assert(ns.labels@[q2] == os.labels@[q2]);
                                assert(ns.labels@[q1] == os.labels@[p as int].push(c));
                            }
                        }
                        assert forall|q2: int| 1 <= q2 < nn implies 0 <= #[trigger] ns.owner@[q2]
                            < ns.pats@.len() && ns.labels@[q2] == ns.pats@[ns.owner@[q2]]@.take(
                            ns.labels@[q2].len() as int,
                        ) by {
                            if q2 == q as int {
                                assert(ns.labels@[q2] == pat@.take(d + 1));
                                assert(ns.pats@[k as int]@.take(d + 1) == pat@.take(d + 1));
                            } else {
                                assert(ns.owner@[q2] == os.owner@[q2]);
                                assert(ns.labels@[q2] == os.labels@[q2]);
                            }
                        }
                        assert(ns.trie@[p as int]@ == os.trie@[p as int]@.push((c, q)));
                        lemma_edge_find_push_none(os.trie@[p as int]@, c, (c, q), 0);
                        assert(ns.edge_lookup(p as int, c) == Some(q as int));
                        assert forall|q2: int| 1 <= q2 < nn implies {
                            let pc = #[trigger] ns.parent@[q2];
                            &&& 0 <= pc.0 < nn
                            &&& ns.edge_lookup(pc.0, pc.1) == Some(q2)
                            &&& ns.labels@[q2] == ns.labels@[pc.0].push(pc.1)
                        } by {
                            if q2 < os.nlen() {
                                let pc = os.parent@[q2];
                                assert(os.edge_lookup(pc.0, pc.1) == Some(q2));
                                if pc.0 == p as int {
                                    lemma_edge_find_push_some(os.trie@[p as int]@, pc.1, (c, q), 0);
                                }
                            }
                        }
                        assert forall|p2: int, e2: int|
                            0 <= p2 < nn && 0 <= e2 < ns.trie@[p2]@.len() implies {
                            let edge = #[trigger] ns.trie@[p2]@[e2];
                            &&& 1 <= edge.1 < nn
                            &&& ns.labels@[edge.1 as int] == ns.labels@[p2].push(edge.0)
                            &&& ns.parent@[edge.1 as int] == (p2 as int, edge.0)
                        } by {
                            if p2 == p as int && e2 == os.trie@[p2]@.len() {
                                assert(ns.trie@[p2]@[e2] == (c, q));
                            } else {
                                assert(ns.trie@[p2]@[e2] == os.trie@[p2]@[e2]);
                            }
                        }
                        assert(ns.labels@[0] =~= Seq::<char>::empty());
                        assert(is_suffix(ns.labels@[0], ns.labels@[q as int])) by {
                            assert(ns.labels@[0] =~= ns.labels@[q as int].subrange(
                                ns.labels@[q as int].len() as int,
                                ns.labels@[q as int].len() as int,
                            ));
                        }
                        assert(ns.wf());
                        assert(self.labels@.subrange(0, orig.nlen()) =~= os.labels@.subrange(
                            0,
                            orig.nlen(),
                        ));
                        assert(self.exist@.subrange(0, orig.nlen()) =~= os.exist@.subrange(
                            0,
                            orig.nlen(),
                        ));
                        assert forall|pp: int, e2: int|
                            0 <= pp < orig.nlen() && 0 <= e2 < orig.trie@[pp]@.len() implies
                            #[trigger] ns.trie@[pp]@[e2] == orig.trie@[pp]@[e2] by {
                            if pp == p as int {
                                assert(ns.trie@[pp]@[e2] == os.trie@[pp]@[e2]);
                            } else {
                                assert(ns.trie@[pp]@ == os.trie@[pp]@);
                            }
                        }
                        assert forall|q2: int| orig.nlen() <= q2 < ns.nlen() implies
                            #[trigger] ns.labels@[q2] == pat@.take(ns.labels@[q2].len() as int)
                            by {
                            if q2 < os.nlen() {
                                assert(ns.labels@[q2] == os.labels@[q2]);
                            } else {
                                assert(ns.labels@[q2] == pat@.take(d + 1));
                            }
                        }
                        assert forall|q2: int| orig.nlen() <= q2 < ns.nlen() implies
                            #[trigger] ns.exist@[q2] is None by {
                            if q2 < os.nlen() {
                                assert(ns.exist@[q2] == os.exist@[q2]);
                            }
                        }
                        path = path.push(q as int);
                        assert forall|dd: int| 0 <= dd <= d + 1 implies 0 <= #[trigger] path[dd]
                            < ns.nlen() && ns.labels@[path[dd]] == pat@.take(dd) by {
                            if dd <= d {
                                assert(path[dd] == path.drop_last()[dd]);
                                assert(ns.labels@[path[dd]] == os.labels@[path[dd]]);
                            } else {
                                assert(path[dd] == q as int);
                            }
                        }
                    }
                    p = q;
                },
            }
            d = d + 1;
        }
        let ghost os2 = *self;
        self.exist[p] = Some(k);
        proof {
            assert(pat@.take(n as int) =~= pat@);
            assert forall|dd: int| 0 <= dd <= pat@.len() implies self.has_node_for(
                #[trigger] pat@.take(dd),
            ) by {
                assert(0 <= path[dd] < self.nlen() && self.labels@[path[dd]] == pat@.take(dd));
            }
            assert(self.labels@[p as int] == pat@ && self.exist@[p as int] is Some);
            assert forall|q2: int| 0 <= q2 < old(self).nlen() implies self.labels@[q2]
                == old(self).labels@[q2] && (old(self).exist@[q2] is Some ==> self.exist@[q2]
                is Some) by {
                assert(os2.labels@.subrange(0, orig.nlen())[q2] == orig.labels@[q2]);
                assert(os2.exist@.subrange(0, orig.nlen())[q2] == orig.exist@[q2]);
                if q2 != p as int {
                    assert(self.exist@[q2] == os2.exist@[q2]);
                }
            }
            let ns = *self;
            assert forall|q2: int| 0 <= q2 < ns.nlen() implies match #[trigger] ns.exist@[q2] {
                Some(kk) => {
                    &&& 0 <= kk < ns.pats@.len()
                    &&& ns.labels@[q2] == ns.pats@[kk as int]@
                    &&& ns.pats@[kk as int]@.len() > 0
                },
                None => true,
            } by {
                if q2 != p as int {
                    assert(ns.exist@[q2] == os2.exist@[q2]);
                }
            }
            assert(ns.wf());
        }
    }

    /// Computes every node's failure link: processing nodes shallowest
    /// first (the breadth order of the trie), each child's link is the
    /// transition its parent's link takes on the same character. Children
    /// of the root keep the root as their link. Afterwards every link is
    /// maximal: it reaches the longest proper suffix of the node's label
    /// that is itself a node's label.
    fn build(&mut self)
        requires
            old(self).wf(),
        ensures
            final(self).wf(),
            final(self).fail_maximal(),
            final(self).pats@ == old(self).pats@,
            final(self).trie@ == old(self).trie@,
            final(self).exist@ == old(self).exist@,
            final(self).span@ == old(self).span@,
            final(self).labels@ == old(self).labels@,
            final(self).parent@ == old(self).parent@,
    {
        let n = self.trie.len();
        let mut maxspan: usize = 0;
        let mut i: usize = 0;
        while i < n
            invariant
                n == self.nlen(),
                self.wf(),
                i <= n,
                forall|q: int| 0 <= q < i ==> #[trigger] self.spanv(q) <= maxspan,
            decreases n - i,
        {
            if self.span[i] > maxspan {
                maxspan = self.span[i];
            }
            i = i + 1;
        }
        proof {
            assert forall|q: int| 1 <= q < self.nlen() && self.spanv(q) < 2 implies
                #[trigger] self.fail_max_at(q) by {
                assert(self.labels@[self.fail@[q] as int].len() >= 0);
            }
        }
        if maxspan < 2 {
            return ;
        }
        let mut d: usize = 2;
        loop
            invariant
                self.wf(),
                n == self.nlen(),
                self.pats@ == old(self).pats@,
                self.trie@ == old(self).trie@,
                self.exist@ == old(self).exist@,
                self.span@ == old(self).span@,
                self.labels@ == old(self).labels@,
                self.parent@ == old(self).parent@,
                2 <= d <= maxspan,
                forall|q: int| 0 <= q < n ==> #[trigger] old(self).spanv(q) <= maxspan,
                forall|q: int|
                    1 <= q < n && self.spanv(q) < d ==> #[trigger] self.fail_max_at(q),
            ensures
                self.wf(),
                self.pats@ == old(self).pats@,
                self.trie@ == old(self).trie@,
                self.exist@ == old(self).exist@,
                self.span@ == old(self).span@,
                self.labels@ == old(self).labels@,
                self.parent@ == old(self).parent@,
                self.fail_maximal(),
            decreases maxspan - d,
        {
            let mut kx: usize = 0;
            while kx < n
                invariant
                    self.wf(),
                    n == self.nlen(),
                    self.pats@ == old(self).pats@,
                    self.trie@ == old(self).trie@,
                    self.exist@ == old(self).exist@,
                    self.span@ == old(self).span@,
                    self.labels@ == old(self).labels@,
                    self.parent@ == old(self).parent@,
                    kx <= n,
                    2 <= d,
                    forall|q: int|
                        1 <= q < n && self.spanv(q) < d ==> #[trigger] self.fail_max_at(q),
                    forall|k2: int, e2: int|
                        0 <= k2 < kx && self.spanv(k2) == d - 1 && 0 <= e2
                            < self.trie@[k2]@.len() ==> self.fail_max_at(
                            (#[trigger] self.trie@[k2]@[e2]).1 as int,
                        ),
                decreases n - kx,
            {
                if self.span[kx] == d - 1 {
                    let deg = self.trie[kx].len();
                    let mut ei: usize = 0;
                    while ei < deg
                        invariant
                            self.wf(),
                            n == self.nlen(),
                            self.pats@ == old(self).pats@,
                            self.trie@ == old(self).trie@,
                            self.exist@ == old(self).exist@,
                            self.span@ == old(self).span@,
                            self.labels@ == old(self).labels@,
                            self.parent@ == old(self).parent@,
                            (kx as int) < self.nlen(),
                            deg == self.trie@[kx as int]@.len(),
                            self.span@[kx as int] == d - 1,
                            ei <= deg,
                            2 <= d,
                            forall|q: int|
                                1 <= q < n && self.spanv(q) < d ==> #[trigger] self.fail_max_at(
                                    q,
                                ),
                            forall|k2: int, e2: int|
                                0 <= k2 < kx && self.spanv(k2) == d - 1 && 0 <= e2
                                    < self.trie@[k2]@.len() ==> self.fail_max_at(
                                    (#[trigger] self.trie@[k2]@[e2]).1 as int,
                                ),
                            forall|e2: int|
                                0 <= e2 < ei ==> self.fail_max_at(
                                    (#[trigger] self.trie@[kx as int]@[e2]).1 as int,
                                ),
                        decreases deg - ei,
                    {
                        let e = self.trie[kx][ei];
                        let fk = self.fail[kx];
                        proof {
                            assert(1 <= e.1 < self.nlen());
                            assert(kx != 0);
                            assert((fk as int) < self.nlen());
                        }
                        let g = self.goto_node(fk, e.0);
                        let ghost os = *self;
                        let x = e.1;
                        proof {
                            self.lemma_aget_range(fk as int, e.0);
                            self.lemma_suffix_push(
                                self.labels@[g as int],
                                self.labels@[fk as int],
                                self.labels@[kx as int],
                                e.0,
                            );
                            assert(self.labels@[x as int] == self.labels@[kx as int].push(e.0));
                            assert(is_suffix(self.labels@[g as int], self.labels@[x as int]));
                            assert(self.labels@[g as int].len() <= self.labels@[fk as int].len()
                                + 1);
                            assert(self.labels@[g as int].len() < self.labels@[x as int].len());
                            self.lemma_aget_max(fk as int, e.0);
                            assert forall|q2: int|
                                0 <= q2 < self.nlen() && is_suffix(
                                    #[trigger] self.label(q2),
                                    self.label(x as int),
                                ) && self.label(q2).len() < self.label(x as int).len() implies
                                self.label(q2).len() <= self.label(g as int).len() by {
                                let lq = self.labels@[q2];
                                if lq.len() >= 1 {
                                    self.lemma_suffix_pop(lq, self.labels@[kx as int], e.0);
                                    assert(q2 != 0);
                                    let pc = self.parent@[q2];
                                    assert(self.labels@[pc.0] =~= lq.subrange(0, lq.len() - 1))
                                        by {
                                        assert(lq == self.labels@[pc.0].push(pc.1));
                                    }
                                    assert(is_suffix(self.label(pc.0), self.label(kx as int)));
                                    assert(self.labels@[pc.0].len() < self.labels@[kx as
                                        int].len());
                                    assert(self.fail_max_at(kx as int));
                                    assert(self.labels@[pc.0].len() <= self.labels@[fk as
                                        int].len());
                                    self.lemma_suffix_nest(
                                        self.labels@[pc.0],
                                        self.labels@[fk as int],
                                        self.labels@[kx as int],
                                    );
                                    assert(pc.1 == e.0) by {
                                        assert(self.labels@[pc.0].push(pc.1)[lq.len() - 1]
                                            == lq[lq.len() - 1]);
                                    }
                                    assert(is_suffix(lq, self.labels@[pc.0].push(e.0))) by {
                                        assert(lq =~= self.labels@[pc.0].push(e.0));
                                        assert(lq =~= self.labels@[pc.0].push(e.0).subrange(
                                            0,
                                            self.labels@[pc.0].push(e.0).len() as int,
                                        ));
                                    }
                                    self.lemma_suffix_push(
                                        lq,
                                        self.labels@[pc.0],
                                        self.labels@[fk as int],
                                        e.0,
                                    );
                                    assert(is_suffix(
                                        self.label(q2),
                                        self.label(fk as int).push(e.0),
                                    ));
                                }
                            }
                        }
                        self.fail[x] = g;
                        proof {
                            let ns = *self;
                            assert(ns.labels@ == os.labels@ && ns.trie@ == os.trie@ && ns.span@
                                == os.span@ && ns.exist@ == os.exist@ && ns.parent@
                                == os.parent@);
                            assert(ns.spanv(x as int) == ns.labels@[x as int].len());
                            assert(ns.spanv(x as int) == d);
                            assert forall|q2: int| 1 <= q2 < ns.nlen() implies {
                                let f = #[trigger] ns.fail@[q2] as int;
                                &&& 0 <= f < ns.nlen()
                                &&& ns.labels@[f].len() < ns.labels@[q2].len()
                                &&& is_suffix(ns.labels@[f], ns.labels@[q2])
                            } by {
                                if q2 != x as int {
                                    assert(ns.fail@[q2] == os.fail@[q2]);
                                }
                            }
                            assert(ns.wf());
                            assert forall|q2: int|
                                1 <= q2 < n && #[trigger] ns.spanv(q2) < d implies ns.fail_max_at(
                                    q2,
                                ) by {
                                assert(ns.spanv(q2) == os.spanv(q2));
                                assert(os.fail_max_at(q2));
                                assert(q2 != x as int);
                                assert(ns.fail@[q2] == os.fail@[q2]);
                                self.lemma_fail_max_same(os, q2);
                            }
                            assert(ns.fail_max_at(x as int)) by {
                                assert(ns.failv(x as int) == g as int);
                                assert forall|q2: int|
                                    0 <= q2 < ns.nlen() && is_suffix(
                                        #[trigger] ns.label(q2),
                                        ns.label(x as int),
                                    ) && ns.label(q2).len() < ns.label(x as int).len() implies
                                    ns.label(q2).len() <= ns.label(ns.failv(x as int)).len() by {
                                    assert(ns.label(q2) == os.label(q2));
                                    assert(ns.label(x as int) == os.label(x as int));
                                    assert(is_suffix(os.label(q2), os.label(x as int)));
                                    assert(os.label(q2).len() <= os.label(g as int).len());
                                }
                            }
                            assert forall|e2: int| 0 <= e2 < ei + 1 implies ns.fail_max_at(
                                (#[trigger] ns.trie@[kx as int]@[e2]).1 as int,
                            ) by {
                                let t2 = ns.trie@[kx as int]@[e2].1 as int;
                                if e2 < ei {
                                    assert(os.trie@[kx as int]@[e2] == ns.trie@[kx as int]@[e2]);
                                    assert(os.fail_max_at(t2));
                                    if t2 != x as int {
                                        assert(ns.fail@[t2] == os.fail@[t2]);
                                        self.lemma_fail_max_same(os, t2);
                                    }
                                }
                            }
                            assert forall|k2: int, e2: int|
                                0 <= k2 < kx && ns.spanv(k2) == d - 1 && 0 <= e2
                                    < ns.trie@[k2]@.len() implies ns.fail_max_at(
                                    (#[trigger] ns.trie@[k2]@[e2]).1 as int,
                                ) by {
                                let t2 = ns.trie@[k2]@[e2].1 as int;
                                assert(os.trie@[k2]@[e2] == ns.trie@[k2]@[e2]);
                                assert(os.spanv(k2) == ns.spanv(k2));
                                assert(os.fail_max_at(t2));
                                if t2 != x as int {
                                    assert(ns.fail@[t2] == os.fail@[t2]);
                                    self.lemma_fail_max_same(os, t2);
                                }
                            }
                        }
                        ei = ei + 1;
                    }
                }
                kx = kx + 1;
            }
            proof {
                assert forall|q: int| 1 <= q < n && self.spanv(q) < d + 1 implies
                    #[trigger] self.fail_max_at(q) by {
                    if self.spanv(q) == d {
                        let pc = self.parent@[q];
                        assert(self.spanv(pc.0) == d - 1);
                        self.lemma_edge_find_witness(self.trie@[pc.0]@, pc.1, 0);
                        let row = self.trie@[pc.0]@;
                        let e2 = choose|e2: int|
                            0 <= e2 < row.len() && (#[trigger] row[e2]).0 == pc.1 && row[e2].1
                                as int == self.edge_lookup(pc.0, pc.1)->Some_0;
                        assert(self.fail_max_at(self.trie@[pc.0]@[e2].1 as int));
                    }
                }
            }
            if d == maxspan {
                proof {
                    assert forall|q: int| 1 <= q < n implies #[trigger] self.fail_max_at(q) by {
                        assert(self.spanv(q) == old(self).spanv(q));
                        assert(self.spanv(q) <= maxspan);
                    }
                }
                break ;
            }
            d = d + 1;
        }
    }

    /// Scans the buffer from the root. Reports the first marker that
    /// completes (its start offset and its pattern index), or, with no
    /// marker, how many leading characters are provably not part of a
    /// future match.
    pub fn query(&self, buf: &Vec<char>) -> (r: (usize, Option<usize>))
        requires
            self.wf(),
        ensures
            (match self.ascan(0, buf@) {
                AScan::Hit { e, k } => (match r.1 {
                    Some(kk) => kk as int == k,
                    None => false,
                }) && r.0 + self.patv(k).len() == e,
                AScan::Miss { t } => r.1 is None && r.0 == buf@.len() - self.spanv(t),
            }),
    {
        let ghost target = self.ascan(0, buf@);
        proof {
            self.lemma_root();
            assert(self.label(0) =~= Seq::<char>::empty().subrange(0, 0));
            assert(is_suffix(self.label(0), Seq::<char>::empty()));
            self.lemma_ascan_facts(0, buf@, Seq::<char>::empty());
            assert(Seq::<char>::empty() + buf@ =~= buf@);
            match target {
                AScan::Hit { e, k } => {
                    assert((Seq::<char>::empty() + buf@.take(e)).len() == e);
                },
                AScan::Miss { t: tf } => {},
            }
        }
        let blen = buf.len();
        let mut t: usize = 0;
        let mut i: usize = 0;
        proof {
            assert(buf@.skip(0) =~= buf@);
        }
        while i < blen
            invariant
                self.wf(),
                blen == buf@.len(),
                i <= blen,
                (t as int) < self.nlen(),
                target == self.ascan(0, buf@),
                ashift(self.ascan(t as int, buf@.skip(i as int)), i as int) == target,
                (match target {
                    AScan::Hit { e, k } => 0 <= k < self.npats() && self.patv(k).len() <= e <= blen,
                    AScan::Miss { t: tf } => 0 <= tf < self.nlen() && self.spanv(tf) <= blen,
                }),
            decreases blen - i,
        {
            let c = buf[i];
            proof {
                assert(buf@.skip(i as int)[0] == buf@[i as int]);
                assert(buf@.skip(i as int).drop_first() =~= buf@.skip(i + 1));
            }
            let t1 = self.goto_node(t, c);
            let mut u = t1;
            let mut fired: Option<usize> = None;
            loop
                invariant_except_break
                    fired is None,
                invariant
                    self.wf(),
                    (u as int) < self.nlen(),
                    self.aretreat(u as int) == self.aretreat(t1 as int),
                ensures
                    (u as int) < self.nlen(),
                    (match fired {
                        Some(k) => self.aretreat(t1 as int) == ARes::Fire(k as int),
                        None => self.aretreat(t1 as int) == ARes::Stay(u as int),
                    }),
                decreases self.spanv(u as int),
            {
                let childless = self.trie[u].len() == 0;
                if u == 0 || !childless {
                    break ;
                }
                match self.exist[u] {
                    Some(k) => {
                        proof {
                            assert(self.aretreat(u as int) == ARes::Fire(k as int));
                        }
                        fired = Some(k);
                        break ;
                    },
                    None => {
                        u = self.fail[u];
                    },
                }
            }
            match fired {
                Some(k) => {
                    proof {
                        assert(self.ascan(t as int, buf@.skip(i as int)) == (AScan::Hit {
                            e: 1,
                            k: k as int,
                        }));
                        assert(target == (AScan::Hit { e: i + 1, k: k as int }));
                        assert(self.patv(k as int).len() <= i + 1);
                    }
                    let ml = self.pats[k].len();
                    return (i + 1 - ml, Some(k));
                },
                None => {
                    proof {
                        assert(self.ascan(t as int, buf@.skip(i as int)) == ashift(
                            self.ascan(u as int, buf@.skip(i + 1)),
                            1,
                        ));
                    }
                    t = u;
                    i = i + 1;
                },
            }
        }
        proof {
            assert(buf@.skip(blen as int).len() == 0);
            assert(self.ascan(t as int, buf@.skip(blen as int)) == (AScan::Miss { t: t as int }));
            assert(target == (AScan::Miss { t: t as int }));
        }
        (blen - self.span[t], None)
    }
}

/// Builds the automaton over the start markers of the given pairs. A
/// duplicated start marker keeps the last pair's terminal flag.
pub fn new(pairs: Vec<Tpair>) -> (a: Ahoca)
    requires
        forall|i: int| 0 <= i < pairs@.len() ==> (#[trigger] pairs@[i]@).smark.len() > 0,
    ensures
        a.wf(),
        a.fail_maximal(),
        a.npats() == pairs@.len(),
        forall|k: int| 0 <= k < pairs@.len() ==> a.patv(k) == (#[trigger] pairs@[k]@).smark,
        forall|k: int| 0 <= k < a.npats() ==> #[trigger] a.has_terminal_for(k),
        // the node set covers the prefix closure of the markers
        forall|k: int, dd: int|
            0 <= k < a.npats() && 0 <= dd <= a.patv(k).len() ==> a.has_node_for(
                #[trigger] a.patv(k).take(dd),
            ),
        // last-write-wins: a terminal names the last pair with its text
        forall|q: int|
            0 <= q < a.nlen() ==> match #[trigger] a.terminal_of(q) {
                Some(kk) => a.patv(kk as int) == a.label(q) && (forall|k2: int|
                    kk < k2 < a.npats() ==> a.patv(k2) != a.label(q)),
                None => true,
            },
{
    let mut pats: Vec<Vec<char>> = Vec::new();
    let mut i: usize = 0;
    while i < pairs.len()
        invariant
            i <= pairs@.len(),
            pats@.len() == i,
            forall|k: int| 0 <= k < i ==> (#[trigger] pats@[k])@ == pairs@[k]@.smark,
            forall|k: int| 0 <= k < pairs@.len() ==> (#[trigger] pairs@[k]@).smark.len() > 0,
        decreases pairs@.len() - i,
    {
        pats.push(chars_of(pairs[i].smark_str()));
        i = i + 1;
    }

    let mut span0: Vec<usize> = Vec::new();
    span0.push(0);
    let mut fail0: Vec<usize> = Vec::new();
    fail0.push(0);
    let mut trie0: Vec<Vec<(char, usize)>> = Vec::new();
    trie0.push(Vec::new());
    let mut exist0: Vec<Option<usize>> = Vec::new();
    exist0.push(None);
    let ghost labels0: Seq<Seq<char>> = seq![Seq::<char>::empty()];
    let ghost parent0: Seq<(int, char)> = seq![(0int, ' ')];
    let ghost owner0: Seq<int> = seq![0int];
    let mut acam = Ahoca {
        span: span0,
        fail: fail0,
        trie: trie0,
        exist: exist0,
        pats,
        labels: Ghost(labels0),
        parent: Ghost(parent0),
        owner: Ghost(owner0),
    };
    proof {
        assert(acam.labels@[0] =~= Seq::<char>::empty());
        assert(acam.labels@.len() == 1);
        assert(acam.span@[0] == 0);
        assert(acam.trie@[0]@.len() == 0);
        assert(acam.exist@[0] is None);
        assert(acam.wf());
    }
    let npat = acam.pats.len();
    let mut k: usize = 0;
    let ghost mut wits: Seq<int> = Seq::<int>::empty();
    while k < npat
        invariant
            acam.wf(),
            npat == acam.npats(),
            acam.pats@.len() == pairs@.len(),
            forall|k2: int| 0 <= k2 < npat ==> (#[trigger] acam.pats@[k2])@ == pairs@[k2]@.smark,
            forall|k2: int| 0 <= k2 < pairs@.len() ==> (#[trigger] pairs@[k2]@).smark.len() > 0,
            wits.len() == k,
            forall|k2: int|
                0 <= k2 < k ==> 0 <= #[trigger] wits[k2] < acam.nlen() && acam.label(wits[k2])
                    == acam.patv(k2) && acam.is_terminal(wits[k2]),
            forall|q: int|
                0 <= q < acam.nlen() ==> match #[trigger] acam.exist@[q] {
                    Some(kk) => forall|k2: int|
                        kk < k2 < k ==> acam.pats@[k2]@ != acam.labels@[q],
                    None => true,
                },
            forall|k2: int, dd: int|
                0 <= k2 < k && 0 <= dd <= acam.patv(k2).len() ==> acam.has_node_for(
                    #[trigger] acam.patv(k2).take(dd),
                ),
        decreases npat - k,
    {
        let pk = crate::copy_chars(&acam.pats[k]);
        let ghost before = acam;
        acam.insert(&pk, k);
        proof {
            assert forall|k2: int, dd: int|
                0 <= k2 < k + 1 && 0 <= dd <= acam.patv(k2).len() implies acam.has_node_for(
                    #[trigger] acam.patv(k2).take(dd),
                ) by {
                if k2 < k {
                    assert(before.has_node_for(before.patv(k2).take(dd)));
                    acam.lemma_has_node_grow(before, before.patv(k2).take(dd));
                    assert(acam.patv(k2) == before.patv(k2));
                } else {
                    assert(acam.has_node_for(pk@.take(dd)));
                    assert(acam.patv(k2) == pk@);
                }
            }
            assert forall|q: int| 0 <= q < acam.nlen() implies match #[trigger] acam.exist@[q] {
                Some(kk) => forall|k2: int|
                    kk < k2 < k + 1 ==> acam.pats@[k2]@ != acam.labels@[q],
                None => true,
            } by {
                match acam.exist@[q] {
                    Some(kk) => {
                        if acam.labels@[q] == pk@ {
                            assert(acam.exist@[q] == Some(k));
                        } else {
                            if q < before.nlen() {
                                assert(acam.labels@[q] == before.labels@[q]);
                                assert(acam.exist@[q] == before.exist@[q]);
                                assert(match before.exist@[q] {
                                    Some(kk2) => forall|k2: int|
                                        kk2 < k2 < k ==> before.pats@[k2]@ != before.labels@[q],
                                    None => true,
                                });
                                assert(acam.pats@[k as int]@ == pk@);
                            } else {
                                assert(acam.exist@[q] is None);
                            }
                        }
                    },
                    None => {},
                }
            }
            let q1 = choose|q: int|
                0 <= q < acam.nlen() && acam.labels@[q] == pk@ && acam.exist@[q] is Some;
            wits = wits.push(q1);
            assert forall|k2: int| 0 <= k2 < k + 1 implies 0 <= #[trigger] wits[k2] < acam.nlen()
                && acam.label(wits[k2]) == acam.patv(k2) && acam.is_terminal(wits[k2]) by {
                if k2 < k {
                    assert(wits[k2] == wits.drop_last()[k2]);
                    assert(0 <= wits[k2] < before.nlen());
                    assert(before.label(wits[k2]) == before.patv(k2));
                    assert(before.is_terminal(wits[k2]));
                } else {
                    assert(wits[k2] == q1);
                }
            }
        }
        k = k + 1;
    }
    let ghost prebuild = acam;
    acam.build();
    proof {
        assert forall|k2: int, dd: int|
            0 <= k2 < acam.npats() && 0 <= dd <= acam.patv(k2).len() implies acam.has_node_for(
                #[trigger] acam.patv(k2).take(dd),
            ) by {
            assert(prebuild.has_node_for(prebuild.patv(k2).take(dd)));
            acam.lemma_has_node_grow(prebuild, prebuild.patv(k2).take(dd));
            assert(acam.patv(k2) == prebuild.patv(k2));
        }
        assert forall|k2: int| 0 <= k2 < acam.npats() implies #[trigger] acam.has_terminal_for(
            k2,
        ) by {
            let w = wits[k2];
            assert(0 <= w < acam.nlen() && acam.labels@[w] == acam.pats@[k2]@
                && acam.exist@[w] is Some);
        }
    }
    acam
}

/// Scans the chunk with the automaton: the original matching entry point,
/// returning the matched marker's text.
pub fn do_match(acam: &Ahoca, chunk: &str) -> (r: (usize, Option<String>))
    requires
        acam.wf(),
    ensures
        (match acam.ascan(0, chunk@) {
            AScan::Hit { e, k } => (match r.1 {
                Some(m) => m@ == acam.patv(k),
                None => false,
            }) && r.0 + acam.patv(k).len() == e,
            AScan::Miss { t } => r.1 is None && r.0 == chunk@.len() - acam.spanv(t),
        }),
{
    let cv = chars_of(chunk);
    let (idx, m) = acam.query(&cv);
    match m {
        Some(k) => {
            proof {
                acam.lemma_root();
                assert(acam.label(0) =~= Seq::<char>::empty().subrange(0, 0));
                assert(is_suffix(acam.label(0), Seq::<char>::empty()));
                acam.lemma_ascan_facts(0, cv@, Seq::<char>::empty());
            }
            let text = string_of(&acam.pats[k], 0, acam.pats[k].len());
            proof {
                assert(acam.pats@[k as int]@.subrange(0, acam.pats@[k as int]@.len() as int)
                    =~= acam.pats@[k as int]@);
            }
            (idx, Some(text))
        },
        None => (idx, None),
    }
}

} // verus!
