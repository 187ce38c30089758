//! The spec-level model of the fragment stream.
//!
//! A processor's output is modelled as a sequence of atomic events: one
//! event per content character, and one per completed marker. The events
//! carry the index of the configured pair they belong to, so the original
//! stream can be reconstructed from them ([`restore`]), and well-formedness
//! of the tag alternation can be stated ([`evs_mode_ok`]).

use vstd::prelude::*;

use crate::State;

verus! {

/// Spec-level description of one configured marker pair.
pub struct PairSpec {
    pub smark: Seq<char>,
    pub emark: Seq<char>,
    pub value: Option<Seq<char>>,
}

/// A configurable pair must have non-empty markers.
pub open spec fn pair_ok(p: PairSpec) -> bool {
    p.smark.len() > 0 && p.emark.len() > 0
}

/// Spec-level view of a [`crate::Part`].
pub struct PartV {
    pub content: Seq<char>,
    pub state: State,
    pub value: Option<Seq<char>>,
}

/// One atom of the classified output stream.
pub enum Ev {
    /// A content character emitted while searching for a start marker.
    Quest(char),
    /// The start marker of pair `k` completed here.
    Open(int),
    /// A content character emitted inside an open region of pair `k`.
    Inner(char, int),
    /// The end marker of pair `k` completed here.
    Close(int),
}

/// The characters of the input stream that one event accounts for.
pub open spec fn ev_text(cfg: Seq<PairSpec>, e: Ev) -> Seq<char> {
    match e {
        Ev::Quest(c) => seq![c],
        Ev::Inner(c, _) => seq![c],
        Ev::Open(k) => cfg[k].smark,
        Ev::Close(k) => cfg[k].emark,
    }
}

/// Reconstructs the consumed input from an event sequence: content
/// characters stand for themselves and each marker event stands for the
/// marker's text.
pub open spec fn restore(cfg: Seq<PairSpec>, evs: Seq<Ev>) -> Seq<char>
    decreases evs.len(),
{
    if evs.len() == 0 {
        Seq::<char>::empty()
    } else {
        ev_text(cfg, evs[0]) + restore(cfg, evs.drop_first())
    }
}

pub proof fn lemma_restore_app(cfg: Seq<PairSpec>, a: Seq<Ev>, b: Seq<Ev>)
    ensures
        restore(cfg, a + b) == restore(cfg, a) + restore(cfg, b),
    decreases a.len(),
{
    if a.len() == 0 {
        assert(a + b =~= b);
        assert(restore(cfg, a) + restore(cfg, b) =~= restore(cfg, b));
    } else {
        assert((a + b).drop_first() =~= a.drop_first() + b);
        lemma_restore_app(cfg, a.drop_first(), b);
        assert(restore(cfg, a + b) =~= restore(cfg, a) + restore(cfg, b));
    }
}

/// The scanning mode of the spec machine: searching for a start marker, or
/// inside the open region of pair `k`.
pub enum ModeSpec {
    Seeking,
    Inside(int),
}

/// The mode after one event.
pub open spec fn ev_next_mode(m: ModeSpec, e: Ev) -> ModeSpec {
    match e {
        Ev::Open(k) => ModeSpec::Inside(k),
        Ev::Close(_) => ModeSpec::Seeking,
        _ => m,
    }
}

/// The mode after a sequence of events.
pub open spec fn evs_end_mode(m: ModeSpec, evs: Seq<Ev>) -> ModeSpec
    decreases evs.len(),
{
    if evs.len() == 0 {
        m
    } else {
        evs_end_mode(ev_next_mode(m, evs[0]), evs.drop_first())
    }
}

pub proof fn lemma_end_mode_app(m: ModeSpec, a: Seq<Ev>, b: Seq<Ev>)
    ensures
        evs_end_mode(m, a + b) == evs_end_mode(evs_end_mode(m, a), b),
    decreases a.len(),
{
    if a.len() == 0 {
        assert(a + b =~= b);
    } else {
        assert((a + b).drop_first() =~= a.drop_first() + b);
        lemma_end_mode_app(ev_next_mode(m, a[0]), a.drop_first(), b);
    }
}

/// Tag alternation: starting in mode `m`, each event is legal in the mode
/// it occurs in. An `Open` only occurs while seeking, a `Close` or `Inner`
/// only inside the region it names, a `Quest` character only while seeking.
pub open spec fn evs_mode_ok(cfg: Seq<PairSpec>, m: ModeSpec, evs: Seq<Ev>) -> bool
    decreases evs.len(),
{
    if evs.len() == 0 {
        true
    } else {
        let ok = match (m, evs[0]) {
            (ModeSpec::Seeking, Ev::Quest(_)) => true,
            (ModeSpec::Seeking, Ev::Open(k)) => 0 <= k < cfg.len(),
            (ModeSpec::Inside(k), Ev::Inner(_, k2)) => k2 == k,
            (ModeSpec::Inside(k), Ev::Close(k2)) => k2 == k,
            _ => false,
        };
        ok && evs_mode_ok(cfg, ev_next_mode(m, evs[0]), evs.drop_first())
    }
}

pub proof fn lemma_mode_ok_app(cfg: Seq<PairSpec>, m: ModeSpec, a: Seq<Ev>, b: Seq<Ev>)
    requires
        evs_mode_ok(cfg, m, a),
        evs_mode_ok(cfg, evs_end_mode(m, a), b),
    ensures
        evs_mode_ok(cfg, m, a + b),
    decreases a.len(),
{
    if a.len() == 0 {
        assert(a + b =~= b);
    } else {
        assert((a + b).drop_first() =~= a.drop_first() + b);
        lemma_mode_ok_app(cfg, ev_next_mode(m, a[0]), a.drop_first(), b);
    }
}

/// Builds one spec-level part.
pub open spec fn mk_part(content: Seq<char>, state: State, value: Option<Seq<char>>) -> PartV {
    PartV { content, state, value }
}

/// The `Open` event of pair `k`.
pub open spec fn mk_open(k: int) -> Ev {
    Ev::Open(k)
}

/// The `Close` event of pair `k`.
pub open spec fn mk_close(k: int) -> Ev {
    Ev::Close(k)
}

/// The parts a flush of `content` produces: one content part, or none when
/// there is nothing to flush.
pub open spec fn flush_parts(content: Seq<char>, state: State, value: Option<Seq<char>>) -> Seq<
    PartV,
> {
    if content.len() == 0 {
        Seq::<PartV>::empty()
    } else {
        seq![mk_part(content, state, value)]
    }
}

/// The view of an optional owned string.
pub open spec fn opt_view(o: Option<String>) -> Option<Seq<char>> {
    match o {
        Some(s) => Some(s@),
        None => None,
    }
}

/// Wraps one character as a `Quest` event.
pub open spec fn mk_quest(c: char) -> Ev {
    Ev::Quest(c)
}

/// Wraps one character as an `Inner` event of pair `k`.
pub open spec fn mk_inner(c: char, k: int) -> Ev {
    Ev::Inner(c, k)
}

/// The content characters of `s`, as `Quest` events.
pub open spec fn quest_evs(s: Seq<char>) -> Seq<Ev>
    decreases s.len(),
{
    if s.len() == 0 {
        Seq::<Ev>::empty()
    } else {
        quest_evs(s.drop_last()).push(mk_quest(s.last()))
    }
}

/// The content characters of `s`, as `Inner` events of pair `k`.
pub open spec fn inner_evs(s: Seq<char>, k: int) -> Seq<Ev>
    decreases s.len(),
{
    if s.len() == 0 {
        Seq::<Ev>::empty()
    } else {
        inner_evs(s.drop_last(), k).push(mk_inner(s.last(), k))
    }
}

pub proof fn lemma_quest_evs_shape(s: Seq<char>)
    ensures
        quest_evs(s).len() == s.len(),
        forall|x: int| 0 <= x < s.len() ==> quest_evs(s)[x] == Ev::Quest(s[x]),
    decreases s.len(),
{
    if s.len() > 0 {
        lemma_quest_evs_shape(s.drop_last());
    }
}

pub proof fn lemma_inner_evs_shape(s: Seq<char>, k: int)
    ensures
        inner_evs(s, k).len() == s.len(),
        forall|x: int| 0 <= x < s.len() ==> inner_evs(s, k)[x] == Ev::Inner(s[x], k),
    decreases s.len(),
{
    if s.len() > 0 {
        lemma_inner_evs_shape(s.drop_last(), k);
    }
}

pub proof fn lemma_quest_evs_app(a: Seq<char>, b: Seq<char>)
    ensures
        quest_evs(a + b) == quest_evs(a) + quest_evs(b),
{
    lemma_quest_evs_shape(a);
    lemma_quest_evs_shape(b);
    lemma_quest_evs_shape(a + b);
    assert(quest_evs(a + b) =~= quest_evs(a) + quest_evs(b));
}

pub proof fn lemma_inner_evs_app(a: Seq<char>, b: Seq<char>, k: int)
    ensures
        inner_evs(a + b, k) == inner_evs(a, k) + inner_evs(b, k),
{
    lemma_inner_evs_shape(a, k);
    lemma_inner_evs_shape(b, k);
    lemma_inner_evs_shape(a + b, k);
    assert(inner_evs(a + b, k) =~= inner_evs(a, k) + inner_evs(b, k));
}

pub proof fn lemma_quest_evs_restore(cfg: Seq<PairSpec>, s: Seq<char>)
    ensures
        restore(cfg, quest_evs(s)) == s,
    decreases s.len(),
{
    lemma_quest_evs_shape(s);
    if s.len() == 0 {
        assert(restore(cfg, quest_evs(s)) =~= s);
    } else {
        lemma_quest_evs_shape(s.drop_first());
        assert(quest_evs(s).drop_first() =~= quest_evs(s.drop_first()));
        lemma_quest_evs_restore(cfg, s.drop_first());
        assert(quest_evs(s)[0] == Ev::Quest(s[0]));
        assert(restore(cfg, quest_evs(s)) =~= s);
    }
}

pub proof fn lemma_inner_evs_restore(cfg: Seq<PairSpec>, s: Seq<char>, k: int)
    ensures
        restore(cfg, inner_evs(s, k)) == s,
    decreases s.len(),
{
    lemma_inner_evs_shape(s, k);
    if s.len() == 0 {
        assert(restore(cfg, inner_evs(s, k)) =~= s);
    } else {
        lemma_inner_evs_shape(s.drop_first(), k);
        assert(inner_evs(s, k).drop_first() =~= inner_evs(s.drop_first(), k));
        lemma_inner_evs_restore(cfg, s.drop_first(), k);
        assert(restore(cfg, inner_evs(s, k)) =~= s);
    }
}

pub proof fn lemma_quest_evs_modes(cfg: Seq<PairSpec>, s: Seq<char>)
    ensures
        evs_mode_ok(cfg, ModeSpec::Seeking, quest_evs(s)),
        evs_end_mode(ModeSpec::Seeking, quest_evs(s)) == ModeSpec::Seeking,
    decreases s.len(),
{
    lemma_quest_evs_shape(s);
    if s.len() > 0 {
        lemma_quest_evs_shape(s.drop_first());
        assert(quest_evs(s).drop_first() =~= quest_evs(s.drop_first()));
        lemma_quest_evs_modes(cfg, s.drop_first());
    }
}

pub proof fn lemma_inner_evs_modes(cfg: Seq<PairSpec>, s: Seq<char>, k: int)
    ensures
        evs_mode_ok(cfg, ModeSpec::Inside(k), inner_evs(s, k)),
        evs_end_mode(ModeSpec::Inside(k), inner_evs(s, k)) == ModeSpec::Inside(k),
    decreases s.len(),
{
    lemma_inner_evs_shape(s, k);
    if s.len() > 0 {
        lemma_inner_evs_shape(s.drop_first(), k);
        assert(inner_evs(s, k).drop_first() =~= inner_evs(s.drop_first(), k));
        lemma_inner_evs_modes(cfg, s.drop_first(), k);
    }
}

/// Parts aligned with the events they stand for: content parts consume one
/// event per character, transition parts consume their marker event, and
/// each part's value is the configured value of the pair its events name.
pub open spec fn parts_match_evs(cfg: Seq<PairSpec>, parts: Seq<PartV>, evs: Seq<Ev>) -> bool
    decreases parts.len(),
{
    if parts.len() == 0 {
        evs.len() == 0
    } else {
        let pt = parts[0];
        match pt.state {
            State::StateQuest => {
                &&& pt.content.len() > 0
                &&& evs.len() >= pt.content.len()
                &&& pt.value is None
                &&& (forall|x: int|
                    0 <= x < pt.content.len() ==> #[trigger] evs[x] == Ev::Quest(pt.content[x]))
                &&& parts_match_evs(cfg, parts.drop_first(), evs.skip(pt.content.len() as int))
            },
            State::StateMatch => {
                &&& pt.content.len() > 0
                &&& evs.len() >= pt.content.len()
                &&& evs[0] is Inner
                &&& pt.value == cfg[evs[0]->Inner_1].value
                &&& (forall|x: int|
                    0 <= x < pt.content.len() ==> #[trigger] evs[x] == Ev::Inner(
                        pt.content[x],
                        evs[0]->Inner_1,
                    ))
                &&& parts_match_evs(cfg, parts.drop_first(), evs.skip(pt.content.len() as int))
            },
            State::StateSmark => {
                &&& pt.content.len() == 0
                &&& evs.len() >= 1
                &&& evs[0] is Open
                &&& pt.value == cfg[evs[0]->Open_0].value
                &&& parts_match_evs(cfg, parts.drop_first(), evs.drop_first())
            },
            State::StateEmark => {
                &&& pt.content.len() == 0
                &&& evs.len() >= 1
                &&& evs[0] is Close
                &&& pt.value is None
                &&& parts_match_evs(cfg, parts.drop_first(), evs.drop_first())
            },
        }
    }
}

} // verus!
