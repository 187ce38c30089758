//! The many-pair specialization: the multi-pattern automaton scans for any
//! start marker; a registry keyed by the automaton's pattern index supplies
//! the matching end marker and value.
//!
//! The processor's behaviour is specified by the spec machine [`ta_loop`];
//! the lemmas mirror the single-pair ones: losslessness
//! ([`lemma_ta_loop_restore`]), chunk-boundary independence
//! ([`lemma_ta_loop_extend`]), tag alternation ([`lemma_ta_loop_modes`]),
//! value propagation ([`lemma_ta_loop_values`], and precisely per pair
//! through [`lemma_ta_loop_parts_evs`]) and the idempotent empty flush
//! ([`lemma_ta_loop_idle`]).

use vstd::prelude::*;

use crate::matcher::aca;
use crate::matcher::aca::{is_suffix, Ahoca, AScan};
use crate::matcher::kmp;
use crate::matcher::kmp::{
    kscan, lemma_kscan_app, lemma_kscan_bounds, lemma_kscan_facts, lemma_kscan_rescan, KScan,
    Kpair,
};
use crate::model::{
    ev_next_mode, ev_text, evs_end_mode, evs_mode_ok, flush_parts, inner_evs, lemma_end_mode_app,
    lemma_inner_evs_app, lemma_inner_evs_modes, lemma_inner_evs_restore, lemma_mode_ok_app,
    lemma_quest_evs_app, lemma_quest_evs_modes, lemma_quest_evs_restore, lemma_restore_app,
    lemma_inner_evs_shape, lemma_quest_evs_shape, mk_close, mk_open, mk_part, opt_view,
    parts_match_evs, quest_evs, restore, Ev, ModeSpec, PairSpec, PartV,
};
use crate::{chars_of, string_of, Part, Slob, State, Tpair};

verus! {

/// Well-formed many-pair configuration: a valid automaton and, for each of
/// its patterns, a non-empty end marker with a valid border table.
pub open spec fn ta_wf(a: Ahoca, ends: Seq<Kpair>, vals: Seq<Option<Seq<char>>>) -> bool {
    &&& a.wf()
    &&& ends.len() == a.npats()
    &&& vals.len() == a.npats()
    &&& (forall|k: int|
        0 <= k < ends.len() ==> (#[trigger] ends[k]).wf() && ends[k].mark@.len() > 0)
}

/// A machine mode that names a real pair.
pub open spec fn ta_mode_ok(a: Ahoca, m: ModeSpec) -> bool {
    match m {
        ModeSpec::Seeking => true,
        ModeSpec::Inside(k) => 0 <= k < a.npats(),
    }
}

/// The configuration the pair data stands for, given pointwise.
pub open spec fn ta_cfg_ok(
    cfg: Seq<PairSpec>,
    a: Ahoca,
    ends: Seq<Kpair>,
    vals: Seq<Option<Seq<char>>>,
) -> bool {
    &&& cfg.len() == a.npats()
    &&& (forall|k: int|
        0 <= k < cfg.len() ==> {
            &&& (#[trigger] cfg[k]).smark == a.patv(k)
            &&& cfg[k].emark == ends[k].mark@
            &&& cfg[k].value == vals[k]
        })
}

/// The outcome of draining one buffer.
pub struct TaOut {
    pub parts: Seq<PartV>,
    pub evs: Seq<Ev>,
    pub m: ModeSpec,
    pub buf: Seq<char>,
}

/// Builds a [`TaOut`].
pub open spec fn ta_out(parts: Seq<PartV>, evs: Seq<Ev>, m: ModeSpec, buf: Seq<char>) -> TaOut {
    TaOut { parts, evs, m, buf }
}

/// The many-pair drain loop: while seeking, scan with the automaton; inside
/// a region, scan for that region's end marker; flush content, emit the
/// transition parts, and retain the live suffix on a miss.
pub open spec fn ta_loop(
    a: Ahoca,
    ends: Seq<Kpair>,
    vals: Seq<Option<Seq<char>>>,
    m: ModeSpec,
    buf: Seq<char>,
) -> TaOut
    decreases buf.len(),
    when ta_wf(a, ends, vals) && ta_mode_ok(a, m)
    via ta_loop_dec
{
    match m {
        ModeSpec::Seeking => match a.ascan(0, buf) {
            AScan::Miss { t } => {
                let cut = buf.len() - a.spanv(t);
                ta_out(
                    flush_parts(buf.take(cut), State::StateQuest, None),
                    quest_evs(buf.take(cut)),
                    m,
                    buf.skip(cut),
                )
            },
            AScan::Hit { e, k } => {
                let idx = e - a.patv(k).len();
                let rest = ta_loop(a, ends, vals, ModeSpec::Inside(k), buf.skip(e));
                ta_out(
                    flush_parts(buf.take(idx), State::StateQuest, None) + seq![
                        mk_part(Seq::<char>::empty(), State::StateSmark, vals[k]),
                    ] + rest.parts,
                    quest_evs(buf.take(idx)) + seq![mk_open(k)] + rest.evs,
                    rest.m,
                    rest.buf,
                )
            },
        },
        ModeSpec::Inside(k) => match kscan(ends[k].mark@, ends[k].lps@, 0, buf) {
            KScan::Miss(j) => {
                let cut = buf.len() - j;
                ta_out(
                    flush_parts(buf.take(cut), State::StateMatch, vals[k]),
                    inner_evs(buf.take(cut), k),
                    m,
                    buf.skip(cut),
                )
            },
            KScan::Hit(e) => {
                let idx = e - ends[k].mark@.len();
                let rest = ta_loop(a, ends, vals, ModeSpec::Seeking, buf.skip(e));
                ta_out(
                    flush_parts(buf.take(idx), State::StateMatch, vals[k]) + seq![
                        mk_part(Seq::<char>::empty(), State::StateEmark, None),
                    ] + rest.parts,
                    inner_evs(buf.take(idx), k) + seq![mk_close(k)] + rest.evs,
                    rest.m,
                    rest.buf,
                )
            },
        },
    }
}

#[via_fn]
proof fn ta_loop_dec(
    a: Ahoca,
    ends: Seq<Kpair>,
    vals: Seq<Option<Seq<char>>>,
    m: ModeSpec,
    buf: Seq<char>,
) {
    if ta_wf(a, ends, vals) && ta_mode_ok(a, m) {
        match m {
            ModeSpec::Seeking => {
                a.lemma_root();
                assert(a.label(0) =~= Seq::<char>::empty().subrange(0, 0));
                a.lemma_ascan_facts(0, buf, Seq::<char>::empty());
            },
            ModeSpec::Inside(k) => {
                lemma_kscan_bounds(ends[k].mark@, ends[k].lps@, 0, buf);
            },
        }
    }
}

/// The facts of one seeking scan from the root, packaged for reuse: on a
/// hit the fired marker occurs where reported, on a miss the live node's
/// label is the retained suffix.
proof fn lemma_ta_seek_facts(a: Ahoca, buf: Seq<char>)
    requires
        a.wf(),
    ensures
        ({
            match a.ascan(0, buf) {
                AScan::Hit { e, k } => {
                    &&& 1 <= e <= buf.len()
                    &&& 0 <= k < a.npats()
                    &&& 0 < a.patv(k).len() <= e
                    &&& buf.take(e).subrange(e - a.patv(k).len(), e) == a.patv(k)
                },
                AScan::Miss { t } => {
                    &&& 0 <= t < a.nlen()
                    &&& a.quiescent(t)
                    &&& 0 <= a.spanv(t) <= buf.len()
                    &&& buf.skip(buf.len() - a.spanv(t)) == a.label(t)
                },
            }
        }),
{
    a.lemma_root();
    assert(a.label(0) =~= Seq::<char>::empty().subrange(0, 0));
    a.lemma_ascan_facts(0, buf, Seq::<char>::empty());
    assert(Seq::<char>::empty() + buf =~= buf);
    match a.ascan(0, buf) {
        AScan::Hit { e, k } => {
            assert((Seq::<char>::empty() + buf.take(e)) =~= buf.take(e));
            assert(buf.take(e).subrange(e - a.patv(k).len(), e) =~= a.patv(k));
        },
        AScan::Miss { t } => {
            a.lemma_spanv(t);
            assert(a.label(t) =~= buf.skip(buf.len() - a.spanv(t)));
        },
    }
}

/// Losslessness: restoring the markers into the emitted event stream and
/// appending the retained suffix reproduces the drained text exactly.
#[verifier::rlimit(100)]
pub proof fn lemma_ta_loop_restore(
    a: Ahoca,
    ends: Seq<Kpair>,
    vals: Seq<Option<Seq<char>>>,
    cfg: Seq<PairSpec>,
    m: ModeSpec,
    buf: Seq<char>,
)
    requires
        ta_wf(a, ends, vals),
        ta_mode_ok(a, m),
        ta_cfg_ok(cfg, a, ends, vals),
    ensures
        ({
            let o = ta_loop(a, ends, vals, m, buf);
            restore(cfg, o.evs) + o.buf == buf
        }),
    decreases buf.len(),
{
    let o = ta_loop(a, ends, vals, m, buf);
    match m {
        ModeSpec::Seeking => {
            lemma_ta_seek_facts(a, buf);
            match a.ascan(0, buf) {
                AScan::Miss { t } => {
                    let cut = buf.len() - a.spanv(t);
                    lemma_quest_evs_restore(cfg, buf.take(cut));
                    assert(buf.take(cut) + buf.skip(cut) =~= buf);
                },
                AScan::Hit { e, k } => {
                    let idx = e - a.patv(k).len();
                    let rest = ta_loop(a, ends, vals, ModeSpec::Inside(k), buf.skip(e));
                    lemma_ta_loop_restore(a, ends, vals, cfg, ModeSpec::Inside(k), buf.skip(e));
                    let head = quest_evs(buf.take(idx));
                    let mark = seq![mk_open(k)];
                    lemma_restore_app(cfg, head + mark, rest.evs);
                    lemma_restore_app(cfg, head, mark);
                    lemma_quest_evs_restore(cfg, buf.take(idx));
                    assert(mark.drop_first() =~= Seq::<Ev>::empty());
                    assert(restore(cfg, Seq::<Ev>::empty()) =~= Seq::<char>::empty());
                    assert(restore(cfg, mark) =~= ev_text(cfg, mark[0]) + restore(
                        cfg,
                        mark.drop_first(),
                    ));
                    assert(restore(cfg, mark) =~= cfg[k].smark);
                    assert(buf.take(e).subrange(idx, e) =~= buf.subrange(idx, e));
                    assert(buf.take(idx) + buf.subrange(idx, e) =~= buf.take(e));
                    assert((head + mark) + rest.evs =~= head + mark + rest.evs);
                    assert(restore(cfg, o.evs) + o.buf =~= buf.take(e) + (restore(cfg, rest.evs)
                        + rest.buf));
                    assert(buf.take(e) + buf.skip(e) =~= buf);
                },
            }
        },
        ModeSpec::Inside(k) => {
            let p = ends[k].mark@;
            let l = ends[k].lps@;
            lemma_kscan_bounds(p, l, 0, buf);
            assert(p.subrange(0, 0) =~= Seq::<char>::empty().subrange(0, 0));
            lemma_kscan_facts(p, l, 0, buf, Seq::<char>::empty());
            assert(Seq::<char>::empty() + buf =~= buf);
            match kscan(p, l, 0, buf) {
                KScan::Miss(j) => {
                    let cut = buf.len() - j;
                    lemma_inner_evs_restore(cfg, buf.take(cut), k);
                    assert(buf.take(cut) + buf.skip(cut) =~= buf);
                },
                KScan::Hit(e) => {
                    let idx = e - p.len();
                    let rest = ta_loop(a, ends, vals, ModeSpec::Seeking, buf.skip(e));
                    lemma_ta_loop_restore(a, ends, vals, cfg, ModeSpec::Seeking, buf.skip(e));
                    let head = inner_evs(buf.take(idx), k);
                    let mark = seq![mk_close(k)];
                    lemma_restore_app(cfg, head + mark, rest.evs);
                    lemma_restore_app(cfg, head, mark);
                    lemma_inner_evs_restore(cfg, buf.take(idx), k);
                    assert(mark.drop_first() =~= Seq::<Ev>::empty());
                    assert(restore(cfg, Seq::<Ev>::empty()) =~= Seq::<char>::empty());
                    assert(restore(cfg, mark) =~= ev_text(cfg, mark[0]) + restore(
                        cfg,
                        mark.drop_first(),
                    ));
                    assert(restore(cfg, mark) =~= p);
                    assert((Seq::<char>::empty() + buf.take(e)).subrange(e - p.len(), e) == p);
                    assert(Seq::<char>::empty() + buf.take(e) =~= buf.take(e));
                    assert(buf.take(e).subrange(idx, e) =~= buf.subrange(idx, e));
                    assert(buf.take(idx) + buf.subrange(idx, e) =~= buf.take(e));
                    assert((head + mark) + rest.evs =~= head + mark + rest.evs);
                    assert(restore(cfg, o.evs) + o.buf =~= buf.take(e) + (restore(cfg, rest.evs)
                        + rest.buf));
                    assert(buf.take(e) + buf.skip(e) =~= buf);
                },
            }
        },
    }
}

/// Tag alternation: the emitted events respect the mode discipline and
/// leave the machine in the mode the loop reports.
#[verifier::rlimit(100)]
pub proof fn lemma_ta_loop_modes(
    a: Ahoca,
    ends: Seq<Kpair>,
    vals: Seq<Option<Seq<char>>>,
    cfg: Seq<PairSpec>,
    m: ModeSpec,
    buf: Seq<char>,
)
    requires
        ta_wf(a, ends, vals),
        ta_mode_ok(a, m),
        ta_cfg_ok(cfg, a, ends, vals),
    ensures
        ({
            let o = ta_loop(a, ends, vals, m, buf);
            &&& evs_mode_ok(cfg, m, o.evs)
            &&& evs_end_mode(m, o.evs) == o.m
            &&& ta_mode_ok(a, o.m)
        }),
    decreases buf.len(),
{
    let o = ta_loop(a, ends, vals, m, buf);
    match m {
        ModeSpec::Seeking => {
            lemma_ta_seek_facts(a, buf);
            match a.ascan(0, buf) {
                AScan::Miss { t } => {
                    let cut = buf.len() - a.spanv(t);
                    lemma_quest_evs_modes(cfg, buf.take(cut));
                },
                AScan::Hit { e, k } => {
                    let rest = ta_loop(a, ends, vals, ModeSpec::Inside(k), buf.skip(e));
                    lemma_ta_loop_modes(a, ends, vals, cfg, ModeSpec::Inside(k), buf.skip(e));
                    let idx = e - a.patv(k).len();
                    let head = quest_evs(buf.take(idx));
                    let mark = seq![mk_open(k)];
                    lemma_quest_evs_modes(cfg, buf.take(idx));
                    assert(mark.drop_first() =~= Seq::<Ev>::empty());
                    assert(evs_mode_ok(cfg, ModeSpec::Inside(k), mark.drop_first()));
                    assert(evs_mode_ok(cfg, ModeSpec::Seeking, mark));
                    assert(evs_end_mode(ModeSpec::Inside(k), Seq::<Ev>::empty())
                        == ModeSpec::Inside(k));
                    assert(ev_next_mode(ModeSpec::Seeking, mark[0]) == ModeSpec::Inside(k));
                    assert(evs_end_mode(ModeSpec::Seeking, mark) == ModeSpec::Inside(k));
                    lemma_mode_ok_app(cfg, ModeSpec::Seeking, head, mark);
                    lemma_end_mode_app(ModeSpec::Seeking, head, mark);
                    lemma_mode_ok_app(cfg, ModeSpec::Seeking, head + mark, rest.evs);
                    lemma_end_mode_app(ModeSpec::Seeking, head + mark, rest.evs);
                    assert((head + mark) + rest.evs =~= head + mark + rest.evs);
                },
            }
        },
        ModeSpec::Inside(k) => {
            let p = ends[k].mark@;
            let l = ends[k].lps@;
            lemma_kscan_bounds(p, l, 0, buf);
            match kscan(p, l, 0, buf) {
                KScan::Miss(j) => {
                    let cut = buf.len() - j;
                    lemma_inner_evs_modes(cfg, buf.take(cut), k);
                },
                KScan::Hit(e) => {
                    let rest = ta_loop(a, ends, vals, ModeSpec::Seeking, buf.skip(e));
                    lemma_ta_loop_modes(a, ends, vals, cfg, ModeSpec::Seeking, buf.skip(e));
                    let idx = e - p.len();
                    let head = inner_evs(buf.take(idx), k);
                    let mark = seq![mk_close(k)];
                    lemma_inner_evs_modes(cfg, buf.take(idx), k);
                    assert(mark.drop_first() =~= Seq::<Ev>::empty());
                    assert(evs_mode_ok(cfg, ModeSpec::Seeking, mark.drop_first()));
                    assert(evs_mode_ok(cfg, ModeSpec::Inside(k), mark));
                    assert(evs_end_mode(ModeSpec::Seeking, Seq::<Ev>::empty())
                        == ModeSpec::Seeking);
                    assert(ev_next_mode(ModeSpec::Inside(k), mark[0]) == ModeSpec::Seeking);
                    assert(evs_end_mode(ModeSpec::Inside(k), mark) == ModeSpec::Seeking);
                    lemma_mode_ok_app(cfg, ModeSpec::Inside(k), head, mark);
                    lemma_end_mode_app(ModeSpec::Inside(k), head, mark);
                    lemma_mode_ok_app(cfg, ModeSpec::Inside(k), head + mark, rest.evs);
                    lemma_end_mode_app(ModeSpec::Inside(k), head + mark, rest.evs);
                    assert((head + mark) + rest.evs =~= head + mark + rest.evs);
                },
            }
        },
    }
}

/// Value propagation: every `StateSmark` part carries the value configured
/// for the pair that fired, every `StateMatch` content part carries the
/// value of the open pair, and every `StateEmark` part carries none.
pub proof fn lemma_ta_loop_values(
    a: Ahoca,
    ends: Seq<Kpair>,
    vals: Seq<Option<Seq<char>>>,
    m: ModeSpec,
    buf: Seq<char>,
)
    requires
        ta_wf(a, ends, vals),
        ta_mode_ok(a, m),
    ensures
        ({
            let o = ta_loop(a, ends, vals, m, buf);
            forall|i: int|
                0 <= i < o.parts.len() ==> {
                    let pt = #[trigger] o.parts[i];
                    &&& (pt.state is StateSmark ==> (exists|k: int|
                        0 <= k < vals.len() && pt.value == vals[k]) && pt.content.len() == 0)
                    &&& (pt.state is StateEmark ==> pt.value is None && pt.content.len() == 0)
                    &&& (pt.state is StateQuest ==> pt.value is None && pt.content.len() > 0)
                    &&& (pt.state is StateMatch ==> (exists|k: int|
                        0 <= k < vals.len() && pt.value == vals[k]) && pt.content.len() > 0)
                }
        }),
    decreases buf.len(),
{
    match m {
        ModeSpec::Seeking => {
            lemma_ta_seek_facts(a, buf);
            match a.ascan(0, buf) {
                AScan::Miss { t } => {},
                AScan::Hit { e, k } => {
                    lemma_ta_loop_values(a, ends, vals, ModeSpec::Inside(k), buf.skip(e));
                },
            }
        },
        ModeSpec::Inside(k) => {
            lemma_kscan_bounds(ends[k].mark@, ends[k].lps@, 0, buf);
            match kscan(ends[k].mark@, ends[k].lps@, 0, buf) {
                KScan::Miss(j) => {},
                KScan::Hit(e) => {
                    lemma_ta_loop_values(a, ends, vals, ModeSpec::Seeking, buf.skip(e));
                },
            }
        },
    }
}

/// Value propagation, precisely: each emitted part is aligned with the
/// events it stands for, so a `StateSmark` part carries the configured
/// value of exactly the pair whose `Open` event it emits, `StateMatch`
/// content carries the value of the pair its `Inner` events name, and
/// `StateEmark` parts carry none.
pub proof fn lemma_ta_loop_parts_evs(
    a: Ahoca,
    ends: Seq<Kpair>,
    vals: Seq<Option<Seq<char>>>,
    cfg: Seq<PairSpec>,
    m: ModeSpec,
    buf: Seq<char>,
)
    requires
        ta_wf(a, ends, vals),
        ta_mode_ok(a, m),
        ta_cfg_ok(cfg, a, ends, vals),
    ensures
        ({
            let o = ta_loop(a, ends, vals, m, buf);
            parts_match_evs(cfg, o.parts, o.evs)
        }),
    decreases buf.len(),
{
    let o = ta_loop(a, ends, vals, m, buf);
    match m {
        ModeSpec::Seeking => {
            lemma_ta_seek_facts(a, buf);
            match a.ascan(0, buf) {
                AScan::Miss { t } => {
                    let cut = buf.len() - a.spanv(t);
                    lemma_quest_evs_shape(buf.take(cut));
                    if cut > 0 {
                        assert(o.evs.skip(cut) =~= Seq::<Ev>::empty());
                        assert(o.parts.drop_first() =~= Seq::<PartV>::empty());
                        assert(o.evs[0] == Ev::Quest(buf.take(cut)[0]));
                    }
                    assert(parts_match_evs(cfg, Seq::<PartV>::empty(), Seq::<Ev>::empty()));
                    assert(parts_match_evs(cfg, o.parts, o.evs));
                },
                AScan::Hit { e, k } => {
                    let idx = e - a.patv(k).len();
                    let rest = ta_loop(a, ends, vals, ModeSpec::Inside(k), buf.skip(e));
                    lemma_ta_loop_parts_evs(a, ends, vals, cfg, ModeSpec::Inside(k), buf.skip(e));
                    let head = quest_evs(buf.take(idx));
                    let mark = seq![mk_open(k)];
                    lemma_quest_evs_shape(buf.take(idx));
                    let smp = mk_part(Seq::<char>::empty(), State::StateSmark, vals[k]);
                    assert((head + mark) + rest.evs =~= head + mark + rest.evs);
                    assert((seq![smp] + rest.parts).drop_first() =~= rest.parts);
                    assert((mark + rest.evs).drop_first() =~= rest.evs);
                    assert((seq![smp] + rest.parts)[0] == smp);
                    assert((mark + rest.evs)[0] == mk_open(k));
                    assert(parts_match_evs(cfg, seq![smp] + rest.parts, mark + rest.evs));
                    if idx > 0 {
                        assert(o.parts[0] == mk_part(buf.take(idx), State::StateQuest, None));
                        assert(o.evs[0] == Ev::Quest(buf.take(idx)[0]));
                        assert(o.evs.skip(idx) =~= mark + rest.evs);
                        assert(o.parts.drop_first() =~= seq![smp] + rest.parts);
                    } else {
                        assert(o.parts =~= seq![smp] + rest.parts);
                        assert(o.evs =~= mark + rest.evs);
                    }
                    assert(parts_match_evs(cfg, o.parts, o.evs));
                },
            }
        },
        ModeSpec::Inside(k) => {
            let p = ends[k].mark@;
            let l = ends[k].lps@;
            lemma_kscan_bounds(p, l, 0, buf);
            assert(p.subrange(0, 0) =~= Seq::<char>::empty().subrange(0, 0));
            lemma_kscan_facts(p, l, 0, buf, Seq::<char>::empty());
            match kscan(p, l, 0, buf) {
                KScan::Miss(j) => {
                    let cut = buf.len() - j;
                    lemma_inner_evs_shape(buf.take(cut), k);
                    if cut > 0 {
                        assert(o.evs.skip(cut) =~= Seq::<Ev>::empty());
                        assert(o.parts.drop_first() =~= Seq::<PartV>::empty());
                        assert(o.evs[0] == Ev::Inner(buf.take(cut)[0], k));
                    }
                    assert(parts_match_evs(cfg, Seq::<PartV>::empty(), Seq::<Ev>::empty()));
                    assert(parts_match_evs(cfg, o.parts, o.evs));
                },
                KScan::Hit(e) => {
                    let idx = e - p.len();
                    let rest = ta_loop(a, ends, vals, ModeSpec::Seeking, buf.skip(e));
                    lemma_ta_loop_parts_evs(a, ends, vals, cfg, ModeSpec::Seeking, buf.skip(e));
                    let head = inner_evs(buf.take(idx), k);
                    let mark = seq![mk_close(k)];
                    lemma_inner_evs_shape(buf.take(idx), k);
                    let emp = mk_part(Seq::<char>::empty(), State::StateEmark, None);
                    assert((head + mark) + rest.evs =~= head + mark + rest.evs);
                    assert((seq![emp] + rest.parts).drop_first() =~= rest.parts);
                    assert((mark + rest.evs).drop_first() =~= rest.evs);
                    assert((seq![emp] + rest.parts)[0] == emp);
                    assert((mark + rest.evs)[0] == mk_close(k));
                    assert(parts_match_evs(cfg, seq![emp] + rest.parts, mark + rest.evs));
                    if idx > 0 {
                        assert(o.parts[0] == mk_part(buf.take(idx), State::StateMatch, vals[k]));
                        assert(o.evs[0] == Ev::Inner(buf.take(idx)[0], k));
                        assert(o.evs.skip(idx) =~= mark + rest.evs);
                        assert(o.parts.drop_first() =~= seq![emp] + rest.parts);
                    } else {
                        assert(o.parts =~= seq![emp] + rest.parts);
                        assert(o.evs =~= mark + rest.evs);
                    }
                    assert(parts_match_evs(cfg, o.parts, o.evs));
                },
            }
        },
    }
}

/// After a drain the machine is settled: draining the retained suffix
/// again emits nothing and changes nothing.
pub proof fn lemma_ta_loop_settled(
    a: Ahoca,
    ends: Seq<Kpair>,
    vals: Seq<Option<Seq<char>>>,
    m: ModeSpec,
    buf: Seq<char>,
)
    requires
        ta_wf(a, ends, vals),
        ta_mode_ok(a, m),
    ensures
        ({
            let o = ta_loop(a, ends, vals, m, buf);
            &&& ta_mode_ok(a, o.m)
            &&& ta_loop(a, ends, vals, o.m, o.buf) == ta_out(
                Seq::<PartV>::empty(),
                Seq::<Ev>::empty(),
                o.m,
                o.buf,
            )
        }),
    decreases buf.len(),
{
    let o = ta_loop(a, ends, vals, m, buf);
    match m {
        ModeSpec::Seeking => {
            lemma_ta_seek_facts(a, buf);
            match a.ascan(0, buf) {
                AScan::Miss { t } => {
                    let cut = buf.len() - a.spanv(t);
                    assert(o.buf == a.label(t));
                    a.lemma_spanv(t);
                    a.lemma_ascan_rescan(t);
                    assert(a.ascan(0, o.buf) == (AScan::Miss { t }));
                    assert(o.buf.take(o.buf.len() - a.spanv(t)) =~= Seq::<char>::empty());
                    assert(o.buf.skip(o.buf.len() - a.spanv(t)) =~= o.buf);
                    assert(quest_evs(Seq::<char>::empty()) =~= Seq::<Ev>::empty());
                },
                AScan::Hit { e, k } => {
                    lemma_ta_loop_settled(a, ends, vals, ModeSpec::Inside(k), buf.skip(e));
                },
            }
        },
        ModeSpec::Inside(k) => {
            let p = ends[k].mark@;
            let l = ends[k].lps@;
            lemma_kscan_bounds(p, l, 0, buf);
            assert(p.subrange(0, 0) =~= Seq::<char>::empty().subrange(0, 0));
            lemma_kscan_facts(p, l, 0, buf, Seq::<char>::empty());
            match kscan(p, l, 0, buf) {
                KScan::Miss(j) => {
                    assert(Seq::<char>::empty() + buf =~= buf);
                    assert(o.buf =~= p.subrange(0, j));
                    lemma_kscan_rescan(p, l, j);
                    assert(kscan(p, l, 0, o.buf) == KScan::Miss(j));
                    assert(o.buf.take(o.buf.len() - j) =~= Seq::<char>::empty());
                    assert(o.buf.skip(o.buf.len() - j) =~= o.buf);
                    assert(inner_evs(Seq::<char>::empty(), k) =~= Seq::<Ev>::empty());
                },
                KScan::Hit(e) => {
                    lemma_ta_loop_settled(a, ends, vals, ModeSpec::Seeking, buf.skip(e));
                },
            }
        },
    }
}

/// The machine never fires or flushes on an empty buffer: a settled
/// processor given an empty chunk emits nothing.
pub proof fn lemma_ta_loop_idle(a: Ahoca, ends: Seq<Kpair>, vals: Seq<Option<Seq<char>>>, m: ModeSpec)
    requires
        ta_wf(a, ends, vals),
        ta_mode_ok(a, m),
    ensures
        ta_loop(a, ends, vals, m, Seq::<char>::empty()) == ta_out(
            Seq::<PartV>::empty(),
            Seq::<Ev>::empty(),
            m,
            Seq::<char>::empty(),
        ),
{
    let emp = Seq::<char>::empty();
    match m {
        ModeSpec::Seeking => {
            a.lemma_root();
            a.lemma_ascan_empty(0);
            a.lemma_spanv(0);
            assert(emp.take(0) =~= emp);
            assert(emp.skip(0) =~= emp);
            assert(quest_evs(emp) =~= Seq::<Ev>::empty());
        },
        ModeSpec::Inside(k) => {
            assert(kscan(ends[k].mark@, ends[k].lps@, 0, emp) == KScan::Miss(0));
            assert(emp.take(0) =~= emp);
            assert(emp.skip(0) =~= emp);
            assert(inner_evs(emp, k) =~= Seq::<Ev>::empty());
        },
    }
}

/// Chunk-boundary independence: draining `s` and then feeding `c` to what
/// remains produces the same events and the same final state as draining
/// `s + c` in one call. Fragment boundaries may differ; the classified
/// character stream and every marker transition are identical.
#[verifier::rlimit(100)]
pub proof fn lemma_ta_loop_extend(
    a: Ahoca,
    ends: Seq<Kpair>,
    vals: Seq<Option<Seq<char>>>,
    m: ModeSpec,
    s: Seq<char>,
    c: Seq<char>,
)
    requires
        ta_wf(a, ends, vals),
        ta_mode_ok(a, m),
    ensures
        ({
            let o1 = ta_loop(a, ends, vals, m, s);
            let o2 = ta_loop(a, ends, vals, o1.m, o1.buf + c);
            let o = ta_loop(a, ends, vals, m, s + c);
            &&& o.evs == o1.evs + o2.evs
            &&& o.m == o2.m
            &&& o.buf == o2.buf
        }),
    decreases s.len(),
{
    let o1 = ta_loop(a, ends, vals, m, s);
    let o2 = ta_loop(a, ends, vals, o1.m, o1.buf + c);
    let o = ta_loop(a, ends, vals, m, s + c);
    match m {
        ModeSpec::Seeking => {
            a.lemma_root();
            lemma_ta_seek_facts(a, s);
            a.lemma_ascan_app(0, s, c);
            match a.ascan(0, s) {
                AScan::Miss { t } => {
                    let cut1 = s.len() - a.spanv(t);
                    assert(o1.buf == a.label(t));
                    a.lemma_ascan_rescan(t);
                    a.lemma_ascan_app(0, o1.buf, c);
                    assert(a.ascan(0, o1.buf) == (AScan::Miss { t }));
                    assert(is_suffix(a.label(t), a.label(t))) by {
                        assert(a.label(t) =~= a.label(t).subrange(0, a.label(t).len() as int));
                    }
                    a.lemma_ascan_facts(t, c, a.label(t));
                    assert(o1.buf + c =~= (s + c).skip(cut1));
                    match a.ascan(t, c) {
                        AScan::Miss { t: t2 } => {
                            assert(a.ascan(0, s + c) == (AScan::Miss { t: t2 }));
                            assert(a.ascan(0, o1.buf + c) == (AScan::Miss { t: t2 }));
                            a.lemma_spanv(t);
                            a.lemma_spanv(t2);
                            assert(is_suffix(a.label(t2), a.label(t) + c));
                            let cut = s.len() + c.len() - a.spanv(t2);
                            let cut2 = a.spanv(t) + c.len() - a.spanv(t2);
                            assert((s + c).take(cut) =~= s.take(cut1) + (o1.buf + c).take(cut2));
                            lemma_quest_evs_app(s.take(cut1), (o1.buf + c).take(cut2));
                            assert(o.evs == o1.evs + o2.evs);
                            assert(o.buf =~= o2.buf);
                        },
                        AScan::Hit { e: f, k } => {
                            a.lemma_spanv(t);
                            let ea = s.len() + f;
                            let e2 = a.spanv(t) + f;
                            assert(a.ascan(0, s + c) == (AScan::Hit { e: ea, k }));
                            assert(a.ascan(0, o1.buf + c) == (AScan::Hit { e: e2, k }));
                            assert(is_suffix(a.patv(k), a.label(t) + c.take(f)));
                            assert(a.patv(k).len() <= e2);
                            let idx = ea - a.patv(k).len();
                            let idx2 = e2 - a.patv(k).len();
                            assert((s + c).take(idx) =~= s.take(cut1) + (o1.buf + c).take(idx2));
                            lemma_quest_evs_app(s.take(cut1), (o1.buf + c).take(idx2));
                            assert((o1.buf + c).skip(e2) =~= (s + c).skip(ea));
                            let rest = ta_loop(a, ends, vals, ModeSpec::Inside(k), (s + c).skip(ea));
                            assert(ta_loop(a, ends, vals, ModeSpec::Inside(k), (o1.buf + c).skip(e2))
                                == rest);
                            assert(o.evs =~= o1.evs + o2.evs);
                        },
                    }
                },
                AScan::Hit { e, k } => {
                    let idx = e - a.patv(k).len();
                    assert(a.ascan(0, s + c) == (AScan::Hit { e, k }));
                    assert((s + c).take(idx) =~= s.take(idx));
                    assert((s + c).skip(e) =~= s.skip(e) + c);
                    lemma_ta_loop_extend(a, ends, vals, ModeSpec::Inside(k), s.skip(e), c);
                    let rest1 = ta_loop(a, ends, vals, ModeSpec::Inside(k), s.skip(e));
                    let rest = ta_loop(a, ends, vals, ModeSpec::Inside(k), (s + c).skip(e));
                    assert(rest == ta_loop(a, ends, vals, ModeSpec::Inside(k), s.skip(e) + c));
                    assert(o1.m == rest1.m && o1.buf == rest1.buf);
                    assert(rest.evs == rest1.evs + o2.evs);
                    assert(o.evs =~= o1.evs + o2.evs);
                },
            }
        },
        ModeSpec::Inside(k) => {
            let p = ends[k].mark@;
            let l = ends[k].lps@;
            lemma_kscan_bounds(p, l, 0, s);
            assert(p.subrange(0, 0) =~= Seq::<char>::empty().subrange(0, 0));
            lemma_kscan_facts(p, l, 0, s, Seq::<char>::empty());
            assert(Seq::<char>::empty() + s =~= s);
            lemma_kscan_app(p, l, 0, s, c);
            match kscan(p, l, 0, s) {
                KScan::Miss(j) => {
                    let cut1 = s.len() - j;
                    assert(o1.buf =~= p.subrange(0, j));
                    lemma_kscan_rescan(p, l, j);
                    assert(kscan(p, l, 0, o1.buf) == KScan::Miss(j));
                    lemma_kscan_app(p, l, 0, o1.buf, c);
                    lemma_kscan_bounds(p, l, j, c);
                    let h = p.subrange(0, j);
                    assert(h.subrange(h.len() - j, h.len() as int) =~= h);
                    lemma_kscan_facts(p, l, j, c, h);
                    assert(o1.buf + c =~= (s + c).skip(cut1));
                    match kscan(p, l, j, c) {
                        KScan::Miss(j2) => {
                            let cut = s.len() + c.len() - j2;
                            let cut2 = j + c.len() - j2;
                            assert(kscan(p, l, 0, s + c) == KScan::Miss(j2));
                            assert(kscan(p, l, 0, o1.buf + c) == KScan::Miss(j2));
                            assert((s + c).take(cut) =~= s.take(cut1) + (o1.buf + c).take(cut2));
                            lemma_inner_evs_app(s.take(cut1), (o1.buf + c).take(cut2), k);
                            assert(o.evs == o1.evs + o2.evs);
                            assert(o.buf =~= o2.buf);
                        },
                        KScan::Hit(f) => {
                            let ea = s.len() + f;
                            let e2 = j + f;
                            assert(kscan(p, l, 0, s + c) == KScan::Hit(ea));
                            assert(kscan(p, l, 0, o1.buf + c) == KScan::Hit(e2));
                            let idx = ea - p.len();
                            let idx2 = e2 - p.len();
                            assert(p.len() <= j + f);
                            assert((s + c).take(idx) =~= s.take(cut1) + (o1.buf + c).take(idx2));
                            lemma_inner_evs_app(s.take(cut1), (o1.buf + c).take(idx2), k);
                            assert((o1.buf + c).skip(e2) =~= (s + c).skip(ea));
                            let rest = ta_loop(a, ends, vals, ModeSpec::Seeking, (s + c).skip(ea));
                            assert(ta_loop(a, ends, vals, ModeSpec::Seeking, (o1.buf + c).skip(e2))
                                == rest);
                            assert(o.evs =~= o1.evs + o2.evs);
                        },
                    }
                },
                KScan::Hit(e) => {
                    let idx = e - p.len();
                    assert(kscan(p, l, 0, s + c) == KScan::Hit(e));
                    assert((s + c).take(idx) =~= s.take(idx));
                    assert((s + c).skip(e) =~= s.skip(e) + c);
                    lemma_ta_loop_extend(a, ends, vals, ModeSpec::Seeking, s.skip(e), c);
                    let rest1 = ta_loop(a, ends, vals, ModeSpec::Seeking, s.skip(e));
                    let rest = ta_loop(a, ends, vals, ModeSpec::Seeking, (s + c).skip(e));
                    assert(rest == ta_loop(a, ends, vals, ModeSpec::Seeking, s.skip(e) + c));
                    assert(o1.m == rest1.m && o1.buf == rest1.buf);
                    assert(rest.evs == rest1.evs + o2.evs);
                    assert(o.evs =~= o1.evs + o2.evs);
                },
            }
        },
    }
}


/// The many-pair streaming processor: the automaton for start markers, and
/// a registry of end matchers and values indexed by pattern.
pub struct TacamProcessor {
    state: State,
    buffer: Vec<char>,
    acam: Ahoca,
    value: Option<String>,
    active: usize,
    emarks: Vec<Kpair>,
    values: Vec<Option<String>>,
    cfgv: Ghost<Seq<PairSpec>>,
}

impl TacamProcessor {
    /// The machine mode the processor is in.
    pub closed spec fn mode(&self) -> ModeSpec {
        if self.state is StateQuest {
            ModeSpec::Seeking
        } else {
            ModeSpec::Inside(self.active as int)
        }
    }

    /// The retained, not yet classifiable text.
    pub closed spec fn buf(&self) -> Seq<char> {
        self.buffer@
    }

    /// The configuration as spec-level pair data.
    pub closed spec fn cfg(&self) -> Seq<PairSpec> {
        self.cfgv@
    }

    /// The automaton.
    pub closed spec fn aut(&self) -> Ahoca {
        self.acam
    }

    /// The end matchers, by pair.
    pub closed spec fn ends(&self) -> Seq<Kpair> {
        self.emarks@
    }

    /// The configured values, by pair.
    pub closed spec fn vals(&self) -> Seq<Option<Seq<char>>> {
        Seq::new(self.cfgv@.len(), |k: int| self.cfgv@[k].value)
    }

    /// The value carried on content parts in the current mode: none while
    /// seeking, the configured value of the open pair inside a region.
    pub open spec fn active_val(&self) -> Option<Seq<char>> {
        match self.mode() {
            ModeSpec::Seeking => None,
            ModeSpec::Inside(k) => self.cfg()[k].value,
        }
    }

    /// Processor invariant: a valid automaton and registry, a held mode
    /// naming a real pair, the active value agreeing with the mode, and a
    /// settled buffer.
    pub closed spec fn wf(&self) -> bool {
        &&& ta_wf(self.acam, self.emarks@, self.vals())
        &&& ta_cfg_ok(self.cfgv@, self.acam, self.emarks@, self.vals())
        &&& self.values@.len() == self.acam.npats()
        &&& (forall|k: int|
            0 <= k < self.values@.len() ==> opt_view(#[trigger] self.values@[k])
                == self.cfgv@[k].value)
        &&& (self.state is StateQuest || self.state is StateMatch)
        &&& (self.state is StateQuest ==> self.value is None)
        &&& (self.state is StateMatch ==> (self.active as int) < self.acam.npats() && opt_view(
            self.value,
        ) == self.cfgv@[self.active as int].value)
        &&& ta_loop(self.acam, self.emarks@, self.vals(), self.mode(), self.buffer@) == ta_out(
            Seq::<PartV>::empty(),
            Seq::<Ev>::empty(),
            self.mode(),
            self.buffer@,
        )
    }

    /// Appends the chunk to the retained text and drains it: emits every
    /// part the spec machine prescribes and retains exactly the live
    /// suffix it prescribes.
    pub fn process(&mut self, chunk: &str) -> (parts: Vec<Part>)
        requires
            old(self).wf(),
        ensures
            final(self).wf(),
            final(self).aut() == old(self).aut(),
            final(self).ends() == old(self).ends(),
            final(self).vals() == old(self).vals(),
            final(self).cfg() == old(self).cfg(),
            ({
                let o = ta_loop(
                    old(self).aut(),
                    old(self).ends(),
                    old(self).vals(),
                    old(self).mode(),
                    old(self).buf() + chunk@,
                );
                &&& parts@.len() == o.parts.len()
                &&& (forall|i: int| 0 <= i < o.parts.len() ==> #[trigger] parts@[i]@ == o.parts[i])
                &&& final(self).mode() == o.m
                &&& final(self).buf() == o.buf
            }),
    {
        let ghost a0 = self.acam;
        let ghost ends0 = self.emarks@;
        let ghost vals0 = self.vals();
        let ghost buf0 = self.buffer@;
        let ghost m0 = self.mode();

        let mut parts: Vec<Part> = Vec::new();
        let mut cv = chars_of(chunk);
        self.buffer.append(&mut cv);

        let ghost o = ta_loop(a0, ends0, vals0, m0, buf0 + chunk@);
        proof {
            lemma_ta_loop_extend(a0, ends0, vals0, m0, buf0, chunk@);
            lemma_ta_loop_idle(a0, ends0, vals0, m0);
            assert(buf0 + chunk@ == self.buffer@);
        }

        loop
            invariant
                ta_wf(self.acam, self.emarks@, self.vals()),
                self.acam == a0,
                self.emarks@ == ends0,
                self.vals() == vals0,
                self.cfgv@ == old(self).cfgv@,
                self.values@ == old(self).values@,
                ta_cfg_ok(self.cfgv@, self.acam, self.emarks@, self.vals()),
                self.values@.len() == self.acam.npats(),
                (forall|k: int|
                    0 <= k < self.values@.len() ==> opt_view(#[trigger] self.values@[k])
                        == self.cfgv@[k].value),
                (self.state is StateQuest || self.state is StateMatch),
                (self.state is StateQuest ==> self.value is None),
                (self.state is StateMatch ==> (self.active as int) < self.acam.npats() && opt_view(
                    self.value,
                ) == self.cfgv@[self.active as int].value),
                ta_mode_ok(self.acam, self.mode()),
                o == ta_loop(a0, ends0, vals0, m0, buf0 + chunk@),
                ({
                    let rem = ta_loop(a0, ends0, vals0, self.mode(), self.buffer@);
                    &&& parts@.len() + rem.parts.len() == o.parts.len()
                    &&& (forall|i: int|
                        0 <= i < parts@.len() ==> #[trigger] parts@[i]@ == o.parts[i])
                    &&& (forall|i: int|
                        0 <= i < rem.parts.len() ==> #[trigger] rem.parts[i] == o.parts[parts@.len()
                            + i])
                    &&& o.m == rem.m
                    &&& o.buf == rem.buf
                }),
            ensures
                self.acam == a0,
                self.emarks@ == ends0,
                self.vals() == vals0,
                self.cfgv@ == old(self).cfgv@,
                self.values@ == old(self).values@,
                (self.state is StateQuest || self.state is StateMatch),
                (self.state is StateQuest ==> self.value is None),
                (self.state is StateMatch ==> (self.active as int) < self.acam.npats() && opt_view(
                    self.value,
                ) == self.cfgv@[self.active as int].value),
                parts@.len() == o.parts.len(),
                forall|i: int| 0 <= i < o.parts.len() ==> #[trigger] parts@[i]@ == o.parts[i],
                self.mode() == o.m,
                self.buffer@ == o.buf,
                ta_loop(a0, ends0, vals0, self.mode(), self.buffer@) == ta_out(
                    Seq::<PartV>::empty(),
                    Seq::<Ev>::empty(),
                    self.mode(),
                    self.buffer@,
                ),
            decreases self.buffer@.len(),
        {
            let ghost rem = ta_loop(a0, ends0, vals0, self.mode(), self.buffer@);
            let ghost bufi = self.buffer@;
            let blen = self.buffer.len();
            let seeking = self.state == State::StateQuest;
            let (idx, hit): (usize, Option<usize>) = if seeking {
                let (i1, m1) = self.acam.query(&self.buffer);
                (i1, m1)
            } else {
                let kp = &self.emarks[self.active];
                let (i2, found) = kmp::do_match_chars(&kp.mark, &self.buffer, &kp.lps);
                (i2, if found { Some(self.active) } else { None })
            };
            proof {
                if seeking {
                    lemma_ta_seek_facts(a0, bufi);
                } else {
                    let k = self.active as int;
                    let p = ends0[k].mark@;
                    let l = ends0[k].lps@;
                    lemma_kscan_bounds(p, l, 0, bufi);
                    assert(p.subrange(0, 0) =~= Seq::<char>::empty().subrange(0, 0));
                    lemma_kscan_facts(p, l, 0, bufi, Seq::<char>::empty());
                    assert(Seq::<char>::empty() + bufi =~= bufi);
                }
            }
            if idx > 0 {
                let content = string_of(&self.buffer, 0, idx);
                let value = match &self.value {
                    Some(s) => Some(s.clone()),
                    None => None,
                };
                let pt = Part { content, state: self.state, value };
                proof {
                    assert(bufi.subrange(0, idx as int) =~= bufi.take(idx as int));
                    if seeking {
                        assert(pt@ == mk_part(bufi.take(idx as int), State::StateQuest, None));
                    } else {
                        assert(pt@ == mk_part(
                            bufi.take(idx as int),
                            State::StateMatch,
                            vals0[self.active as int],
                        ));
                    }
                }
                parts.push(pt);
            }
            match hit {
                None => {
                    let tail = self.buffer.split_off(idx);
                    self.buffer = tail;
                    proof {
                        assert(self.buffer@ =~= bufi.skip(idx as int));
                        assert(rem.buf == self.buffer@ && rem.m == self.mode());
                        if idx > 0 {
                            assert(parts@[parts@.len() - 1]@ == rem.parts[0]);
                        } else {
                            assert(bufi.take(0) =~= Seq::<char>::empty());
                            assert(rem.parts =~= Seq::<PartV>::empty());
                        }
                        lemma_ta_loop_settled(a0, ends0, vals0, self.mode(), bufi);
                    }
                    break ;
                },
                Some(kfound) => {
                    let mlen = if seeking {
                        self.acam.pat_len(kfound)
                    } else {
                        self.emarks[self.active].mark.len()
                    };
                    let ghost e: int = idx as int + mlen as int;
                    proof {
                        if seeking {
                            assert(a0.ascan(0, bufi) == (AScan::Hit { e, k: kfound as int }));
                        } else {
                            assert(kscan(
                                ends0[self.active as int].mark@,
                                ends0[self.active as int].lps@,
                                0,
                                bufi,
                            ) == KScan::Hit(e));
                        }
                        assert(e <= bufi.len());
                    }
                    let ghost mprev = self.mode();
                    let ghost flushed = if seeking {
                        flush_parts(bufi.take(idx as int), State::StateQuest, None)
                    } else {
                        flush_parts(
                            bufi.take(idx as int),
                            State::StateMatch,
                            vals0[self.active as int],
                        )
                    };
                    let ghost rest = ta_loop(
                        a0,
                        ends0,
                        vals0,
                        (if seeking {
                            ModeSpec::Inside(kfound as int)
                        } else {
                            ModeSpec::Seeking
                        }),
                        bufi.skip(e),
                    );
                    if seeking {
                        self.active = kfound;
                        self.value = match &self.values[kfound] {
                            Some(s) => Some(s.clone()),
                            None => None,
                        };
                        let value = match &self.value {
                            Some(s) => Some(s.clone()),
                            None => None,
                        };
                        let pt = Part { content: String::new(), state: State::StateSmark, value };
                        proof {
                            assert(pt@ == mk_part(
                                Seq::<char>::empty(),
                                State::StateSmark,
                                vals0[kfound as int],
                            ));
                            let smp = mk_part(
                                Seq::<char>::empty(),
                                State::StateSmark,
                                vals0[kfound as int],
                            );
                            assert(rem.parts == flushed + seq![smp] + rest.parts);
                        }
                        parts.push(pt);
                        self.state = State::StateMatch;
                    } else {
                        self.value = None;
                        let pt = Part {
                            content: String::new(),
                            state: State::StateEmark,
                            value: None,
                        };
                        proof {
                            assert(pt@ == mk_part(Seq::<char>::empty(), State::StateEmark, None));
                            assert(rem.parts == flushed + seq![
                                mk_part(Seq::<char>::empty(), State::StateEmark, None),
                            ] + rest.parts);
                        }
                        parts.push(pt);
                        self.state = State::StateQuest;
                    }
                    let tail = self.buffer.split_off(idx + mlen);
                    self.buffer = tail;
                    proof {
                        assert(self.buffer@ =~= bufi.skip(e));
                        let newrem = ta_loop(a0, ends0, vals0, self.mode(), self.buffer@);
                        assert(newrem == rest);
                        assert forall|i: int| 0 <= i < parts@.len() implies #[trigger] parts@[i]@
                            == o.parts[i] by {
                            if idx > 0 && i == parts@.len() - 2 {
                                assert(parts@[i]@ == rem.parts[0]);
                            }
                            if i == parts@.len() - 1 {
                                assert(parts@[i]@ == rem.parts[flushed.len() as int]);
                            }
                        }
                        assert forall|i: int| 0 <= i < newrem.parts.len() implies #[trigger] newrem
                            .parts[i] == o.parts[parts@.len() + i] by {
                            assert(newrem.parts[i] == rem.parts[flushed.len() + 1 + i]);
                        }
                    }
                },
            }
        }
        parts
    }
}

impl Slob for TacamProcessor {
    open spec fn slob_wf(&self) -> bool {
        self.wf()
    }

    fn process(&mut self, chunk: &str) -> Vec<Part> {
        TacamProcessor::process(self, chunk)
    }
}

/// Builds the many-pair processor: the automaton over all start markers,
/// and the registry of end matchers and values, indexed by pattern.
pub fn new(pairs: Vec<Tpair>) -> (p: TacamProcessor)
    requires
        forall|i: int|
            0 <= i < pairs@.len() ==> (#[trigger] pairs@[i]@).smark.len() > 0 && pairs@[i]@.emark.len()
                > 0,
    ensures
        p.wf(),
        ta_wf(p.aut(), p.ends(), p.vals()),
        ta_cfg_ok(p.cfg(), p.aut(), p.ends(), p.vals()),
        p.aut().fail_maximal(),
        forall|k: int| 0 <= k < p.aut().npats() ==> #[trigger] p.aut().has_terminal_for(k),
        forall|k: int, dd: int|
            0 <= k < p.aut().npats() && 0 <= dd <= p.aut().patv(k).len()
                ==> p.aut().has_node_for(#[trigger] p.aut().patv(k).take(dd)),
        p.cfg().len() == pairs@.len(),
        forall|k: int|
            0 <= k < pairs@.len() ==> {
                &&& (#[trigger] p.cfg()[k]).smark == pairs@[k]@.smark
                &&& p.cfg()[k].emark == pairs@[k]@.emark
                &&& p.cfg()[k].value == pairs@[k]@.value
            },
        p.mode() == ModeSpec::Seeking,
        p.buf() =~= Seq::<char>::empty(),
{
    let mut emarks: Vec<Kpair> = Vec::new();
    let mut values: Vec<Option<String>> = Vec::new();
    let ghost pairsv = pairs@;
    let mut i: usize = 0;
    while i < pairs.len()
        invariant
            pairs@ == pairsv,
            i <= pairsv.len(),
            emarks@.len() == i,
            values@.len() == i,
            forall|k: int|
                0 <= k < i ==> (#[trigger] emarks@[k]).wf() && emarks@[k].mark@
                    == pairsv[k]@.emark,
            forall|k: int|
                0 <= k < i ==> opt_view(#[trigger] values@[k]) == pairsv[k]@.value,
            forall|k: int|
                0 <= k < pairsv.len() ==> (#[trigger] pairsv[k]@).smark.len() > 0
                    && pairsv[k]@.emark.len() > 0,
        decreases pairsv.len() - i,
    {
        let pr = pairs[i].clone_parts();
        emarks.push(kmp::new(pr.0.as_str()));
        values.push(pr.1);
        i = i + 1;
    }
    let acam = aca::new(pairs);
    let ghost cfg0: Seq<PairSpec> = Seq::new(
        pairsv.len(),
        |k: int|
            PairSpec {
                smark: pairsv[k]@.smark,
                emark: pairsv[k]@.emark,
                value: pairsv[k]@.value,
            },
    );
    let p = TacamProcessor {
        state: State::StateQuest,
        buffer: Vec::new(),
        acam,
        value: None,
        active: 0,
        emarks,
        values,
        cfgv: Ghost(cfg0),
    };
    proof {
        assert forall|k: int| 0 <= k < p.vals().len() implies #[trigger] p.vals()[k]
            == pairsv[k]@.value by {
            assert(cfg0[k].value == pairsv[k]@.value);
        }
        assert(ta_wf(p.acam, p.emarks@, p.vals()));
        assert(ta_cfg_ok(p.cfgv@, p.acam, p.emarks@, p.vals()));
        lemma_ta_loop_idle(p.acam, p.emarks@, p.vals(), ModeSpec::Seeking);
    }
    p
}

} // verus!
