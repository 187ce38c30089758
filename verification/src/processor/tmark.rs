//! The single-pair specialization: both the start and the end marker are
//! scanned with the single-pattern matcher.
//!
//! The processor's behaviour is specified by the spec machine [`tm_loop`]:
//! given the configured pair and the unprocessed text, it yields the exact
//! parts emitted, the event stream ([`crate::model::Ev`]) they stand for,
//! and the retained live suffix. The lemmas below establish the stream
//! laws: losslessness ([`lemma_tm_loop_restore`]), chunk-boundary
//! independence ([`lemma_tm_loop_extend`]), tag alternation
//! ([`lemma_tm_loop_modes`]), value propagation ([`lemma_tm_loop_values`],
//! and aligned with the events through [`lemma_tm_loop_parts_evs`]) and
//! the idempotent empty flush ([`lemma_tm_loop_idle`]).

use vstd::prelude::*;

use crate::matcher::kmp;
use crate::matcher::kmp::{
    kscan, lemma_kscan_app, lemma_kscan_bounds, lemma_kscan_facts, lemma_kscan_rescan,
    KScan, Kpair,
};
use crate::model::{
    ev_next_mode, ev_text, lemma_inner_evs_shape, lemma_quest_evs_shape, parts_match_evs,
    evs_end_mode, evs_mode_ok, flush_parts, inner_evs, lemma_end_mode_app, lemma_inner_evs_app,
    lemma_inner_evs_modes, lemma_inner_evs_restore, lemma_mode_ok_app, lemma_quest_evs_app,
    lemma_quest_evs_modes, lemma_quest_evs_restore, lemma_restore_app, mk_close, mk_open, mk_part,
    opt_view, quest_evs, restore, Ev, ModeSpec, PairSpec, PartV,
};
use crate::{chars_of, string_of, Part, Slob, State, Tpair};

verus! {

/// Well-formed single-pair configuration: two non-empty markers, each with
/// a valid border table.
pub open spec fn tm_wf(ks: Kpair, ke: Kpair) -> bool {
    &&& ks.wf()
    &&& ke.wf()
    &&& ks.mark@.len() > 0
    &&& ke.mark@.len() > 0
}

/// The marker scanned in the given mode: the start marker while seeking,
/// the end marker inside a region.
pub open spec fn tm_pat(ks: Kpair, ke: Kpair, seeking: bool) -> Seq<char> {
    if seeking {
        ks.mark@
    } else {
        ke.mark@
    }
}

/// The border table scanned with in the given mode.
pub open spec fn tm_tab(ks: Kpair, ke: Kpair, seeking: bool) -> Seq<usize> {
    if seeking {
        ks.lps@
    } else {
        ke.lps@
    }
}

/// The events standing for flushed content in the given mode.
pub open spec fn tm_cevs(seeking: bool, s: Seq<char>) -> Seq<Ev> {
    if seeking {
        quest_evs(s)
    } else {
        inner_evs(s, 0)
    }
}

/// The event for the marker completing in the given mode.
pub open spec fn tm_mark_ev(seeking: bool) -> Ev {
    if seeking {
        mk_open(0)
    } else {
        mk_close(0)
    }
}

/// The part emitted when the marker completes in the given mode.
pub open spec fn tm_mark_part(seeking: bool, val: Option<Seq<char>>) -> PartV {
    if seeking {
        mk_part(Seq::<char>::empty(), State::StateSmark, val)
    } else {
        mk_part(Seq::<char>::empty(), State::StateEmark, None)
    }
}

/// The tag on content parts in the given mode.
pub open spec fn tm_state(seeking: bool) -> State {
    if seeking {
        State::StateQuest
    } else {
        State::StateMatch
    }
}

/// The value on content parts in the given mode: none while seeking, the
/// configured value inside a region.
pub open spec fn tm_val(seeking: bool, val: Option<Seq<char>>) -> Option<Seq<char>> {
    if seeking {
        None
    } else {
        val
    }
}

/// The spec-machine mode corresponding to a processor mode.
pub open spec fn tm_mode(seeking: bool) -> ModeSpec {
    if seeking {
        ModeSpec::Seeking
    } else {
        ModeSpec::Inside(0)
    }
}

/// The outcome of draining one buffer: the parts emitted, the events they
/// stand for, and the mode and live suffix left behind.
pub struct TmOut {
    pub parts: Seq<PartV>,
    pub evs: Seq<Ev>,
    pub seeking: bool,
    pub buf: Seq<char>,
}

/// Builds a [`TmOut`].
pub open spec fn tm_out(parts: Seq<PartV>, evs: Seq<Ev>, seeking: bool, buf: Seq<char>) -> TmOut {
    TmOut { parts, evs, seeking, buf }
}

/// The single-pair drain loop: scan for the active marker; flush what is
/// provably content; on a full match emit the transition part, drop the
/// marker and continue in the other mode; on a miss retain the live suffix.
pub open spec fn tm_loop(
    ks: Kpair,
    ke: Kpair,
    val: Option<Seq<char>>,
    seeking: bool,
    buf: Seq<char>,
) -> TmOut
    decreases buf.len(),
    when tm_wf(ks, ke)
    via tm_loop_dec
{
    let p = tm_pat(ks, ke, seeking);
    let l = tm_tab(ks, ke, seeking);
    match kscan(p, l, 0, buf) {
        KScan::Miss(j) => {
            let cut = buf.len() - j;
            tm_out(
                flush_parts(buf.take(cut), tm_state(seeking), tm_val(seeking, val)),
                tm_cevs(seeking, buf.take(cut)),
                seeking,
                buf.skip(cut),
            )
        },
        KScan::Hit(e) => {
            let idx = e - p.len();
            let rest = tm_loop(ks, ke, val, !seeking, buf.skip(e));
            tm_out(
                flush_parts(buf.take(idx), tm_state(seeking), tm_val(seeking, val)) + seq![
                    tm_mark_part(seeking, val),
                ] + rest.parts,
                tm_cevs(seeking, buf.take(idx)) + seq![tm_mark_ev(seeking)] + rest.evs,
                rest.seeking,
                rest.buf,
            )
        },
    }
}

#[via_fn]
proof fn tm_loop_dec(ks: Kpair, ke: Kpair, val: Option<Seq<char>>, seeking: bool, buf: Seq<char>) {
    if tm_wf(ks, ke) {
        let p = tm_pat(ks, ke, seeking);
        let l = tm_tab(ks, ke, seeking);
        lemma_kscan_bounds(p, l, 0, buf);
    }
}

/// The single-pair configuration as spec-level pair data.
pub open spec fn tm_cfg(ks: Kpair, ke: Kpair, val: Option<Seq<char>>) -> Seq<PairSpec> {
    seq![PairSpec { smark: ks.mark@, emark: ke.mark@, value: val }]
}

/// Losslessness: restoring the markers into the emitted event stream and
/// appending the retained suffix reproduces the drained text exactly.
#[verifier::rlimit(100)]
pub proof fn lemma_tm_loop_restore(
    ks: Kpair,
    ke: Kpair,
    val: Option<Seq<char>>,
    seeking: bool,
    buf: Seq<char>,
)
    requires
        tm_wf(ks, ke),
    ensures
        ({
            let o = tm_loop(ks, ke, val, seeking, buf);
            restore(tm_cfg(ks, ke, val), o.evs) + o.buf == buf
        }),
    decreases buf.len(),
{
    let cfg = tm_cfg(ks, ke, val);
    let p = tm_pat(ks, ke, seeking);
    let l = tm_tab(ks, ke, seeking);
    let o = tm_loop(ks, ke, val, seeking, buf);
    lemma_kscan_bounds(p, l, 0, buf);
    assert(p.subrange(0, 0) =~= Seq::<char>::empty().subrange(0, 0));
    lemma_kscan_facts(p, l, 0, buf, Seq::<char>::empty());
    assert(Seq::<char>::empty() + buf =~= buf);
    match kscan(p, l, 0, buf) {
        KScan::Miss(j) => {
            let cut = buf.len() - j;
            if seeking {
                lemma_quest_evs_restore(cfg, buf.take(cut));
            } else {
                lemma_inner_evs_restore(cfg, buf.take(cut), 0);
            }
            assert(buf.take(cut) + buf.skip(cut) =~= buf);
        },
        KScan::Hit(e) => {
            let idx = e - p.len();
            let rest = tm_loop(ks, ke, val, !seeking, buf.skip(e));
            lemma_tm_loop_restore(ks, ke, val, !seeking, buf.skip(e));
            let head = tm_cevs(seeking, buf.take(idx));
            let mark = seq![tm_mark_ev(seeking)];
            lemma_restore_app(cfg, head + mark, rest.evs);
            lemma_restore_app(cfg, head, mark);
            if seeking {
                lemma_quest_evs_restore(cfg, buf.take(idx));
            } else {
                lemma_inner_evs_restore(cfg, buf.take(idx), 0);
            }
            assert(mark.drop_first() =~= Seq::<Ev>::empty());
            if seeking {
                assert(mark[0] == Ev::Open(0));
                assert(ev_text(cfg, mark[0]) == cfg[0].smark);
            } else {
                assert(mark[0] == Ev::Close(0));
                assert(ev_text(cfg, mark[0]) == cfg[0].emark);
            }
            assert(restore(cfg, Seq::<Ev>::empty()) =~= Seq::<char>::empty());
            assert(restore(cfg, mark) =~= ev_text(cfg, mark[0]) + restore(
                cfg,
                mark.drop_first(),
            ));
            assert(restore(cfg, mark) =~= p);
            assert((Seq::<char>::empty() + buf.take(e)).subrange(e - p.len(), e) == p);
            assert(Seq::<char>::empty() + buf.take(e) =~= buf.take(e));
            assert(buf.take(e).subrange(idx, e) =~= buf.subrange(idx, e));
            assert(buf.take(idx) + buf.subrange(idx, e) =~= buf.take(e));
            assert((head + mark) + rest.evs =~= head + mark + rest.evs);
            assert(restore(cfg, o.evs) + o.buf =~= buf.take(e) + (restore(cfg, rest.evs)
                + rest.buf));
            assert(buf.take(e) + buf.skip(e) =~= buf);
        },
    }
}

/// Tag alternation: the emitted events respect the mode discipline, and
/// leave the machine in the mode the loop reports.
pub proof fn lemma_tm_loop_modes(
    ks: Kpair,
    ke: Kpair,
    val: Option<Seq<char>>,
    seeking: bool,
    buf: Seq<char>,
)
    requires
        tm_wf(ks, ke),
    ensures
        ({
            let o = tm_loop(ks, ke, val, seeking, buf);
            &&& evs_mode_ok(tm_cfg(ks, ke, val), tm_mode(seeking), o.evs)
            &&& evs_end_mode(tm_mode(seeking), o.evs) == tm_mode(o.seeking)
        }),
    decreases buf.len(),
{
    let cfg = tm_cfg(ks, ke, val);
    let p = tm_pat(ks, ke, seeking);
    let l = tm_tab(ks, ke, seeking);
    let o = tm_loop(ks, ke, val, seeking, buf);
    lemma_kscan_bounds(p, l, 0, buf);
    match kscan(p, l, 0, buf) {
        KScan::Miss(j) => {
            let cut = buf.len() - j;
            if seeking {
                lemma_quest_evs_modes(cfg, buf.take(cut));
            } else {
                lemma_inner_evs_modes(cfg, buf.take(cut), 0);
            }
        },
        KScan::Hit(e) => {
            let idx = e - p.len();
            let rest = tm_loop(ks, ke, val, !seeking, buf.skip(e));
            lemma_tm_loop_modes(ks, ke, val, !seeking, buf.skip(e));
            let head = tm_cevs(seeking, buf.take(idx));
            let mark = seq![tm_mark_ev(seeking)];
            if seeking {
                lemma_quest_evs_modes(cfg, buf.take(idx));
            } else {
                lemma_inner_evs_modes(cfg, buf.take(idx), 0);
            }
            assert(mark.drop_first() =~= Seq::<Ev>::empty());
            if seeking {
                assert(mark[0] == Ev::Open(0));
            } else {
                assert(mark[0] == Ev::Close(0));
            }
            assert(evs_mode_ok(cfg, tm_mode(!seeking), mark.drop_first()));
            assert(evs_mode_ok(cfg, tm_mode(seeking), mark));
            assert(evs_end_mode(tm_mode(!seeking), Seq::<Ev>::empty()) == tm_mode(!seeking));
            assert(ev_next_mode(tm_mode(seeking), mark[0]) == tm_mode(!seeking));
            assert(evs_end_mode(tm_mode(seeking), mark) == tm_mode(!seeking));
            lemma_mode_ok_app(cfg, tm_mode(seeking), head, mark);
            lemma_end_mode_app(tm_mode(seeking), head, mark);
            lemma_mode_ok_app(cfg, tm_mode(seeking), head + mark, rest.evs);
            lemma_end_mode_app(tm_mode(seeking), head + mark, rest.evs);
            assert((head + mark) + rest.evs =~= head + mark + rest.evs);
        },
    }
}

/// Value propagation: `StateSmark` parts carry the configured value,
/// `StateEmark` parts carry none, content parts carry the value of the
/// mode they are emitted in, and transition parts are empty.
pub proof fn lemma_tm_loop_values(
    ks: Kpair,
    ke: Kpair,
    val: Option<Seq<char>>,
    seeking: bool,
    buf: Seq<char>,
)
    requires
        tm_wf(ks, ke),
    ensures
        ({
            let o = tm_loop(ks, ke, val, seeking, buf);
            forall|i: int|
                0 <= i < o.parts.len() ==> {
                    let pt = #[trigger] o.parts[i];
                    &&& (pt.state is StateSmark ==> pt.value == val && pt.content.len() == 0)
                    &&& (pt.state is StateEmark ==> pt.value is None && pt.content.len() == 0)
                    &&& (pt.state is StateQuest ==> pt.value is None && pt.content.len() > 0)
                    &&& (pt.state is StateMatch ==> pt.value == val && pt.content.len() > 0)
                }
        }),
    decreases buf.len(),
{
    let p = tm_pat(ks, ke, seeking);
    let l = tm_tab(ks, ke, seeking);
    lemma_kscan_bounds(p, l, 0, buf);
    match kscan(p, l, 0, buf) {
        KScan::Miss(j) => {},
        KScan::Hit(e) => {
            lemma_tm_loop_values(ks, ke, val, !seeking, buf.skip(e));
        },
    }
}

/// Value propagation, precisely: each emitted part is aligned with the
/// events it stands for, so the `StateSmark` part and every `StateMatch`
/// content part carry the configured value of the pair that opened the
/// region, and `StateEmark` parts carry none.
#[verifier::rlimit(100)]
pub proof fn lemma_tm_loop_parts_evs(
    ks: Kpair,
    ke: Kpair,
    val: Option<Seq<char>>,
    seeking: bool,
    buf: Seq<char>,
)
    requires
        tm_wf(ks, ke),
    ensures
        ({
            let o = tm_loop(ks, ke, val, seeking, buf);
            parts_match_evs(tm_cfg(ks, ke, val), o.parts, o.evs)
        }),
    decreases buf.len(),
{
    let cfg = tm_cfg(ks, ke, val);
    let p = tm_pat(ks, ke, seeking);
    let l = tm_tab(ks, ke, seeking);
    let o = tm_loop(ks, ke, val, seeking, buf);
    lemma_kscan_bounds(p, l, 0, buf);
    assert(p.subrange(0, 0) =~= Seq::<char>::empty().subrange(0, 0));
    lemma_kscan_facts(p, l, 0, buf, Seq::<char>::empty());
    match kscan(p, l, 0, buf) {
        KScan::Miss(j) => {
            let cut = buf.len() - j;
            if seeking {
                lemma_quest_evs_shape(buf.take(cut));
            } else {
                lemma_inner_evs_shape(buf.take(cut), 0);
            }
            if cut > 0 {
                assert(o.evs.skip(cut) =~= Seq::<Ev>::empty());
                assert(o.parts.drop_first() =~= Seq::<PartV>::empty());
            }
            assert(parts_match_evs(cfg, Seq::<PartV>::empty(), Seq::<Ev>::empty()));
            assert(parts_match_evs(cfg, o.parts, o.evs));
        },
        KScan::Hit(e) => {
            let idx = e - p.len();
            let rest = tm_loop(ks, ke, val, !seeking, buf.skip(e));
            lemma_tm_loop_parts_evs(ks, ke, val, !seeking, buf.skip(e));
            let head = tm_cevs(seeking, buf.take(idx));
            let mark = seq![tm_mark_ev(seeking)];
            let mp = tm_mark_part(seeking, val);
            if seeking {
                lemma_quest_evs_shape(buf.take(idx));
            } else {
                lemma_inner_evs_shape(buf.take(idx), 0);
            }
            assert((head + mark) + rest.evs =~= head + mark + rest.evs);
            assert((seq![mp] + rest.parts).drop_first() =~= rest.parts);
            assert((mark + rest.evs).drop_first() =~= rest.evs);
            assert((seq![mp] + rest.parts)[0] == mp);
            assert((mark + rest.evs)[0] == tm_mark_ev(seeking));
            assert(parts_match_evs(cfg, seq![mp] + rest.parts, mark + rest.evs));
            if idx > 0 {
                assert(o.parts[0] == mk_part(buf.take(idx), tm_state(seeking), tm_val(seeking, val)));
                assert(o.evs.skip(idx) =~= mark + rest.evs);
                assert(o.parts.drop_first() =~= seq![mp] + rest.parts);
            } else {
                assert(o.parts =~= seq![mp] + rest.parts);
                assert(o.evs =~= mark + rest.evs);
            }
            assert(parts_match_evs(cfg, o.parts, o.evs));
        },
    }
}

/// After a drain the machine is settled: draining the retained suffix
/// again, with no new input, emits nothing and changes nothing.
pub proof fn lemma_tm_loop_settled(
    ks: Kpair,
    ke: Kpair,
    val: Option<Seq<char>>,
    seeking: bool,
    buf: Seq<char>,
)
    requires
        tm_wf(ks, ke),
    ensures
        ({
            let o = tm_loop(ks, ke, val, seeking, buf);
            tm_loop(ks, ke, val, o.seeking, o.buf) == tm_out(
                Seq::<PartV>::empty(),
                Seq::<Ev>::empty(),
                o.seeking,
                o.buf,
            )
        }),
    decreases buf.len(),
{
    let p = tm_pat(ks, ke, seeking);
    let l = tm_tab(ks, ke, seeking);
    let o = tm_loop(ks, ke, val, seeking, buf);
    lemma_kscan_bounds(p, l, 0, buf);
    assert(p.subrange(0, 0) =~= Seq::<char>::empty().subrange(0, 0));
    lemma_kscan_facts(p, l, 0, buf, Seq::<char>::empty());
    match kscan(p, l, 0, buf) {
        KScan::Miss(j) => {
            let cut = buf.len() - j;
            assert(Seq::<char>::empty() + buf =~= buf);
            assert(o.buf =~= p.subrange(0, j));
            lemma_kscan_rescan(p, l, j);
            assert(kscan(p, l, 0, o.buf) == KScan::Miss(j));
            assert(o.buf.take(o.buf.len() - j) =~= Seq::<char>::empty());
            assert(o.buf.skip(o.buf.len() - j) =~= o.buf);
            assert(tm_cevs(seeking, Seq::<char>::empty()) =~= Seq::<Ev>::empty());
        },
        KScan::Hit(e) => {
            lemma_tm_loop_settled(ks, ke, val, !seeking, buf.skip(e));
        },
    }
}

/// The machine never fires or flushes on an empty buffer: a settled
/// processor given an empty chunk emits nothing.
pub proof fn lemma_tm_loop_idle(ks: Kpair, ke: Kpair, val: Option<Seq<char>>, seeking: bool)
    requires
        tm_wf(ks, ke),
    ensures
        tm_loop(ks, ke, val, seeking, Seq::<char>::empty()) == tm_out(
            Seq::<PartV>::empty(),
            Seq::<Ev>::empty(),
            seeking,
            Seq::<char>::empty(),
        ),
{
    let p = tm_pat(ks, ke, seeking);
    let l = tm_tab(ks, ke, seeking);
    let e = Seq::<char>::empty();
    assert(kscan(p, l, 0, e) == KScan::Miss(0));
    assert(e.take(0) =~= e);
    assert(e.skip(0) =~= e);
    assert(tm_cevs(seeking, e) =~= Seq::<Ev>::empty());
}

/// Chunk-boundary independence: draining `s` and then feeding `c` to what
/// remains produces the same events and the same final state as draining
/// `s + c` in one call. Fragment boundaries may differ; the classified
/// character stream and every marker transition are identical.
#[verifier::rlimit(50)]
pub proof fn lemma_tm_loop_extend(
    ks: Kpair,
    ke: Kpair,
    val: Option<Seq<char>>,
    seeking: bool,
    s: Seq<char>,
    c: Seq<char>,
)
    requires
        tm_wf(ks, ke),
    ensures
        ({
            let o1 = tm_loop(ks, ke, val, seeking, s);
            let o2 = tm_loop(ks, ke, val, o1.seeking, o1.buf + c);
            let o = tm_loop(ks, ke, val, seeking, s + c);
            &&& o.evs == o1.evs + o2.evs
            &&& o.seeking == o2.seeking
            &&& o.buf == o2.buf
        }),
    decreases s.len(),
{
    let p = tm_pat(ks, ke, seeking);
    let l = tm_tab(ks, ke, seeking);
    let o1 = tm_loop(ks, ke, val, seeking, s);
    let o2 = tm_loop(ks, ke, val, o1.seeking, o1.buf + c);
    let o = tm_loop(ks, ke, val, seeking, s + c);
    lemma_kscan_bounds(p, l, 0, s);
    assert(p.subrange(0, 0) =~= Seq::<char>::empty().subrange(0, 0));
    lemma_kscan_facts(p, l, 0, s, Seq::<char>::empty());
    assert(Seq::<char>::empty() + s =~= s);
    lemma_kscan_app(p, l, 0, s, c);
    match kscan(p, l, 0, s) {
        KScan::Miss(j) => {
            let cut1 = s.len() - j;
            assert(o1.buf =~= p.subrange(0, j));
            lemma_kscan_rescan(p, l, j);
            assert(kscan(p, l, 0, o1.buf) == KScan::Miss(j));
            lemma_kscan_app(p, l, 0, o1.buf, c);
            lemma_kscan_bounds(p, l, j, c);
            let h = p.subrange(0, j);
            assert(h.subrange(h.len() - j, h.len() as int) =~= h);
            lemma_kscan_facts(p, l, j, c, h);
            assert(o1.buf + c =~= (s + c).skip(cut1));
            match kscan(p, l, j, c) {
                KScan::Miss(j2) => {
                    let cut = s.len() + c.len() - j2;
                    let cut2 = j + c.len() - j2;
                    assert(kscan(p, l, 0, s + c) == KScan::Miss(j2));
                    assert(kscan(p, l, 0, o1.buf + c) == KScan::Miss(j2));
                    assert((s + c).take(cut) =~= s.take(cut1) + (o1.buf + c).take(cut2));
                    if seeking {
                        lemma_quest_evs_app(s.take(cut1), (o1.buf + c).take(cut2));
                    } else {
                        lemma_inner_evs_app(s.take(cut1), (o1.buf + c).take(cut2), 0);
                    }
                    assert(o.evs == o1.evs + o2.evs);
                    assert(o.buf =~= o2.buf);
                },
                KScan::Hit(f) => {
                    let ea = s.len() + f;
                    let e2 = j + f;
                    assert(kscan(p, l, 0, s + c) == KScan::Hit(ea));
                    assert(kscan(p, l, 0, o1.buf + c) == KScan::Hit(e2));
                    let idx = ea - p.len();
                    let idx2 = e2 - p.len();
                    assert(p.len() <= j + f);
                    assert((s + c).take(idx) =~= s.take(cut1) + (o1.buf + c).take(idx2));
                    if seeking {
                        lemma_quest_evs_app(s.take(cut1), (o1.buf + c).take(idx2));
                    } else {
                        lemma_inner_evs_app(s.take(cut1), (o1.buf + c).take(idx2), 0);
                    }
                    assert((o1.buf + c).skip(e2) =~= (s + c).skip(ea));
                    let rest = tm_loop(ks, ke, val, !seeking, (s + c).skip(ea));
                    assert(tm_loop(ks, ke, val, !seeking, (o1.buf + c).skip(e2)) == rest);
                    assert(o.evs =~= o1.evs + o2.evs);
                },
            }
        },
        KScan::Hit(e) => {
            let idx = e - p.len();
            assert(kscan(p, l, 0, s + c) == KScan::Hit(e));
            assert((s + c).take(idx) =~= s.take(idx));
            assert((s + c).skip(e) =~= s.skip(e) + c);
            lemma_tm_loop_extend(ks, ke, val, !seeking, s.skip(e), c);
            let rest1 = tm_loop(ks, ke, val, !seeking, s.skip(e));
            let rest = tm_loop(ks, ke, val, !seeking, (s + c).skip(e));
            assert(rest == tm_loop(ks, ke, val, !seeking, s.skip(e) + c));
            assert(o1.seeking == rest1.seeking && o1.buf == rest1.buf);
            assert(rest.evs == rest1.evs + o2.evs);
            assert(o.evs =~= o1.evs + o2.evs);
        },
    }
}

/// The single-pair streaming processor.
pub struct TmarkProcessor {
    value: Option<String>,
    m2value: Option<String>,
    state: State,
    buffer: Vec<char>,
    kstart: Kpair,
    kend: Kpair,
}

impl TmarkProcessor {
    /// Whether the processor is scanning for the start marker.
    pub closed spec fn seeking(&self) -> bool {
        self.state is StateQuest
    }

    /// The configured value.
    pub closed spec fn val(&self) -> Option<Seq<char>> {
        opt_view(self.m2value)
    }

    /// The start-marker matcher.
    pub closed spec fn ks(&self) -> Kpair {
        self.kstart
    }

    /// The end-marker matcher.
    pub closed spec fn ke(&self) -> Kpair {
        self.kend
    }

    /// The retained, not yet classifiable text.
    pub closed spec fn buf(&self) -> Seq<char> {
        self.buffer@
    }

    /// The configuration as spec-level pair data.
    pub open spec fn cfg(&self) -> Seq<PairSpec> {
        tm_cfg(self.ks(), self.ke(), self.val())
    }

    /// The value carried on content parts in the current mode: none while
    /// seeking, the configured value inside the open region.
    pub open spec fn active_val(&self) -> Option<Seq<char>> {
        tm_val(self.seeking(), self.val())
    }

    /// Processor invariant: valid matchers, a held mode, the active value
    /// agreeing with the mode, and a settled buffer (a live suffix that a
    /// new scan neither flushes nor matches).
    pub closed spec fn wf(&self) -> bool {
        &&& tm_wf(self.kstart, self.kend)
        &&& (self.state is StateQuest || self.state is StateMatch)
        &&& (self.state is StateQuest ==> self.value is None)
        &&& (self.state is StateMatch ==> opt_view(self.value) == self.val())
        &&& tm_loop(self.kstart, self.kend, self.val(), self.seeking(), self.buffer@) == tm_out(
            Seq::<PartV>::empty(),
            Seq::<Ev>::empty(),
            self.seeking(),
            self.buffer@,
        )
    }

    /// Appends the chunk to the retained text and drains it: emits every
    /// part the spec machine prescribes and retains exactly the live
    /// suffix it prescribes.
    pub fn process(&mut self, chunk: &str) -> (parts: Vec<Part>)
        requires
            old(self).wf(),
        ensures
            final(self).wf(),
            final(self).ks() == old(self).ks(),
            final(self).ke() == old(self).ke(),
            final(self).cfg() == old(self).cfg(),
            final(self).val() == old(self).val(),
            ({
                let o = tm_loop(
                    old(self).ks(),
                    old(self).ke(),
                    old(self).val(),
                    old(self).seeking(),
                    old(self).buf() + chunk@,
                );
                &&& parts@.len() == o.parts.len()
                &&& (forall|i: int| 0 <= i < o.parts.len() ==> #[trigger] parts@[i]@ == o.parts[i])
                &&& final(self).seeking() == o.seeking
                &&& final(self).buf() == o.buf
            }),
    {
        let ghost ks0 = self.kstart;
        let ghost ke0 = self.kend;
        let ghost val0 = self.val();
        let ghost buf0 = self.buffer@;
        let ghost seeking0 = self.seeking();

        let mut parts: Vec<Part> = Vec::new();
        let mut cv = chars_of(chunk);
        self.buffer.append(&mut cv);

        let ghost o = tm_loop(ks0, ke0, val0, seeking0, buf0 + chunk@);
        proof {
            lemma_tm_loop_extend(ks0, ke0, val0, seeking0, buf0, chunk@);
            lemma_tm_loop_idle(ks0, ke0, val0, seeking0);
            // the retained buffer was settled, so draining `buf0 + chunk`
            // continues exactly where the previous call stopped
            assert(buf0 + chunk@ == self.buffer@);
        }

        loop
            invariant
                tm_wf(self.kstart, self.kend),
                self.kstart == ks0,
                self.kend == ke0,
                self.val() == val0,
                (self.state is StateQuest || self.state is StateMatch),
                (self.state is StateQuest ==> self.value is None),
                (self.state is StateMatch ==> opt_view(self.value) == val0),
                o == tm_loop(ks0, ke0, val0, seeking0, buf0 + chunk@),
                ({
                    let rem = tm_loop(ks0, ke0, val0, self.seeking(), self.buffer@);
                    &&& parts@.len() + rem.parts.len() == o.parts.len()
                    &&& (forall|i: int|
                        0 <= i < parts@.len() ==> #[trigger] parts@[i]@ == o.parts[i])
                    &&& (forall|i: int|
                        0 <= i < rem.parts.len() ==> #[trigger] rem.parts[i] == o.parts[parts@.len() + i])
                    &&& o.seeking == rem.seeking
                    &&& o.buf == rem.buf
                }),
            ensures
                self.kstart == ks0,
                self.kend == ke0,
                self.val() == val0,
                (self.state is StateQuest || self.state is StateMatch),
                (self.state is StateQuest ==> self.value is None),
                (self.state is StateMatch ==> opt_view(self.value) == val0),
                parts@.len() == o.parts.len(),
                forall|i: int| 0 <= i < o.parts.len() ==> #[trigger] parts@[i]@ == o.parts[i],
                self.seeking() == o.seeking,
                self.buffer@ == o.buf,
                tm_loop(ks0, ke0, val0, self.seeking(), self.buffer@) == tm_out(
                    Seq::<PartV>::empty(),
                    Seq::<Ev>::empty(),
                    self.seeking(),
                    self.buffer@,
                ),
            decreases self.buffer@.len(),
        {
            let ghost rem = tm_loop(ks0, ke0, val0, self.seeking(), self.buffer@);
            let ghost bufi = self.buffer@;
            let blen = self.buffer.len();
            let seeking = self.state == State::StateQuest;
            let ghost p = tm_pat(ks0, ke0, seeking);
            let ghost l = tm_tab(ks0, ke0, seeking);
            let (idx, found) = if seeking {
                kmp::do_match_chars(&self.kstart.mark, &self.buffer, &self.kstart.lps)
            } else {
                kmp::do_match_chars(&self.kend.mark, &self.buffer, &self.kend.lps)
            };
            let mlen = if seeking {
                self.kstart.mark.len()
            } else {
                self.kend.mark.len()
            };
            proof {
                lemma_kscan_bounds(p, l, 0, bufi);
                assert(p.subrange(0, 0) =~= Seq::<char>::empty().subrange(0, 0));
                lemma_kscan_facts(p, l, 0, bufi, Seq::<char>::empty());
                assert(Seq::<char>::empty() + bufi =~= bufi);
            }
            if idx > 0 {
                let content = string_of(&self.buffer, 0, idx);
                let value = match &self.value {
                    Some(s) => Some(s.clone()),
                    None => None,
                };
                let pt = Part { content, state: self.state, value };
                proof {
                    assert(bufi.subrange(0, idx as int) =~= bufi.take(idx as int));
                    assert(pt@ == mk_part(
                        bufi.take(idx as int),
                        tm_state(seeking),
                        tm_val(seeking, val0),
                    ));
                }
                parts.push(pt);
            }
            if !found {
                let tail = self.buffer.split_off(idx);
                self.buffer = tail;
                proof {
                    assert(self.buffer@ =~= bufi.skip(idx as int));
                    assert(rem.buf == self.buffer@ && rem.seeking == self.seeking());
                    if idx > 0 {
                        assert(rem.parts =~= seq![
                            mk_part(bufi.take(idx as int), tm_state(seeking), tm_val(seeking, val0)),
                        ]);
                        assert(parts@[parts@.len() - 1]@ == rem.parts[0]);
                    } else {
                        assert(bufi.take(0) =~= Seq::<char>::empty());
                        assert(rem.parts =~= Seq::<PartV>::empty());
                    }
                    lemma_tm_loop_settled(ks0, ke0, val0, self.seeking(), bufi);
                }
                break ;
            } else {
                let ghost e: int = idx as int + mlen as int;
                proof {
                    assert(kscan(p, l, 0, bufi) == KScan::Hit(e as int));
                    assert(e <= bufi.len());
                }
                let ghost rest = tm_loop(ks0, ke0, val0, !self.seeking(), bufi.skip(e as int));
                let ghost flushed = flush_parts(
                    bufi.take(idx as int),
                    tm_state(seeking),
                    tm_val(seeking, val0),
                );
                proof {
                    assert(rem.parts == flushed + seq![tm_mark_part(seeking, val0)] + rest.parts);
                }
                if seeking {
                    self.value = match &self.m2value {
                        Some(s) => Some(s.clone()),
                        None => None,
                    };
                    let value = match &self.value {
                        Some(s) => Some(s.clone()),
                        None => None,
                    };
                    let pt = Part { content: String::new(), state: State::StateSmark, value };
                    proof {
                        assert(pt@ == tm_mark_part(seeking, val0));
                    }
                    parts.push(pt);
                    self.state = State::StateMatch;
                } else {
                    self.value = None;
                    let pt = Part { content: String::new(), state: State::StateEmark, value: None };
                    proof {
                        assert(pt@ == tm_mark_part(seeking, val0));
                    }
                    parts.push(pt);
                    self.state = State::StateQuest;
                }
                let tail = self.buffer.split_off(idx + mlen);
                self.buffer = tail;
                proof {
                    assert(self.buffer@ =~= bufi.skip(e as int));
                    assert(self.seeking() == !seeking);
                    let newrem = tm_loop(ks0, ke0, val0, self.seeking(), self.buffer@);
                    assert(newrem == rest);
                    assert forall|i: int| 0 <= i < parts@.len() implies #[trigger] parts@[i]@
                        == o.parts[i] by {
                        if i < parts@.len() - 1 && idx > 0 && i == parts@.len() - 2 {
                            assert(parts@[i]@ == rem.parts[0]);
                        }
                        if i == parts@.len() - 1 {
                            assert(parts@[i]@ == rem.parts[flushed.len() as int]);
                        }
                    }
                    assert forall|i: int| 0 <= i < newrem.parts.len() implies #[trigger] newrem
                        .parts[i] == o.parts[parts@.len() + i] by {
                        assert(newrem.parts[i] == rem.parts[flushed.len() + 1 + i]);
                    }
                }
            }
        }
        parts
    }
}

impl Slob for TmarkProcessor {
    open spec fn slob_wf(&self) -> bool {
        self.wf()
    }

    fn process(&mut self, chunk: &str) -> Vec<Part> {
        TmarkProcessor::process(self, chunk)
    }
}

/// Builds the single-pair processor for one configured pair.
pub fn new(pair: Tpair) -> (p: TmarkProcessor)
    requires
        pair@.smark.len() > 0,
        pair@.emark.len() > 0,
    ensures
        p.wf(),
        tm_wf(p.ks(), p.ke()),
        p.cfg() =~= seq![pair@],
        p.seeking(),
        p.buf() =~= Seq::<char>::empty(),
{
    let (smark, emark, value) = pair.into_fields();
    let kstart = kmp::new(smark.as_str());
    let kend = kmp::new(emark.as_str());
    let p = TmarkProcessor {
        value: None,
        m2value: value,
        state: State::StateQuest,
        buffer: Vec::new(),
        kstart,
        kend,
    };
    proof {
        lemma_tm_loop_idle(p.kstart, p.kend, p.val(), true);
        assert(p.cfg() =~= seq![pair@]);
    }
    p
}

} // verus!
