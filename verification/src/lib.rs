//! Streaming extraction of delimited regions from text that arrives in
//! arbitrary chunks.
//!
//! A processor is configured with marker pairs (a start marker, an end
//! marker, and an optional value). Text pushed through [`Slob::process`]
//! comes back as a sequence of tagged [`Part`]s: content scanned while
//! searching for a start marker, content inside an open region, and
//! zero-length transition parts at the instant a marker completes. A marker
//! may be split across any number of chunks; the processor retains exactly
//! the bytes that could still extend to a marker and emits everything else
//! as soon as it is provably plain content.

pub mod matcher;
pub mod model;
pub mod processor;

use vstd::prelude::*;

use crate::model::{opt_view, pair_ok, PairSpec, PartV};
use crate::processor::tacam::{ta_loop, TacamProcessor};
use crate::processor::tmark::{tm_loop, TmarkProcessor};
use crate::processor::tummy::TummyProcessor;

verus! {

broadcast use vstd::string::group_string_axioms;

/// The tag carried by each emitted [`Part`].
///
/// `StateQuest` and `StateMatch` tag content: text scanned while looking for
/// a start marker, and text inside an open region. `StateSmark` and
/// `StateEmark` tag the zero-length transition parts emitted at the instant
/// a start or end marker completes.
#[derive(Debug, Copy, Clone, PartialEq, Eq, Structural)]
pub enum State {
    StateQuest,
    StateMatch,
    StateSmark,
    StateEmark,
}

impl State {
    /// The tag's name, for display purposes.
    pub fn name(&self) -> (s: &'static str)
        ensures
            self is StateQuest ==> s@ == "StateQuest"@,
            self is StateMatch ==> s@ == "StateMatch"@,
            self is StateSmark ==> s@ == "StateSmark"@,
            self is StateEmark ==> s@ == "StateEmark"@,
    {
        match self {
            State::StateQuest => "StateQuest",
            State::StateMatch => "StateMatch",
            State::StateSmark => "StateSmark",
            State::StateEmark => "StateEmark",
        }
    }
}

/// One unit of processor output: a run of content, or a zero-length marker
/// transition, together with the value of the region it belongs to.
#[derive(Debug)]
pub struct Part {
    pub content: String,
    pub state: State,
    pub value: Option<String>,
}

impl View for Part {
    type V = PartV;

    open spec fn view(&self) -> PartV {
        PartV {
            content: self.content@,
            state: self.state,
            value: match self.value {
                Some(ref v) => Some(v@),
                None => None,
            },
        }
    }
}

/// A configured marker pair: a start marker, the end marker that closes the
/// region it opens, and an optional value released to the caller while the
/// region is open.
#[derive(Clone)]
pub struct Tpair {
    smark: String,
    emark: String,
    value: Option<String>,
}

impl Tpair {
    /// The pair as spec-level data.
    pub closed spec fn view(&self) -> PairSpec {
        PairSpec {
            smark: self.smark@,
            emark: self.emark@,
            value: match self.value {
                Some(ref v) => Some(v@),
                None => None,
            },
        }
    }

    /// The pair's start marker.
    pub(crate) fn smark_str(&self) -> (s: &str)
        ensures
            s@ == self@.smark,
    {
        self.smark.as_str()
    }

    /// Copies out the end marker and the value.
    pub(crate) fn clone_parts(&self) -> (r: (String, Option<String>))
        ensures
            r.0@ == self@.emark,
            opt_view(r.1) == self@.value,
    {
        let v = match &self.value {
            Some(s) => Some(s.clone()),
            None => None,
        };
        (self.emark.clone(), v)
    }

    /// Takes the pair apart into its fields.
    pub(crate) fn into_fields(self) -> (r: (String, String, Option<String>))
        ensures
            r.0@ == self@.smark,
            r.1@ == self@.emark,
            opt_view(r.2) == self@.value,
    {
        (self.smark, self.emark, self.value)
    }

    /// Attaches a value to the pair; the value rides on the `StateSmark`
    /// part and on every `StateMatch` content part of regions this pair
    /// opens.
    pub fn with_value(self, value: &str) -> (r: Tpair)
        ensures
            r@.smark == self@.smark,
            r@.emark == self@.emark,
            r@.value == Some(value@),
    {
        Tpair { smark: self.smark, emark: self.emark, value: Some(value.to_owned()) }
    }
}

/// Builds a marker pair with no value attached.
pub fn new_pair(start_mark: &str, end_mark: &str) -> (r: Tpair)
    ensures
        r@.smark == start_mark@,
        r@.emark == end_mark@,
        r@.value is None,
{
    Tpair { smark: start_mark.to_owned(), emark: end_mark.to_owned(), value: None }
}

/// The processing contract: push one chunk of the stream, receive the parts
/// that are now classifiable. The concrete processors refine this with full
/// contracts on their inherent `process` methods; the trait only demands
/// that a well-formed processor stays well-formed.
pub trait Slob {
    /// The implementing processor's invariant.
    spec fn slob_wf(&self) -> bool;

    fn process(&mut self, chunk: &str) -> (parts: Vec<Part>)
        requires
            old(self).slob_wf(),
        ensures
            final(self).slob_wf(),
    ;
}

/// The processor for one stream: the zero-, one- or many-pair
/// specialization, chosen once at construction.
pub enum Processor {
    Tummy(TummyProcessor),
    Tmark(TmarkProcessor),
    Tacam(TacamProcessor),
}

impl Processor {
    /// The chosen specialization's invariant.
    pub open spec fn wf(&self) -> bool {
        match self {
            Processor::Tummy(p) => true,
            Processor::Tmark(p) => p.wf(),
            Processor::Tacam(p) => p.wf(),
        }
    }

    /// Processes one chunk with the chosen specialization; each
    /// specialization's own `process` carries the full contract.
    pub fn process(&mut self, chunk: &str) -> (parts: Vec<Part>)
        requires
            old(self).wf(),
        ensures
            final(self).wf(),
            (*old(self)) is Tummy ==> (*final(self)) is Tummy && parts@.len() == 1 && parts@[0]@.content
                == chunk@ && parts@[0]@.state == State::StateQuest && parts@[0]@.value is None,
            (*old(self)) is Tmark ==> (*final(self)) is Tmark && ({
                let p0 = (*old(self))->Tmark_0;
                let p1 = (*final(self))->Tmark_0;
                let o = tm_loop(p0.ks(), p0.ke(), p0.val(), p0.seeking(), p0.buf() + chunk@);
                &&& p1.cfg() == p0.cfg()
                &&& parts@.len() == o.parts.len()
                &&& (forall|i: int| 0 <= i < o.parts.len() ==> #[trigger] parts@[i]@ == o.parts[i])
                &&& p1.seeking() == o.seeking
                &&& p1.buf() == o.buf
            }),
            (*old(self)) is Tacam ==> (*final(self)) is Tacam && ({
                let p0 = (*old(self))->Tacam_0;
                let p1 = (*final(self))->Tacam_0;
                let o = ta_loop(p0.aut(), p0.ends(), p0.vals(), p0.mode(), p0.buf() + chunk@);
                &&& p1.cfg() == p0.cfg()
                &&& parts@.len() == o.parts.len()
                &&& (forall|i: int| 0 <= i < o.parts.len() ==> #[trigger] parts@[i]@ == o.parts[i])
                &&& p1.mode() == o.m
                &&& p1.buf() == o.buf
            }),
    {
        match self {
            Processor::Tummy(p) => TummyProcessor::process(p, chunk),
            Processor::Tmark(p) => TmarkProcessor::process(p, chunk),
            Processor::Tacam(p) => TacamProcessor::process(p, chunk),
        }
    }
}

impl Slob for Processor {
    open spec fn slob_wf(&self) -> bool {
        self.wf()
    }

    fn process(&mut self, chunk: &str) -> Vec<Part> {
        Processor::process(self, chunk)
    }
}

/// Chooses the specialization for the configured pairs: a stateless
/// pass-through for none, the single-pattern machine for one, the automaton
/// and registry for several.
pub fn new_processor(pairs: Vec<Tpair>) -> (p: Processor)
    requires
        forall|i: int| 0 <= i < pairs@.len() ==> pair_ok(#[trigger] pairs@[i]@),
    ensures
        p.wf(),
        pairs@.len() == 0 ==> p is Tummy,
        pairs@.len() == 1 ==> p is Tmark && (p->Tmark_0).cfg() =~= seq![pairs@[0]@]
            && (p->Tmark_0).seeking() && (p->Tmark_0).buf() =~= Seq::<char>::empty(),
        pairs@.len() >= 2 ==> p is Tacam && ({
            let q = p->Tacam_0;
            &&& q.cfg().len() == pairs@.len()
            &&& (forall|k: int|
                0 <= k < pairs@.len() ==> {
                    &&& (#[trigger] q.cfg()[k]).smark == pairs@[k]@.smark
                    &&& q.cfg()[k].emark == pairs@[k]@.emark
                    &&& q.cfg()[k].value == pairs@[k]@.value
                })
            &&& q.buf() =~= Seq::<char>::empty()
        }),
{
    let mut pairs = pairs;
    if pairs.len() == 0 {
        Processor::Tummy(processor::tummy::new())
    } else if pairs.len() == 1 {
        let pr = pairs.pop().unwrap();
        Processor::Tmark(processor::tmark::new(pr))
    } else {
        Processor::Tacam(processor::tacam::new(pairs))
    }
}

/// Collects the characters of a string slice.
pub fn chars_of(s: &str) -> (v: Vec<char>)
    ensures
        v@ == s@,
{
    let mut v: Vec<char> = Vec::new();
    for c in it: s.chars()
        invariant
            it.seq() == s@,
            v@ == it.seq().take(it.index()),
    {
        v.push(c);
    }
    proof {
        assert(v@ =~= s@);
    }
    v
}

/// Copies a character vector.
pub fn copy_chars(v: &Vec<char>) -> (r: Vec<char>)
    ensures
        r@ == v@,
{
    let mut r: Vec<char> = Vec::new();
    let mut i: usize = 0;
    while i < v.len()
        invariant
            i <= v@.len(),
            r@ == v@.take(i as int),
        decreases v@.len() - i,
    {
        r.push(v[i]);
        proof {
            assert(v@.take(i as int).push(v@[i as int]) =~= v@.take(i + 1));
        }
        i = i + 1;
    }
    proof {
        assert(v@.take(v@.len() as int) =~= v@);
    }
    r
}

/// Relies on String::push: appends one character to the string.
#[verifier::external_body]
fn push_char(s: &mut String, c: char)
    ensures
        final(s)@ == old(s)@.push(c),
{
    s.push(c);
}

/// Builds the string holding `v[from..to]`.
pub fn string_of(v: &Vec<char>, from: usize, to: usize) -> (s: String)
    requires
        from <= to <= v@.len(),
    ensures
        s@ == v@.subrange(from as int, to as int),
{
    let mut s = String::new();
    let mut i: usize = from;
    while i < to
        invariant
            from <= i <= to <= v@.len(),
            s@ == v@.subrange(from as int, i as int),
        decreases to - i,
    {
        push_char(&mut s, v[i]);
        proof {
            assert(v@.subrange(from as int, i as int).push(v@[i as int]) =~= v@.subrange(
                from as int,
                i + 1,
            ));
        }
        i = i + 1;
    }
    s
}

} // verus!
