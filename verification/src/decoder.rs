//! The resumable decode protocol.
//!
//! A decode either runs to completion in one call ([`decode_naive`]) or is
//! time-sliced: [`decode_init`] makes the parser handle and runs the first
//! slice, and each further [`decode_iter`] call runs at most `budget`
//! parser steps before suspending. A suspension hands back the sink stack
//! as plain data; the caller resubmits it, verbatim, together with the
//! handle. The parser handle enforces mutual exclusion: at most one
//! resumption per handle is in flight, and a second concurrent attempt
//! fails fast with `Busy` rather than blocking — a correctness requirement,
//! since frame stack and sink stack are not safely shareable across
//! simultaneous mutation.
//!
//! Every contract here is stated against the spec-level machine of
//! [`crate::parser`]: a budgeted run agrees with the unbounded run
//! ([`crate::parser::lemma_budget_preserves_run`]), so any schedule of
//! budgets yields the same value or error as one unbounded decode.

use vstd::prelude::*;

use crate::error::Error;
use crate::parser::FrameModel;
use crate::parser::Parser;
use crate::parser::RunScan;
use crate::parser::StateModel;
use crate::parser::StepScan;
use crate::parser::init_state;
use crate::parser::lemma_machine_step;
use crate::parser::machine_run;
use crate::parser::machine_run_budget;
use crate::parser::machine_step;
use crate::parser::state_wf;
use crate::sink::TermSink;
use crate::sink::ValueSink;
use crate::value::JsonValue;
use crate::value::models_of;

verus! {

/// What one resumable decode call came to.
#[derive(Debug, PartialEq)]
pub enum DecodeProgress {
    /// The decode finished with this value.
    Done(JsonValue),
    /// The decode failed; parse errors are terminal, and `Failed(Busy)`
    /// reports resumption contention rather than malformed input.
    Failed(Error),
    /// The budget ran out first: the sink stack to resubmit, verbatim,
    /// with the same handle.
    More(Vec<JsonValue>),
}

/// The shareable parser handle: an ownership slot holding the suspended
/// parser. Taking the parser out (and failing fast when it is already
/// out) is what guarantees at most one in-flight step sequence per handle.
pub struct ParserResource {
    /// The suspended parser, absent while a resumption is in flight.
    slot: Option<Parser>,
}

impl ParserResource {
    /// Whether the parser is in the slot (no resumption in flight).
    pub closed spec fn available(self) -> bool {
        self.slot is Some
    }

    /// The held parser's source buffer (meaningful when available).
    pub closed spec fn parser_src(self) -> Seq<u8> {
        match self.slot {
            Some(p) => p.src(),
            None => Seq::empty(),
        }
    }

    /// The held parser's cursor (meaningful when available).
    pub closed spec fn parser_pos(self) -> int {
        match self.slot {
            Some(p) => p.pos(),
            None => 0,
        }
    }

    /// The held parser's open frames (meaningful when available).
    pub closed spec fn parser_frames(self) -> Seq<FrameModel> {
        match self.slot {
            Some(p) => p.frames(),
            None => Seq::empty(),
        }
    }

    /// The held parser, if any, is well formed.
    pub closed spec fn inv(self) -> bool {
        match self.slot {
            Some(p) => p.wf(),
            None => true,
        }
    }

    /// The machine state the held parser is suspended in, over a sink
    /// stack whose models are `vals`.
    pub open spec fn state_with(self, vals: Seq<crate::value::ValueModel>) -> StateModel {
        StateModel {
            src: self.parser_src(),
            pos: self.parser_pos(),
            frames: self.parser_frames(),
            vals,
        }
    }

    /// A fresh handle over a parser at the start of `data`.
    pub fn new(data: Vec<u8>) -> (r: ParserResource)
        ensures
            r.inv(),
            r.available(),
            r.parser_src() == data@,
            r.parser_pos() == 0,
            r.parser_frames() == Seq::<FrameModel>::empty(),
    {
        ParserResource { slot: Some(Parser::new(data)) }
    }

    /// Take exclusive ownership of the parser. Exactly one of two
    /// contenders succeeds: when the slot is full the parser comes out and
    /// the slot empties, so a second attempt before [`release`] gets
    /// `Busy` and changes nothing — never both mutating the parser.
    ///
    /// [`release`]: ParserResource::release
    pub fn acquire(&mut self) -> (r: Result<Parser, Error>)
        requires
            old(self).inv(),
        ensures
            final(self).inv(),
            old(self).available() ==> (r matches Ok(p) && p.wf() && p.src() == old(self).parser_src() && p.pos() == old(self).parser_pos() && p.frames() == old(self).parser_frames() && !final(self).available()),
            !old(self).available() ==> r == Err::<Parser, Error>(Error::Busy) && *final(self)
                == *old(self),
    {
        match self.slot.take() {
            Some(p) => Ok(p),
            None => Err(Error::Busy),
        }
    }

    /// Give the parser back, making the handle available again.
    pub fn release(&mut self, parser: Parser)
        requires
            parser.wf(),
        ensures
            final(self).inv(),
            final(self).available(),
            final(self).parser_src() == parser.src(),
            final(self).parser_pos() == parser.pos(),
            final(self).parser_frames() == parser.frames(),
    {
        self.slot = Some(parser);
    }

    /// Whether the parser is in the slot, so that a resumption can take it.
    pub fn is_available(&self) -> (r: bool)
        ensures
            r == self.available(),
    {
        match &self.slot {
            Some(_) => true,
            None => false,
        }
    }

    /// Whether `stack` can resume this handle: the handle is available and
    /// `stack` is, in shape, the sink stack its parser was suspended with.
    /// What a caller checks before resuming with a stack it did not get
    /// from this decode's last suspension.
    pub fn compatible(&self, stack: &Vec<JsonValue>) -> (r: bool)
        requires
            self.inv(),
        ensures
            r == (self.available() && state_wf(self.state_with(models_of(stack@)))),
    {
        match &self.slot {
            None => false,
            Some(p) => p.stack_compatible(stack),
        }
    }
}

/// Decode `data` in full, without suspension: the reference decode every
/// budgeted schedule is proved to agree with.
pub fn decode_naive(data: Vec<u8>) -> (r: Result<JsonValue, Error>)
    ensures
        ({
            match machine_run(init_state(data@)) {
                RunScan::Done(value) => r matches Ok(v) && v.model() == value,
                RunScan::Failed(e) => r == Err::<JsonValue, Error>(e),
            }
        }),
{
    let ghost st0 = init_state(data@);
    let mut parser = Parser::new(data);
    let empty: Vec<JsonValue> = Vec::new();
    let mut sink = TermSink::new(empty);
    proof {
        assert(models_of(empty@) =~= Seq::<crate::value::ValueModel>::empty());
        assert(parser.state_with(sink.stack_model()) == st0);
        assert(state_wf(st0));
    }
    loop
        invariant
            st0 == init_state(data@),
            parser.wf(),
            parser.src() == st0.src,
            state_wf(parser.state_with(sink.stack_model())),
            machine_run(parser.state_with(sink.stack_model())) == machine_run(st0),
        decreases st0.src.len() - parser.pos(),
    {
        let ghost cur = parser.state_with(sink.stack_model());
        proof {
            lemma_machine_step(cur);
        }
        match parser.parse(&mut sink) {
            Ok(true) => {
                return Ok(sink.pop());
            },
            Ok(false) => {},
            Err(e) => {
                return Err(e);
            },
        }
    }
}

/// Run at most `budget` parser steps against the handle's parser, resuming
/// from `stack`, the sink stack of the previous suspension. Fails fast
/// with `Busy` when another resumption holds the parser. Per
/// [`machine_run_budget`]: completion, failure, or a new suspension whose
/// stack resumes the decode; the cursor never rewinds.
pub fn decode_iter(resource: &mut ParserResource, stack: Vec<JsonValue>, budget: u64) -> (r:
    DecodeProgress)
    requires
        old(resource).inv(),
        old(resource).available() ==> state_wf(old(resource).state_with(models_of(stack@))),
    ensures
        final(resource).inv(),
        !old(resource).available() ==> r == DecodeProgress::Failed(Error::Busy) && *final(resource) == *old(resource),
        old(resource).available() ==> ({
            let st0 = old(resource).state_with(models_of(stack@));
            &&& final(resource).available()
            &&& final(resource).parser_src() == st0.src
            &&& st0.pos <= final(resource).parser_pos()
            &&& match machine_run_budget(st0, budget as nat) {
                StepScan::Done { pos, value } => r matches DecodeProgress::Done(v) && v.model()
                    == value && final(resource).parser_pos() == pos
                    && final(resource).parser_frames().len() == 0,
                StepScan::Failed(e) => r == DecodeProgress::Failed(e),
                StepScan::More(st2) => r matches DecodeProgress::More(out) && models_of(out@)
                    == st2.vals && final(resource).parser_pos() == st2.pos && final(resource).parser_frames() == st2.frames && state_wf(
                    final(resource).state_with(models_of(out@)),
                ),
            }
        }),
{
    let ghost st0 = old(resource).state_with(models_of(stack@));
    let mut parser = match resource.acquire() {
        Ok(p) => p,
        Err(e) => {
            return DecodeProgress::Failed(e);
        },
    };
    let mut sink = TermSink::new(stack);
    let mut steps: u64 = 0;
    while steps < budget
        invariant
            old(resource).available(),
            st0 == old(resource).state_with(models_of(stack@)),
            parser.wf(),
            parser.src() == st0.src,
            st0.pos <= parser.pos(),
            0 <= steps <= budget,
            state_wf(parser.state_with(sink.stack_model())),
            machine_run_budget(st0, budget as nat) == machine_run_budget(
                parser.state_with(sink.stack_model()),
                (budget - steps) as nat,
            ),
            resource.inv(),
            !resource.available(),
        decreases budget - steps,
    {
        let ghost cur = parser.state_with(sink.stack_model());
        proof {
            lemma_machine_step(cur);
        }
        match parser.parse(&mut sink) {
            Ok(true) => {
                let value = sink.pop();
                resource.release(parser);
                return DecodeProgress::Done(value);
            },
            Ok(false) => {
                steps = steps + 1;
            },
            Err(e) => {
                resource.release(parser);
                return DecodeProgress::Failed(e);
            },
        }
    }
    resource.release(parser);
    DecodeProgress::More(sink.to_stack())
}

/// Begin a resumable decode of `data`: make a fresh handle with an empty
/// sink stack and immediately run the first slice of at most `budget`
/// steps against it.
pub fn decode_init(data: Vec<u8>, budget: u64) -> (r: (ParserResource, DecodeProgress))
    ensures
        r.0.inv(),
        r.0.available(),
        r.0.parser_src() == data@,
        ({
            match machine_run_budget(init_state(data@), budget as nat) {
                StepScan::Done { pos, value } => r.1 matches DecodeProgress::Done(v)
                    && v.model() == value && r.0.parser_pos() == pos
                    && r.0.parser_frames().len() == 0,
                StepScan::Failed(e) => r.1 == DecodeProgress::Failed(e),
                StepScan::More(st2) => r.1 matches DecodeProgress::More(out) && models_of(out@)
                    == st2.vals && r.0.parser_pos() == st2.pos && r.0.parser_frames()
                    == st2.frames && state_wf(r.0.state_with(models_of(out@))),
            }
        }),
{
    let mut resource = ParserResource::new(data);
    let empty: Vec<JsonValue> = Vec::new();
    proof {
        assert(models_of(empty@) =~= Seq::<crate::value::ValueModel>::empty());
        assert(resource.state_with(models_of(empty@)) == init_state(data@));
    }
    let progress = decode_iter(&mut resource, empty, budget);
    (resource, progress)
}

} // verus!
