//! Data-flow graphs that run without a window: when one is evaluated.

use crate::bits::{le_bytes, push_bytes};
use crate::controller::{
    live_window, next_generation, targets_of, DataFlowController, QueueStep, RequestView,
};
use crate::graph::Graph;
use std::collections::hash_map::DefaultHasher;
use std::hash::Hasher;
use vstd::prelude::*;
use vstd::std_specs::hash::DefaultHasherAdditionalSpecFns;
use vstd::utf8::encode_utf8;

verus! {

/// What a data field of a graph stands for at present.
pub enum InputField {
    /// A field of the store; `store` tells one state of its topic from another.
    Found {
        field: u32,
        multiplier: u64,
        unit: Option<String>,
        offset_us: Option<i64>,
        store: Option<usize>,
    },
    Missing(String),
}

/// A text as bytes, with its length in front.
pub open spec fn text_bytes(text: Seq<char>) -> Seq<u8> {
    le_bytes(encode_utf8(text).len(), 8) + encode_utf8(text)
}

fn push_text(out: &mut Vec<u8>, text: &str)
    ensures
        final(out)@ == old(out)@ + text_bytes(text@),
{
    let bytes = text.as_bytes();
    let count: usize = bytes.len();
    push_bytes(out, count as u64, 8);
    let ghost before = out@;
    let mut i: usize = 0;
    while i < count
        invariant
            i <= count == bytes@.len(),
            out@ =~= before + bytes@.take(i as int),
        decreases count - i,
    {
        out.push(bytes[i]);
        i = i + 1;
    }
    proof {
        assert(bytes@.take(i as int) =~= bytes@);
        assert(out@ =~= old(out)@ + text_bytes(text@));
    }
}

/// A signed number as bytes: its sign, and its distance from zero.
pub open spec fn signed_bytes(n: i64) -> Seq<u8> {
    if n < 0 {
        seq![1u8] + le_bytes((-(n + 1)) as nat, 8)
    } else {
        seq![0u8] + le_bytes(n as nat, 8)
    }
}

pub open spec fn unit_bytes(unit: Option<String>) -> Seq<u8> {
    match unit {
        Some(unit) => seq![1u8] + text_bytes(unit@),
        None => seq![0u8],
    }
}

pub open spec fn offset_bytes(offset_us: Option<i64>) -> Seq<u8> {
    match offset_us {
        Some(offset) => seq![1u8] + signed_bytes(offset),
        None => seq![0u8],
    }
}

pub open spec fn store_bytes(store: Option<usize>) -> Seq<u8> {
    match store {
        Some(store) => seq![1u8] + le_bytes(store as nat, 8),
        None => seq![0u8],
    }
}

/// What identifies an input, as bytes.
pub open spec fn input_bytes(input: InputField) -> Seq<u8> {
    match input {
        InputField::Found { field, multiplier, unit, offset_us, store } => seq![1u8] + le_bytes(
            field as nat,
            4,
        ) + le_bytes(multiplier as nat, 8) + unit_bytes(unit) + offset_bytes(offset_us)
            + store_bytes(store),
        InputField::Missing(error) => seq![0u8] + text_bytes(error@),
    }
}

fn bytes_of(input: &InputField) -> (r: Vec<u8>)
    ensures
        r@ == input_bytes(*input),
{
    let mut out: Vec<u8> = Vec::new();
    match input {
        InputField::Found { field, multiplier, unit, offset_us, store } => {
            out.push(1);
            push_bytes(&mut out, *field as u64, 4);
            push_bytes(&mut out, *multiplier, 8);
            let ghost head = out@;
            match unit {
                Some(unit) => {
                    out.push(1);
                    push_text(&mut out, unit.as_str());
                },
                None => {
                    out.push(0);
                },
            }
            proof {
                assert(out@ =~= head + unit_bytes(*unit));
            }
            let ghost with_unit = out@;
            match offset_us {
                Some(offset) => {
                    out.push(1);
                    if *offset < 0 {
                        out.push(1);
                        push_bytes(&mut out, (-(*offset + 1)) as u64, 8);
                    } else {
                        out.push(0);
                        push_bytes(&mut out, *offset as u64, 8);
                    }
                },
                None => {
                    out.push(0);
                },
            }
            proof {
                assert(out@ =~= with_unit + offset_bytes(*offset_us));
            }
            let ghost with_offset = out@;
            match store {
                Some(store) => {
                    out.push(1);
                    push_bytes(&mut out, *store as u64, 8);
                },
                None => {
                    out.push(0);
                },
            }
            proof {
                assert(out@ =~= with_offset + store_bytes(*store));
                assert(out@ =~= input_bytes(*input));
            }
        },
        InputField::Missing(error) => {
            out.push(0);
            push_text(&mut out, error.as_str());
            proof {
                assert(out@ =~= input_bytes(*input));
            }
        },
    }
    out
}

/// The inputs of a graph as one number: a hash of what they stand for.
pub open spec fn stamp_of(inputs: Seq<InputField>) -> u64 {
    DefaultHasher::spec_finish(Seq::new(inputs.len(), |i: int| input_bytes(inputs[i])))
}

/// The inputs of a graph as one number.
pub fn input_stamp(inputs: &Vec<InputField>) -> (r: u64)
    ensures
        r == stamp_of(inputs@),
{
    let ghost all = Seq::new(inputs@.len(), |i: int| input_bytes(inputs@[i]));
    let mut hasher = DefaultHasher::new();
    let mut i: usize = 0;
    while i < inputs.len()
        invariant
            i <= inputs@.len(),
            all == Seq::new(inputs@.len(), |k: int| input_bytes(inputs@[k])),
            hasher@ =~= all.take(i as int),
        decreases inputs@.len() - i,
    {
        let bytes = bytes_of(&inputs[i]);
        hasher.write(bytes.as_slice());
        i = i + 1;
    }
    proof {
        assert(all.take(i as int) =~= all);
    }
    hasher.finish()
}

/// A graph that runs without a window.
pub struct HeadlessFlow<S> {
    pub controller: DataFlowController<S>,
    /// It has been published once.
    pub initialized: bool,
    pub last_input: Option<u64>,
    /// The time of the last evaluation, as a bit pattern.
    pub last_run: u64,
}

/// The bit pattern of negative infinity: a time before all others.
pub const BEFORE_ALL: u64 = 0xfff0_0000_0000_0000;

/// What a headless graph is driven with.
pub struct HeadlessInput<S> {
    pub input: S,
    /// The stamp of the inputs as they are now.
    pub stamp: u64,
    pub live: bool,
    /// The time, as a bit pattern.
    pub now: u64,
    /// The interval between evaluations has passed.
    pub interval_passed: bool,
    pub snapshot_max: Option<i64>,
    pub overlap_us: i64,
    /// The generation of the latest request of any graph.
    pub latest: u64,
}

impl<S> HeadlessFlow<S> {
    pub fn new(graph: Graph) -> (r: HeadlessFlow<S>)
        ensures
            r.controller.graph == graph,
            r.controller.is_initial(),
            !r.initialized,
            r.last_input is None,
            r.last_run == BEFORE_ALL,
    {
        HeadlessFlow {
            controller: DataFlowController::new(graph),
            initialized: false,
            last_input: None,
            last_run: BEFORE_ALL,
        }
    }

    /// Whether the graph is evaluated now: it is idle, it has not run yet or
    /// follows live data after it was published, its inputs have changed, and
    /// the interval has passed.
    pub open spec fn is_due(self, live: bool, stamp: u64, interval_passed: bool) -> bool {
        &&& !(self.controller.in_flight || self.controller.pending is Some
            || self.controller.publications_in_flight > 0)
        &&& self.last_input is None || live && self.initialized
        &&& self.last_input != Some(stamp)
        &&& interval_passed
    }

    /// One round. `result` is the outcome of a publication that has ended since
    /// the last round; with one there is no evaluation.
    pub fn drive(&mut self, result: &Option<Result<(), String>>, given: HeadlessInput<S>) -> (r:
        Option<QueueStep<S>>)
        ensures
            ({
                let before = old(self).controller;
                let after = final(self).controller;
                let runs = result is None && old(self).is_due(
                    given.live,
                    given.stamp,
                    given.interval_passed,
                );
                &&& final(self).initialized == (old(self).initialized || (
                *result matches Some(outcome) && outcome is Ok))
                &&& r is Some <==> runs
                &&& !runs ==> after == before && final(self).last_input == old(self).last_input
                    && final(self).last_run == old(self).last_run
                &&& runs ==> {
                    &&& final(self).last_input == Some(given.stamp)
                    &&& final(self).last_run == given.now
                    &&& after.queued(
                        before,
                        r.unwrap(),
                        RequestView {
                            generation: next_generation(given.latest),
                            targets: targets_of(before.graph.nodes@, before.selection@),
                            input: given.input,
                            publish: true,
                            window: live_window(
                                before.live_watermark_t,
                                given.snapshot_max,
                                given.overlap_us,
                            ),
                            live: true,
                            preview_from_t: before.live_watermark_t,
                            snapshot_max_t: given.snapshot_max,
                        },
                    )
                    &&& after.generation == next_generation(given.latest)
                    &&& !after.needs_eval
                    &&& after.same_edits(before)
                    &&& after.diagnostics == before.diagnostics
                    &&& after.live_needs_reset == before.live_needs_reset
                    &&& after.same_publications(before)
                }
            }),
    {
        if let Some(outcome) = result {
            if outcome.is_ok() {
                self.initialized = true;
            }
            return None;
        }
        if self.controller.is_evaluating() {
            return None;
        }
        if !(self.last_input.is_none() || given.live && self.initialized) {
            return None;
        }
        let same = match self.last_input {
            Some(stamp) => stamp == given.stamp,
            None => false,
        };
        if same || !given.interval_passed {
            return None;
        }
        self.last_input = Some(given.stamp);
        self.last_run = given.now;
        Some(
            self.controller.request_live(
                given.input,
                given.snapshot_max,
                given.overlap_us,
                true,
                given.latest,
            ),
        )
    }
}

} // verus!
