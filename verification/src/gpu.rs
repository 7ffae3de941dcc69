//! What goes to the graphics card and in which order: plot traces, vehicle
//! paths and the passes of the 3D scene.

use crate::map_tiles::pow2;
use std::collections::HashMap;
use vstd::prelude::*;
use vstd::std_specs::hash::*;

verus! {

broadcast use group_hash_axioms;

/// The sample window `[a, b)` of a buffer of `n` samples, widened by one sample
/// of context on each side without leaving the buffer, so that the line
/// segments entering and leaving the viewport are drawn.
pub fn pad_window(a: usize, b: usize, n: usize) -> (r: (usize, usize))
    requires
        b < usize::MAX,
    ensures
        r.0 == if a == 0 { 0 } else { a - 1 },
        r.1 == if b + 1 <= n { b + 1 } else { n as int },
{
    let start: usize = if a == 0 { 0 } else { a - 1 };
    let end: usize = if b + 1 <= n { b + 1 } else { n };
    (start, end)
}

/// Whether the bit pattern of a single-precision number stands for a finite
/// one: its exponent bits are not all set.
pub open spec fn is_finite_bits(bits: u32) -> bool {
    bits as int / 0x80_0000 % 0x100 != 0xff
}

fn finite(bits: u32) -> (r: bool)
    ensures
        r == is_finite_bits(bits),
{
    bits / 0x80_0000 % 0x100 != 0xff
}

/// The points of the samples `[a, b)` whose two coordinates are finite.
pub open spec fn finite_points(xy: Seq<u32>, a: int, b: int) -> Seq<u32>
    decreases b - a,
{
    if b <= a {
        Seq::empty()
    } else {
        let rest = finite_points(xy, a, b - 1);
        let x = xy[2 * (b - 1)];
        let y = xy[2 * (b - 1) + 1];
        if is_finite_bits(x) && is_finite_bits(y) {
            rest.push(x).push(y)
        } else {
            rest
        }
    }
}

pub open spec fn at_most(a: usize, b: int) -> int {
    if a <= b {
        a as int
    } else {
        b
    }
}

/// The samples `[a, b)` of an interleaved `[x, y]` buffer, without those that
/// have a coordinate which is not finite: the samples around a gap connect.
pub fn line_window_xy(xy: &Vec<u32>, a: usize, b: usize) -> (r: Vec<u32>)
    ensures
        r@ == finite_points(
            xy@,
            at_most(a, xy@.len() as int / 2),
            at_most(b, xy@.len() as int / 2),
        ),
{
    let n: usize = xy.len();
    let samples: usize = n / 2;
    let start: usize = if a <= samples {
        a
    } else {
        samples
    };
    let end: usize = if b <= samples {
        b
    } else {
        samples
    };
    let mut out: Vec<u32> = Vec::new();
    let mut i: usize = start;
    while i < end
        invariant
            start <= i,
            i <= end || start >= end,
            start > end ==> i == start,
            end <= samples,
            n == xy@.len(),
            samples == n / 2,
            i <= end ==> out@ == finite_points(xy@, start as int, i as int),
            start >= end ==> out@.len() == 0,
        decreases end - i,
    {
        let x = xy[2 * i];
        let y = xy[2 * i + 1];
        if finite(x) && finite(y) {
            out.push(x);
            out.push(y);
        }
        i = i + 1;
    }
    proof {
        if start >= end {
            assert(out@ =~= finite_points(xy@, start as int, end as int));
        }
    }
    out
}

/// How a trace is drawn.
#[derive(Clone, Copy, Debug, PartialEq, Eq, Structural)]
pub enum DrawKind {
    Line { samples: u32 },
    Scatter { samples: u32 },
    Step { samples: u32 },
    /// `count` per-pixel min/max columns.
    Columns { count: u32 },
}

/// A pipeline of the graphics card.
#[derive(Clone, Copy, Debug, PartialEq, Eq, Structural)]
pub enum PipelineKind {
    Line,
    Scatter,
    Step,
    Columns,
}

/// The pipeline of a draw.
pub open spec fn pipeline_of(kind: DrawKind) -> PipelineKind {
    match kind {
        DrawKind::Line { .. } => PipelineKind::Line,
        DrawKind::Scatter { .. } => PipelineKind::Scatter,
        DrawKind::Step { .. } => PipelineKind::Step,
        DrawKind::Columns { .. } => PipelineKind::Columns,
    }
}

/// Whether there is enough to draw.
pub open spec fn drawable(kind: DrawKind) -> bool {
    match kind {
        DrawKind::Line { samples } => samples >= 2,
        DrawKind::Scatter { samples } => samples >= 1,
        DrawKind::Step { samples } => samples >= 2,
        DrawKind::Columns { count } => count >= 1,
    }
}

impl DrawKind {
    /// The pipeline that draws it.
    pub fn pipeline(self) -> (r: PipelineKind)
        ensures
            r == pipeline_of(self),
    {
        match self {
            DrawKind::Line { .. } => PipelineKind::Line,
            DrawKind::Scatter { .. } => PipelineKind::Scatter,
            DrawKind::Step { .. } => PipelineKind::Step,
            DrawKind::Columns { .. } => PipelineKind::Columns,
        }
    }

    /// Whether there is enough to draw.
    pub fn is_drawable(self) -> (r: bool)
        ensures
            r == drawable(self),
    {
        match self {
            DrawKind::Line { samples } => samples >= 2,
            DrawKind::Scatter { samples } => samples >= 1,
            DrawKind::Step { samples } => samples >= 2,
            DrawKind::Columns { count } => count >= 1,
        }
    }
}

/// The maximal runs of equal kinds, in order, with their lengths.
pub open spec fn runs_of(kinds: Seq<PipelineKind>) -> Seq<(PipelineKind, u32)>
    decreases kinds.len(),
{
    if kinds.len() == 0 {
        Seq::empty()
    } else {
        let rest = runs_of(kinds.drop_last());
        if rest.len() > 0 && rest.last().0 == kinds.last() {
            rest.drop_last().push((kinds.last(), (rest.last().1 + 1) as u32))
        } else {
            rest.push((kinds.last(), 1u32))
        }
    }
}

/// The kinds that a list of runs stands for.
pub open spec fn expanded(runs: Seq<(PipelineKind, u32)>) -> Seq<PipelineKind>
    decreases runs.len(),
{
    if runs.len() == 0 {
        Seq::empty()
    } else {
        expanded(runs.drop_last()) + Seq::new(runs.last().1 as nat, |i: int| runs.last().0)
    }
}

/// Runs keep every draw in its order, and no two neighbouring runs could be one.
pub proof fn runs_keep_draw_order(kinds: Seq<PipelineKind>)
    requires
        kinds.len() <= u32::MAX,
    ensures
        expanded(runs_of(kinds)) == kinds,
        forall|i: int|
            0 <= i < runs_of(kinds).len() - 1 ==> (#[trigger] runs_of(kinds)[i]).0 != runs_of(
                kinds,
            )[i + 1].0,
        forall|i: int| 0 <= i < runs_of(kinds).len() ==> (#[trigger] runs_of(kinds)[i]).1 >= 1,
    decreases kinds.len(),
{
    if kinds.len() > 0 {
        let short = kinds.drop_last();
        runs_keep_draw_order(short);
        let rest = runs_of(short);
        let runs = runs_of(kinds);
        lemma_run_fits(short);
        assert(kinds =~= short.push(kinds.last()));
        if rest.len() > 0 && rest.last().0 == kinds.last() {
            assert(runs.drop_last() =~= rest.drop_last());
            let n = rest.last().1 as nat;
            assert(Seq::new((n + 1) as nat, |i: int| kinds.last()) =~= Seq::new(
                n,
                |i: int| rest.last().0,
            ).push(kinds.last()));
            assert(expanded(runs) =~= expanded(rest).push(kinds.last()));
            assert forall|i: int| 0 <= i < runs.len() - 1 implies (#[trigger] runs[i]).0 != runs[i
                + 1].0 by {
                assert(rest[i].0 != rest[i + 1].0);
            }
            assert forall|i: int| 0 <= i < runs.len() implies (#[trigger] runs[i]).1 >= 1 by {
                if i < rest.len() - 1 {
                    assert(rest[i].1 >= 1);
                }
            }
        } else {
            assert(runs.drop_last() =~= rest);
            assert(Seq::new(1nat, |i: int| kinds.last()) =~= seq![kinds.last()]);
            assert(expanded(runs) =~= expanded(rest).push(kinds.last()));
            assert forall|i: int| 0 <= i < runs.len() - 1 implies (#[trigger] runs[i]).0 != runs[i
                + 1].0 by {
                if i < rest.len() - 1 {
                    assert(rest[i].0 != rest[i + 1].0);
                }
            }
        }
    }
}

proof fn lemma_run_fits(kinds: Seq<PipelineKind>)
    requires
        kinds.len() <= u32::MAX,
    ensures
        runs_of(kinds).len() > 0 ==> runs_of(kinds).last().1 <= kinds.len(),
        runs_of(kinds).len() <= kinds.len(),
    decreases kinds.len(),
{
    if kinds.len() > 0 {
        lemma_run_fits(kinds.drop_last());
    }
}

/// Consecutive same-pipeline runs in draw order, one pipeline switch each.
pub fn pipeline_runs(kinds: &Vec<PipelineKind>) -> (r: Vec<(PipelineKind, u32)>)
    requires
        kinds@.len() <= u32::MAX,
    ensures
        r@ == runs_of(kinds@),
{
    let mut runs: Vec<(PipelineKind, u32)> = Vec::new();
    let mut i: usize = 0;
    proof {
        assert(kinds@.take(0) =~= Seq::<PipelineKind>::empty());
    }
    while i < kinds.len()
        invariant
            i <= kinds@.len() <= u32::MAX,
            runs@ == runs_of(kinds@.take(i as int)),
        decreases kinds@.len() - i,
    {
        proof {
            assert(kinds@.take(i + 1).drop_last() =~= kinds@.take(i as int));
            assert(kinds@.take(i + 1).last() == kinds@[i as int]);
            lemma_run_fits(kinds@.take(i as int));
        }
        let n = runs.len();
        if n > 0 && runs[n - 1].0 == kinds[i] {
            let (kind, count) = runs[n - 1];
            let ghost before = runs@;
            runs.set(n - 1, (kind, count + 1));
            proof {
                assert(runs@ =~= before.drop_last().push((kind, (count + 1) as u32)));
            }
        } else {
            runs.push((kinds[i], 1));
        }
        i = i + 1;
    }
    proof {
        assert(kinds@.take(i as int) =~= kinds@);
    }
    runs
}

/// A trace to draw: the field, its uniform slot and how it is drawn.
#[derive(Clone, Copy, Debug, PartialEq, Eq, Structural)]
pub struct DrawItem {
    pub field: u32,
    pub slot: u32,
    pub kind: DrawKind,
}

/// A step of painting a pane.
#[derive(Clone, Copy, Debug, PartialEq, Eq, Structural)]
pub enum PaintStep {
    /// Switch to a pipeline.
    Bind(PipelineKind),
    /// Draw the item of that index.
    Draw(usize),
}

/// The steps of painting the first `n` items: each in order, and a switch where
/// the pipeline changes.
pub open spec fn painting(items: Seq<DrawItem>, n: nat) -> Seq<PaintStep>
    decreases n,
{
    if n == 0 {
        Seq::empty()
    } else {
        let rest = painting(items, (n - 1) as nat);
        let kind = pipeline_of(items[n - 1].kind);
        if n == 1 || pipeline_of(items[n - 2].kind) != kind {
            rest.push(PaintStep::Bind(kind)).push(PaintStep::Draw((n - 1) as usize))
        } else {
            rest.push(PaintStep::Draw((n - 1) as usize))
        }
    }
}

/// The steps of painting a pane.
pub fn paint_steps(items: &Vec<DrawItem>) -> (r: Vec<PaintStep>)
    ensures
        r@ == painting(items@, items@.len()),
{
    let mut out: Vec<PaintStep> = Vec::new();
    let mut i: usize = 0;
    while i < items.len()
        invariant
            i <= items@.len(),
            out@ == painting(items@, i as nat),
        decreases items@.len() - i,
    {
        let kind = items[i].kind.pipeline();
        if i == 0 || items[i - 1].kind.pipeline() != kind {
            out.push(PaintStep::Bind(kind));
        }
        out.push(PaintStep::Draw(i));
        i = i + 1;
    }
    out
}

pub open spec fn max_int(a: int, b: int) -> int {
    if a >= b {
        a
    } else {
        b
    }
}

pub open spec fn min_int(a: int, b: int) -> int {
    if a <= b {
        a
    } else {
        b
    }
}

/// A screen size as a signed coordinate.
pub open spec fn signed_size(n: u32) -> int {
    if n <= i32::MAX {
        n as int
    } else {
        n - 0x1_0000_0000
    }
}

/// The rectangle, as left, top, width and height, that a viewport, a clip
/// rectangle and the screen have in common; `None` where there is none.
pub open spec fn common_rect(
    viewport: (i32, i32, i32, i32),
    clip: (i32, i32, i32, i32),
    screen: [u32; 2],
) -> Option<(u32, u32, u32, u32)> {
    let left = max_int(max_int(viewport.0 as int, clip.0 as int), 0);
    let top = max_int(max_int(viewport.1 as int, clip.1 as int), 0);
    let right = min_int(
        min_int(viewport.0 + viewport.2, clip.0 + clip.2),
        signed_size(screen[0]),
    );
    let bottom = min_int(
        min_int(viewport.1 + viewport.3, clip.1 + clip.3),
        signed_size(screen[1]),
    );
    if viewport.2 <= 0 || viewport.3 <= 0 || clip.2 <= 0 || clip.3 <= 0 {
        None
    } else if right > left && bottom > top {
        Some((left as u32, top as u32, (right - left) as u32, (bottom - top) as u32))
    } else {
        None
    }
}

fn larger(a: i64, b: i64) -> (r: i64)
    ensures
        r == max_int(a as int, b as int),
{
    if a >= b {
        a
    } else {
        b
    }
}

fn smaller(a: i64, b: i64) -> (r: i64)
    ensures
        r == min_int(a as int, b as int),
{
    if a <= b {
        a
    } else {
        b
    }
}

fn signed(n: u32) -> (r: i64)
    ensures
        r == signed_size(n),
{
    if n <= 0x7fff_ffff {
        n as i64
    } else {
        n as i64 - 0x1_0000_0000
    }
}

/// The part of the screen that a pane may paint.
pub fn intersect_scissor_rect(
    viewport: (i32, i32, i32, i32),
    clip: (i32, i32, i32, i32),
    screen: [u32; 2],
) -> (r: Option<(u32, u32, u32, u32)>)
    ensures
        r == common_rect(viewport, clip, screen),
        r matches Some(s) ==> s.2 > 0 && s.3 > 0 && s.0 + s.2 <= screen[0] && s.1 + s.3
            <= screen[1],
{
    if viewport.2 <= 0 || viewport.3 <= 0 || clip.2 <= 0 || clip.3 <= 0 {
        return None;
    }
    let left = larger(larger(viewport.0 as i64, clip.0 as i64), 0);
    let top = larger(larger(viewport.1 as i64, clip.1 as i64), 0);
    let right = smaller(
        smaller(viewport.0 as i64 + viewport.2 as i64, clip.0 as i64 + clip.2 as i64),
        signed(screen[0]),
    );
    let bottom = smaller(
        smaller(viewport.1 as i64 + viewport.3 as i64, clip.1 as i64 + clip.3 as i64),
        signed(screen[1]),
    );
    if right > left && bottom > top {
        Some((left as u32, top as u32, (right - left) as u32, (bottom - top) as u32))
    } else {
        None
    }
}

/// How a trace is shown.
#[derive(Clone, Copy, Debug, PartialEq, Eq, Structural)]
pub enum TraceMode {
    Line,
    Scatter,
    Step,
}

/// Identifies the decimated columns currently resident for a field. A match
/// means the same view over unchanged data, so nothing is computed or uploaded.
/// The ends of the view are bit patterns.
#[derive(Clone, Copy, Debug, PartialEq, Eq, Structural)]
pub struct ColKey {
    pub x0: u32,
    pub x1: u32,
    pub width: u32,
    pub bridge: bool,
    pub len: usize,
}

/// Identifies the raw-line sample window currently resident for a field. A
/// match means the same visible window over unchanged data.
#[derive(Clone, Copy, Debug, PartialEq, Eq, Structural)]
pub struct WinKey {
    pub a: usize,
    pub b: usize,
    pub len: usize,
}

/// What a pane shows of a trace. `width` is the number of pixel columns where
/// the samples are so dense that they are decimated.
#[derive(Clone, Copy, Debug, PartialEq, Eq, Structural)]
pub struct TraceView {
    pub mode: TraceMode,
    pub x0: u32,
    pub x1: u32,
    /// The visible samples `[a, b)`.
    pub a: usize,
    pub b: usize,
    pub samples: usize,
    pub width: Option<u32>,
    pub bridge: bool,
}

/// What is to be done for a trace before it is drawn.
#[derive(Clone, Copy, Debug, PartialEq, Eq, Structural)]
pub enum TracePlan {
    /// Draw columns; compute and upload them first where `upload` holds.
    Columns { width: u32, upload: bool },
    /// Draw the samples `[a, b)`; upload them first where `upload` holds.
    Window { a: usize, b: usize, upload: bool },
    /// Bring the whole trace up to date and draw it as dots or steps.
    Whole { step: bool },
}

/// A trace of a pane. It has no view where its samples are not cached.
#[derive(Clone, Copy, Debug, PartialEq, Eq, Structural)]
pub struct PaneTrace {
    pub field: u32,
    pub visible: bool,
    pub view: Option<TraceView>,
}

/// A trace that is drawn with the uniform in a slot.
#[derive(Clone, Copy, Debug, PartialEq, Eq, Structural)]
pub struct PlannedTrace {
    pub field: u32,
    pub slot: u32,
    pub plan: TracePlan,
}

/// What is resident for the fields that are plotted.
pub struct PlotResidency {
    pub columns: HashMap<u32, ColKey>,
    pub windows: HashMap<u32, WinKey>,
    pub next_uniform_slot: u32,
    pub uniform_capacity: u32,
}

/// The columns that a view asks for.
pub open spec fn column_key(view: TraceView) -> ColKey {
    ColKey {
        x0: view.x0,
        x1: view.x1,
        width: view.width.unwrap(),
        bridge: view.bridge,
        len: view.samples,
    }
}

/// The window that a view asks for: its visible samples with one sample of
/// context on each side.
pub open spec fn window_key(view: TraceView) -> WinKey {
    WinKey {
        a: if view.a == 0 { 0 } else { (view.a - 1) as usize },
        b: if view.b + 1 <= view.samples { (view.b + 1) as usize } else { view.samples },
        len: view.samples,
    }
}

/// Whether a map holds exactly this value under the key.
pub open spec fn holds<V>(m: Map<u32, V>, key: u32, value: V) -> bool {
    m.dom().contains(key) && m[key] == value
}

/// What is to be done for a trace.
pub open spec fn trace_plan(
    columns: Map<u32, ColKey>,
    windows: Map<u32, WinKey>,
    field: u32,
    view: TraceView,
) -> TracePlan {
    match view.mode {
        TraceMode::Line => match view.width {
            Some(width) => TracePlan::Columns {
                width,
                upload: !holds(columns, field, column_key(view)),
            },
            None => TracePlan::Window {
                a: window_key(view).a,
                b: window_key(view).b,
                upload: !holds(windows, field, window_key(view)),
            },
        },
        TraceMode::Scatter => TracePlan::Whole { step: false },
        TraceMode::Step => TracePlan::Whole { step: true },
    }
}

/// What is resident after some traces of a pane, how many of them are visible,
/// and what was planned for them.
#[verifier::ext_equal]
pub ghost struct PaneState {
    pub columns: Map<u32, ColKey>,
    pub windows: Map<u32, WinKey>,
    pub visible: nat,
    pub planned: Seq<PlannedTrace>,
}

/// The state after one more trace. A visible trace takes a slot even where its
/// samples are not cached.
pub open spec fn after_trace(state: PaneState, base: int, trace: PaneTrace) -> PaneState {
    if !trace.visible {
        state
    } else {
        match trace.view {
            None => PaneState { visible: state.visible + 1, ..state },
            Some(view) => {
                let plan = trace_plan(state.columns, state.windows, trace.field, view);
                PaneState {
                    columns: if plan is Columns {
                        state.columns.insert(trace.field, column_key(view))
                    } else {
                        state.columns
                    },
                    windows: if plan is Window {
                        state.windows.insert(trace.field, window_key(view))
                    } else {
                        state.windows
                    },
                    visible: state.visible + 1,
                    planned: state.planned.push(
                        PlannedTrace {
                            field: trace.field,
                            slot: (base + state.visible) as u32,
                            plan,
                        },
                    ),
                }
            },
        }
    }
}

/// The state after the first `n` traces of a pane.
pub open spec fn pane_state(
    columns: Map<u32, ColKey>,
    windows: Map<u32, WinKey>,
    base: int,
    traces: Seq<PaneTrace>,
    n: nat,
) -> PaneState
    decreases n,
{
    if n == 0 {
        PaneState { columns, windows, visible: 0, planned: Seq::empty() }
    } else {
        after_trace(
            pane_state(columns, windows, base, traces, (n - 1) as nat),
            base,
            traces[n - 1],
        )
    }
}

/// Each trace of a pane is drawn with a uniform of its own, among those that
/// the pane has taken.
pub proof fn uniforms_are_not_shared(
    columns: Map<u32, ColKey>,
    windows: Map<u32, WinKey>,
    base: u32,
    traces: Seq<PaneTrace>,
    n: nat,
)
    requires
        n <= traces.len(),
        base + traces.len() <= u32::MAX,
    ensures
        ({
            let state = pane_state(columns, windows, base as int, traces, n);
            &&& state.visible <= n
            &&& forall|i: int|
                0 <= i < state.planned.len() ==> base <= (#[trigger] state.planned[i]).slot < base
                    + state.visible
            &&& forall|i: int, j: int|
                0 <= i < j < state.planned.len() ==> (#[trigger] state.planned[i]).slot < (
                #[trigger] state.planned[j]).slot
        }),
    decreases n,
{
    if n > 0 {
        uniforms_are_not_shared(columns, windows, base, traces, (n - 1) as nat);
    }
}

/// Whether `r` is the smallest power of two that is not smaller than `n`.
pub open spec fn is_next_power_of_two(n: int, r: int) -> bool {
    exists|k: nat| #[trigger]
        pow2(k) == r && n <= r && (k == 0 || pow2((k - 1) as nat) < n)
}

fn next_power_of_two(n: u32) -> (r: u32)
    requires
        n <= 0x8000_0000,
    ensures
        is_next_power_of_two(n as int, r as int),
        n <= r,
        r >= 1,
{
    let mut p: u64 = 1;
    let ghost mut k: nat = 0;
    proof {
        assert(pow2(0) == 1);
        assert(pow2(31) == 0x8000_0000) by {
            reveal_with_fuel(pow2, 32);
        }
    }
    while p < n as u64
        invariant
            n <= 0x8000_0000,
            1 <= p <= 0x8000_0000,
            p == pow2(k),
            pow2(31) == 0x8000_0000,
            k <= 31,
            k == 0 || pow2((k - 1) as nat) < n,
        decreases 0x8000_0000 - p,
    {
        proof {
            if k == 31 {
                assert(p == 0x8000_0000);
            }
            assert(pow2(k + 1) == 2 * pow2(k));
            lemma_pow2_le(k + 1, 31);
        }
        p = p * 2;
        proof {
            k = k + 1;
        }
    }
    p as u32
}

proof fn lemma_pow2_le(a: nat, b: nat)
    ensures
        a <= b ==> pow2(a) <= pow2(b),
    decreases b,
{
    if a < b {
        lemma_pow2_le(a, (b - 1) as nat);
    }
}

impl PlotResidency {
    pub fn new(uniform_capacity: u32) -> (r: PlotResidency)
        ensures
            r.columns@ == Map::<u32, ColKey>::empty(),
            r.windows@ == Map::<u32, WinKey>::empty(),
            r.next_uniform_slot == 0,
            r.uniform_capacity == uniform_capacity,
    {
        PlotResidency {
            columns: HashMap::new(),
            windows: HashMap::new(),
            next_uniform_slot: 0,
            uniform_capacity,
        }
    }

    /// Starts a frame: all uniform slots are free again.
    pub fn begin_plot_frame(&mut self)
        ensures
            final(self).next_uniform_slot == 0,
            final(self).columns == old(self).columns,
            final(self).windows == old(self).windows,
            final(self).uniform_capacity == old(self).uniform_capacity,
    {
        self.next_uniform_slot = 0;
    }

    /// Takes one uniform slot for each trace of a pane and returns the first.
    /// The ring of uniforms grows to a power of two where it is too small.
    pub fn reserve_slots(&mut self, traces: u32) -> (base: u32)
        requires
            old(self).next_uniform_slot + traces <= 0x8000_0000,
        ensures
            base == old(self).next_uniform_slot,
            final(self).next_uniform_slot == base + traces,
            final(self).columns == old(self).columns,
            final(self).windows == old(self).windows,
            base + traces <= old(self).uniform_capacity ==> final(self).uniform_capacity
                == old(self).uniform_capacity,
            base + traces > old(self).uniform_capacity ==> is_next_power_of_two(
                base + traces,
                final(self).uniform_capacity as int,
            ),
            base + traces <= final(self).uniform_capacity,
    {
        let base = self.next_uniform_slot;
        self.next_uniform_slot = base + traces;
        if self.next_uniform_slot > self.uniform_capacity {
            self.uniform_capacity = next_power_of_two(self.next_uniform_slot);
        }
        base
    }

    /// Decides what is uploaded for a trace, and remembers it as resident.
    pub fn plan_trace(&mut self, field: u32, view: TraceView) -> (r: TracePlan)
        requires
            view.b < usize::MAX,
        ensures
            r == trace_plan(old(self).columns@, old(self).windows@, field, view),
            final(self).columns@ == if r is Columns {
                old(self).columns@.insert(field, column_key(view))
            } else {
                old(self).columns@
            },
            final(self).windows@ == if r is Window {
                old(self).windows@.insert(field, window_key(view))
            } else {
                old(self).windows@
            },
            final(self).next_uniform_slot == old(self).next_uniform_slot,
            final(self).uniform_capacity == old(self).uniform_capacity,
    {
        match view.mode {
            TraceMode::Line => match view.width {
                Some(width) => {
                    let key = ColKey {
                        x0: view.x0,
                        x1: view.x1,
                        width,
                        bridge: view.bridge,
                        len: view.samples,
                    };
                    let upload = match self.columns.get(&field) {
                        Some(known) => *known != key,
                        None => true,
                    };
                    self.columns.insert(field, key);
                    TracePlan::Columns { width, upload }
                },
                None => {
                    let (a, b) = pad_window(view.a, view.b, view.samples);
                    let key = WinKey { a, b, len: view.samples };
                    let upload = match self.windows.get(&field) {
                        Some(known) => *known != key,
                        None => true,
                    };
                    self.windows.insert(field, key);
                    TracePlan::Window { a, b, upload }
                },
            },
            TraceMode::Scatter => TracePlan::Whole { step: false },
            TraceMode::Step => TracePlan::Whole { step: true },
        }
    }

    /// Decides what is uploaded for the visible traces of a pane, and gives each
    /// its slot.
    pub fn plan_pane(&mut self, traces: &Vec<PaneTrace>) -> (r: Vec<PlannedTrace>)
        requires
            old(self).next_uniform_slot + traces@.len() <= 0x8000_0000,
            forall|i: int|
                0 <= i < traces@.len() ==> ((#[trigger] traces@[i]).view matches Some(view)
                    ==> view.b < usize::MAX),
        ensures
            ({
                let state = pane_state(
                    old(self).columns@,
                    old(self).windows@,
                    old(self).next_uniform_slot as int,
                    traces@,
                    traces@.len(),
                );
                &&& r@ == state.planned
                &&& final(self).columns@ == state.columns
                &&& final(self).windows@ == state.windows
            }),
            final(self).next_uniform_slot == old(self).next_uniform_slot + traces@.len(),
            final(self).next_uniform_slot <= old(self).uniform_capacity
                ==> final(self).uniform_capacity == old(self).uniform_capacity,
            final(self).next_uniform_slot > old(self).uniform_capacity ==> is_next_power_of_two(
                final(self).next_uniform_slot as int,
                final(self).uniform_capacity as int,
            ),
            final(self).next_uniform_slot <= final(self).uniform_capacity,
    {
        let base: u32 = self.reserve_slots(traces.len() as u32);
        let ghost next = self.next_uniform_slot;
        let ghost capacity = self.uniform_capacity;
        let mut planned: Vec<PlannedTrace> = Vec::new();
        let mut visible: u32 = 0;
        let mut i: usize = 0;
        while i < traces.len()
            invariant
                visible <= i <= traces@.len(),
                base == old(self).next_uniform_slot,
                base + traces@.len() <= 0x8000_0000,
                forall|j: int|
                    0 <= j < traces@.len() ==> ((#[trigger] traces@[j]).view matches Some(view)
                        ==> view.b < usize::MAX),
                pane_state(
                    old(self).columns@,
                    old(self).windows@,
                    base as int,
                    traces@,
                    i as nat,
                ) == (PaneState {
                    columns: self.columns@,
                    windows: self.windows@,
                    visible: visible as nat,
                    planned: planned@,
                }),
                self.next_uniform_slot == next,
                self.uniform_capacity == capacity,
            decreases traces@.len() - i,
        {
            let trace = traces[i];
            if trace.visible {
                if let Some(view) = trace.view {
                    let plan = self.plan_trace(trace.field, view);
                    planned.push(PlannedTrace { field: trace.field, slot: base + visible, plan });
                }
                visible = visible + 1;
            }
            i = i + 1;
        }
        planned
    }

    /// Forgets the fields that are resident but no longer plotted, and lists
    /// them.
    pub fn retain_buffers(&mut self, resident: &Vec<u32>, plotted: &Vec<u32>) -> (r: Vec<u32>)
        ensures
            r@ == stale_fields(resident@, plotted@, resident@.len()),
            final(self).columns@ == old(self).columns@.remove_keys(r@.to_set()),
            final(self).windows@ == old(self).windows@.remove_keys(r@.to_set()),
            final(self).next_uniform_slot == old(self).next_uniform_slot,
            final(self).uniform_capacity == old(self).uniform_capacity,
    {
        let mut stale: Vec<u32> = Vec::new();
        let mut i: usize = 0;
        proof {
            assert(self.columns@.remove_keys(stale@.to_set()) =~= self.columns@);
            assert(self.windows@.remove_keys(stale@.to_set()) =~= self.windows@);
        }
        while i < resident.len()
            invariant
                i <= resident@.len(),
                stale@ == stale_fields(resident@, plotted@, i as nat),
                self.columns@ == old(self).columns@.remove_keys(stale@.to_set()),
                self.windows@ == old(self).windows@.remove_keys(stale@.to_set()),
                self.next_uniform_slot == old(self).next_uniform_slot,
                self.uniform_capacity == old(self).uniform_capacity,
            decreases resident@.len() - i,
        {
            let field = resident[i];
            if !has_field(plotted, field) {
                let ghost before = stale@;
                stale.push(field);
                self.columns.remove(&field);
                self.windows.remove(&field);
                proof {
                    before.lemma_push_to_set_commute(field);
                    assert(self.columns@ =~= old(self).columns@.remove_keys(stale@.to_set()));
                    assert(self.windows@ =~= old(self).windows@.remove_keys(stale@.to_set()));
                }
            }
            i = i + 1;
        }
        stale
    }
}

/// A view that is shown again over unchanged data uploads nothing.
pub proof fn static_views_upload_nothing(
    columns: Map<u32, ColKey>,
    windows: Map<u32, WinKey>,
    field: u32,
    view: TraceView,
)
    requires
        view.mode == TraceMode::Line,
    ensures
        view.width is Some ==> trace_plan(
            columns.insert(field, column_key(view)),
            windows,
            field,
            view,
        ) == (TracePlan::Columns { width: view.width.unwrap(), upload: false }),
        view.width is None ==> trace_plan(
            columns,
            windows.insert(field, window_key(view)),
            field,
            view,
        ) == (TracePlan::Window {
            a: window_key(view).a,
            b: window_key(view).b,
            upload: false,
        }),
{
}

fn has_field(fields: &Vec<u32>, field: u32) -> (r: bool)
    ensures
        r == fields@.contains(field),
{
    let mut i: usize = 0;
    while i < fields.len()
        invariant
            i <= fields@.len(),
            forall|j: int| 0 <= j < i ==> fields@[j] != field,
        decreases fields@.len() - i,
    {
        if fields[i] == field {
            return true;
        }
        i = i + 1;
    }
    false
}

/// The first `n` resident fields that are no longer plotted.
pub open spec fn stale_fields(resident: Seq<u32>, plotted: Seq<u32>, n: nat) -> Seq<u32>
    decreases n,
{
    if n == 0 {
        Seq::empty()
    } else {
        let rest = stale_fields(resident, plotted, (n - 1) as nat);
        if plotted.contains(resident[n - 1]) {
            rest
        } else {
            rest.push(resident[n - 1])
        }
    }
}

/// How a trace is drawn once `resident` samples are on the card.
pub open spec fn drawn_as(plan: TracePlan, resident: u32) -> DrawKind {
    match plan {
        TracePlan::Columns { width, .. } => DrawKind::Columns { count: width },
        TracePlan::Window { .. } => DrawKind::Line { samples: resident },
        TracePlan::Whole { step } => if step {
            DrawKind::Step { samples: resident }
        } else {
            DrawKind::Scatter { samples: resident }
        },
    }
}

/// What is drawn of the first `n` traces of a pane: those of which there is
/// enough.
pub open spec fn items_of(planned: Seq<PlannedTrace>, resident: Seq<u32>, n: nat) -> Seq<DrawItem>
    decreases n,
{
    if n == 0 {
        Seq::empty()
    } else {
        let rest = items_of(planned, resident, (n - 1) as nat);
        let trace = planned[n - 1];
        let kind = drawn_as(trace.plan, resident[n - 1]);
        if drawable(kind) {
            rest.push(DrawItem { field: trace.field, slot: trace.slot, kind })
        } else {
            rest
        }
    }
}

/// What is drawn of a pane once its traces are on the card; `resident` holds
/// the number of samples of each.
pub fn pane_items(planned: &Vec<PlannedTrace>, resident: &Vec<u32>) -> (r: Vec<DrawItem>)
    requires
        resident@.len() == planned@.len(),
    ensures
        r@ == items_of(planned@, resident@, planned@.len()),
{
    let mut items: Vec<DrawItem> = Vec::new();
    let mut i: usize = 0;
    while i < planned.len()
        invariant
            i <= planned@.len() == resident@.len(),
            items@ == items_of(planned@, resident@, i as nat),
        decreases planned@.len() - i,
    {
        let trace = planned[i];
        let samples: u32 = resident[i];
        let kind = match trace.plan {
            TracePlan::Columns { width, .. } => DrawKind::Columns { count: width },
            TracePlan::Window { .. } => DrawKind::Line { samples },
            TracePlan::Whole { step } => {
                if step {
                    DrawKind::Step { samples }
                } else {
                    DrawKind::Scatter { samples }
                }
            },
        };
        if kind.is_drawable() {
            items.push(DrawItem { field: trace.field, slot: trace.slot, kind });
        }
        i = i + 1;
    }
    items
}

/// What is allocated on the graphics card for plots.
#[derive(Debug, Clone, Copy, PartialEq, Eq, Structural)]
pub struct GpuSummary {
    pub buffer_count: usize,
    pub gpu_bytes: u64,
}

/// A sum that stops at the largest representable number.
pub open spec fn saturated(n: int) -> u64 {
    if n > u64::MAX {
        u64::MAX
    } else {
        n as u64
    }
}

/// The bridge to the graphics card. The render target encodes gamma itself
/// where `srgb_target` holds.
#[derive(Clone, Copy, Debug, PartialEq, Eq, Structural)]
pub struct GpuBridge {
    pub available: bool,
    pub srgb_target: bool,
}

/// The render target that a window was created with.
#[derive(Clone, Copy, Debug, PartialEq, Eq, Structural)]
pub struct RenderTarget {
    /// Whether it encodes gamma itself.
    pub is_srgb: bool,
}

impl GpuBridge {
    /// The bridge of a window: there is a card to draw with where the window was
    /// created with a render target.
    pub fn from_creation_context(target: Option<RenderTarget>) -> (r: GpuBridge)
        ensures
            r.available == target is Some,
            r.srgb_target == (target matches Some(t) && t.is_srgb),
    {
        match target {
            Some(target) => GpuBridge { available: true, srgb_target: target.is_srgb },
            None => GpuBridge { available: false, srgb_target: false },
        }
    }

    /// Whether there is a card to draw with.
    pub fn is_available(&self) -> (r: bool)
        ensures
            r == self.available,
    {
        self.available
    }

    /// The sum over the three buffer pools; nothing without a card.
    pub fn summary(&self, pools: [GpuSummary; 3]) -> (r: GpuSummary)
        requires
            pools[0].buffer_count + pools[1].buffer_count + pools[2].buffer_count <= usize::MAX,
        ensures
            !self.available ==> r.buffer_count == 0 && r.gpu_bytes == 0,
            self.available ==> r.buffer_count == pools[0].buffer_count + pools[1].buffer_count
                + pools[2].buffer_count,
            self.available ==> r.gpu_bytes == saturated(
                pools[0].gpu_bytes + pools[1].gpu_bytes + pools[2].gpu_bytes,
            ),
    {
        if !self.available {
            return GpuSummary { buffer_count: 0, gpu_bytes: 0 };
        }
        GpuSummary {
            buffer_count: pools[0].buffer_count + pools[1].buffer_count + pools[2].buffer_count,
            gpu_bytes: pools[0].gpu_bytes.saturating_add(pools[1].gpu_bytes).saturating_add(
                pools[2].gpu_bytes,
            ),
        }
    }

    /// The bytes of one field over the three buffer pools.
    pub fn field_gpu_bytes(&self, pools: [u64; 3]) -> (r: u64)
        ensures
            r == if self.available {
                saturated(pools[0] + pools[1] + pools[2])
            } else {
                0
            },
    {
        if !self.available {
            return 0;
        }
        pools[0].saturating_add(pools[1]).saturating_add(pools[2])
    }
}

/// The path of a vehicle as it is resident.
#[derive(Clone, Copy, Debug, PartialEq, Eq, Structural)]
pub struct VehiclePath {
    pub capacity: u32,
    pub count: u32,
    pub generation: u64,
}

/// What is uploaded of a path.
#[derive(Clone, Copy, Debug, PartialEq, Eq, Structural)]
pub enum PathUpload {
    Nothing,
    Whole,
    /// The points from that index on.
    Tail(u32),
}

/// What is done for the path of a vehicle.
#[derive(Clone, Copy, Debug, PartialEq, Eq, Structural)]
pub struct VehiclePlan {
    /// The capacity of a new buffer, where one is needed.
    pub allocate: Option<u32>,
    pub upload: PathUpload,
}

/// Whether a path needs a new buffer.
pub open spec fn needs_buffer(path: Option<VehiclePath>, needed: u32) -> bool {
    match path {
        Some(path) => needed > path.capacity,
        None => true,
    }
}

/// What is uploaded of a path of `needed` points: all of it into a new buffer,
/// after a change of generation or when it has become shorter; else the points
/// that were appended.
pub open spec fn path_upload(
    path: Option<VehiclePath>,
    needed: u32,
    generation: u64,
) -> PathUpload {
    match path {
        Some(known) => if needs_buffer(path, needed) || known.generation != generation || needed
            < known.count {
            if needed > 0 {
                PathUpload::Whole
            } else {
                PathUpload::Nothing
            }
        } else if needed > known.count {
            PathUpload::Tail(known.count)
        } else {
            PathUpload::Nothing
        },
        None => if needed > 0 {
            PathUpload::Whole
        } else {
            PathUpload::Nothing
        },
    }
}

/// The paths of all vehicles.
pub struct VehiclePaths {
    pub paths: HashMap<u32, VehiclePath>,
}

pub open spec fn known_path(paths: Map<u32, VehiclePath>, key: u32) -> Option<VehiclePath> {
    if paths.dom().contains(key) {
        Some(paths[key])
    } else {
        None
    }
}

impl VehiclePaths {
    pub fn new() -> (r: VehiclePaths)
        ensures
            r.paths@ == Map::<u32, VehiclePath>::empty(),
    {
        VehiclePaths { paths: HashMap::new() }
    }

    /// Decides what is done for a path of `needed` points, and remembers it as
    /// resident.
    pub fn prepare_vehicle(&mut self, key: u32, needed: u32, generation: u64) -> (r: VehiclePlan)
        requires
            needed <= 0x8000_0000,
        ensures
            r.allocate is Some <==> needs_buffer(known_path(old(self).paths@, key), needed),
            r.allocate matches Some(capacity) ==> is_next_power_of_two(
                needed as int,
                capacity as int,
            ),
            r.upload == path_upload(known_path(old(self).paths@, key), needed, generation),
            final(self).paths@ == old(self).paths@.insert(
                key,
                VehiclePath {
                    capacity: match r.allocate {
                        Some(capacity) => capacity,
                        None => old(self).paths@[key].capacity,
                    },
                    count: needed,
                    generation,
                },
            ),
            needed <= final(self).paths@[key].capacity,
    {
        let known = match self.paths.get(&key) {
            Some(path) => Some(*path),
            None => None,
        };
        let (allocate, upload, capacity) = match known {
            Some(path) => {
                let grow = needed > path.capacity;
                let whole = grow || path.generation != generation || needed < path.count;
                let upload = if whole {
                    if needed > 0 {
                        PathUpload::Whole
                    } else {
                        PathUpload::Nothing
                    }
                } else if needed > path.count {
                    PathUpload::Tail(path.count)
                } else {
                    PathUpload::Nothing
                };
                if grow {
                    let capacity = next_power_of_two(needed);
                    (Some(capacity), upload, capacity)
                } else {
                    (None, upload, path.capacity)
                }
            },
            None => {
                let capacity = next_power_of_two(needed);
                let upload = if needed > 0 {
                    PathUpload::Whole
                } else {
                    PathUpload::Nothing
                };
                (Some(capacity), upload, capacity)
            },
        };
        self.paths.insert(key, VehiclePath { capacity, count: needed, generation });
        VehiclePlan { allocate, upload }
    }

    /// How many points of a path are drawn: those that are visible, but no more
    /// than are resident; `None` for an unknown vehicle.
    pub fn drawn_points(&self, key: u32, visible_count: u32) -> (r: Option<u32>)
        ensures
            r == match known_path(self.paths@, key) {
                Some(path) => Some(
                    if visible_count <= path.count {
                        visible_count
                    } else {
                        path.count
                    },
                ),
                None => None,
            },
    {
        match self.paths.get(&key) {
            Some(path) => Some(
                if visible_count <= path.count {
                    visible_count
                } else {
                    path.count
                },
            ),
            None => None,
        }
    }
}

/// A path that has not changed is not uploaded again, and one that has grown
/// within its buffer uploads its tail alone.
pub proof fn paths_upload_only_what_is_new(path: VehiclePath, needed: u32)
    requires
        path.count <= path.capacity,
        path.count <= needed <= path.capacity,
    ensures
        path_upload(Some(path), needed, path.generation) == if needed == path.count {
            PathUpload::Nothing
        } else {
            PathUpload::Tail(path.count)
        },
{
}

/// The points of a path on the card after an upload, where `known` were there.
pub open spec fn uploaded<P>(known: Seq<P>, upload: PathUpload, points: Seq<P>) -> Seq<P> {
    match upload {
        PathUpload::Nothing => known,
        PathUpload::Whole => points,
        PathUpload::Tail(start) => known.take(start as int) + points.skip(start as int),
    }
}

/// What is drawn of a path is the path: after each upload the points on the
/// card are its points, as long as a path of one generation only grows.
pub proof fn resident_paths_are_current<P>(
    path: Option<VehiclePath>,
    known: Seq<P>,
    points: Seq<P>,
    generation: u64,
)
    requires
        points.len() <= u32::MAX,
        path matches Some(p) ==> p.count == known.len() && (p.generation == generation && p.count
            <= points.len() ==> points.take(p.count as int) == known),
    ensures
        uploaded(known, path_upload(path, points.len() as u32, generation), points).take(
            points.len() as int,
        ) == points,
{
    let upload = path_upload(path, points.len() as u32, generation);
    match upload {
        PathUpload::Nothing => {
            if points.len() > 0 {
                assert(points.take(points.len() as int) =~= points);
                assert(known.take(points.len() as int) =~= points);
            }
        },
        PathUpload::Whole => {
            assert(points.take(points.len() as int) =~= points);
        },
        PathUpload::Tail(start) => {
            assert(known =~= points.take(start as int));
            assert(known.take(start as int) + points.skip(start as int) =~= points);
        },
    }
    assert(uploaded(known, upload, points).take(points.len() as int) =~= points);
}

/// A step of drawing the 3D scene.
#[derive(Clone, Copy, Debug, PartialEq, Eq, Structural)]
pub enum SceneStep {
    MapTiles,
    Grid,
    Axes,
    Vehicles,
}

/// The steps of the scene pass: map tiles below the grid, the grid below the
/// axes, and the vehicles on top.
pub open spec fn scene_steps(show_grid: bool, show_axes: bool) -> Seq<SceneStep> {
    seq![SceneStep::MapTiles] + (if show_grid {
        seq![SceneStep::Grid]
    } else {
        Seq::empty()
    }) + (if show_axes {
        seq![SceneStep::Axes]
    } else {
        Seq::empty()
    }) + seq![SceneStep::Vehicles]
}

/// The steps of the scene pass.
pub fn scene_pass(show_grid: bool, show_axes: bool) -> (r: Vec<SceneStep>)
    ensures
        r@ == scene_steps(show_grid, show_axes),
{
    let mut steps: Vec<SceneStep> = Vec::new();
    steps.push(SceneStep::MapTiles);
    if show_grid {
        steps.push(SceneStep::Grid);
    }
    if show_axes {
        steps.push(SceneStep::Axes);
    }
    steps.push(SceneStep::Vehicles);
    proof {
        assert(steps@ =~= scene_steps(show_grid, show_axes));
    }
    steps
}

/// What happens to the texture that shows the scene.
#[derive(Clone, Copy, Debug, PartialEq, Eq, Structural)]
pub enum TextureStep {
    /// Nothing: it shows the render target already.
    Keep(u64),
    /// It is pointed at the render target of the new size.
    Update(u64),
    /// One is registered.
    Register,
}

/// What happens to the texture of a scene of the given size in pixels.
pub fn texture_step(target: [u32; 2], wanted: [u32; 2], existing: Option<u64>) -> (r: TextureStep)
    ensures
        r == match existing {
            Some(id) => if target[0] != wanted[0] || target[1] != wanted[1] {
                TextureStep::Update(id)
            } else {
                TextureStep::Keep(id)
            },
            None => TextureStep::Register,
        },
{
    match existing {
        Some(id) => {
            if target[0] != wanted[0] || target[1] != wanted[1] {
                TextureStep::Update(id)
            } else {
                TextureStep::Keep(id)
            }
        },
        None => TextureStep::Register,
    }
}

} // verus!
