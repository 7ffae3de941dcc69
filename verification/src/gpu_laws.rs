//! What holds of everything that is drawn.

use crate::gpu::{
    column_key, common_rect, drawable, drawn_as, finite_points, is_finite_bits, items_of, painting,
    pane_state, pipeline_of, scene_steps, stale_fields, trace_plan, window_key, ColKey, DrawItem,
    DrawKind, PaintStep, PaneTrace, PipelineKind, PlannedTrace, SceneStep, TracePlan, TraceView,
    WinKey,
};
use vstd::prelude::*;

verus! {

/// A trace is drawn in the mode of its view: steps as steps, dots as dots, and a
/// line as one column for each pixel where it is decimated and as a line where
/// it is not.
pub proof fn traces_are_drawn_in_their_mode(
    columns: Map<u32, ColKey>,
    windows: Map<u32, WinKey>,
    field: u32,
    view: TraceView,
    resident: u32,
)
    ensures
        ({
            let kind = drawn_as(trace_plan(columns, windows, field, view), resident);
            &&& kind is Step <==> view.mode is Step
            &&& kind is Scatter <==> view.mode is Scatter
            &&& kind is Columns <==> view.mode is Line && view.width is Some
            &&& kind is Line <==> view.mode is Line && view.width is None
            &&& kind matches DrawKind::Step { samples } ==> samples == resident
            &&& kind matches DrawKind::Scatter { samples } ==> samples == resident
            &&& kind matches DrawKind::Line { samples } ==> samples == resident
            &&& kind matches DrawKind::Columns { count } ==> view.width == Some(count)
        }),
{
}

/// Each kind of draw has a pipeline of its own.
pub proof fn kinds_do_not_share_pipelines(a: DrawKind, b: DrawKind)
    ensures
        a is Line ==> pipeline_of(a) is Line,
        a is Scatter ==> pipeline_of(a) is Scatter,
        a is Step ==> pipeline_of(a) is Step,
        a is Columns ==> pipeline_of(a) is Columns,
        pipeline_of(a) == pipeline_of(b) <==> (a is Line && b is Line) || (a is Scatter
            && b is Scatter) || (a is Step && b is Step) || (a is Columns && b is Columns),
{
}

/// A line or a step needs two samples to be seen, a dot or a column one.
pub proof fn enough_samples_are_drawn(kind: DrawKind, n: u32)
    ensures
        drawable(DrawKind::Line { samples: n }) <==> n > 1,
        drawable(DrawKind::Step { samples: n }) <==> n > 1,
        drawable(DrawKind::Scatter { samples: n }) <==> n != 0,
        drawable(DrawKind::Columns { count: n }) <==> n != 0,
{
}

/// Where a view of decimated columns follows another of the same field, columns
/// are uploaded unless the two show the same range over the same samples in the
/// same way.
pub proof fn changed_columns_are_uploaded(
    columns: Map<u32, ColKey>,
    windows: Map<u32, WinKey>,
    field: u32,
    first: TraceView,
    second: TraceView,
)
    requires
        second.mode is Line,
        first.width is Some,
        second.width is Some,
    ensures
        trace_plan(columns.insert(field, column_key(first)), windows, field, second) == (
        TracePlan::Columns {
            width: second.width.unwrap(),
            upload: !(first.x0 == second.x0 && first.x1 == second.x1 && first.width == second.width
                && first.bridge == second.bridge && first.samples == second.samples),
        }),
        !columns.contains_key(field) ==> trace_plan(columns, windows, field, second) == (
        TracePlan::Columns { width: second.width.unwrap(), upload: true }),
{
}

/// The samples that are uploaded for a line hold the visible ones and the
/// neighbour on each side, where there is one.
pub proof fn windows_hold_what_is_visible(
    columns: Map<u32, ColKey>,
    windows: Map<u32, WinKey>,
    field: u32,
    view: TraceView,
    sample: int,
)
    requires
        view.mode is Line,
        view.width is None,
        view.a <= view.b <= view.samples,
        view.samples < usize::MAX,
    ensures
        trace_plan(columns, windows, field, view) matches TracePlan::Window { a, b, .. } && b
            <= view.samples && (0 <= sample < view.samples ==> (a <= sample < b <==> view.a
            <= sample + 1 && sample <= view.b)),
{
}

/// Where a view of a line follows another of the same field, samples are
/// uploaded unless both show the same samples of equally many.
pub proof fn changed_windows_are_uploaded(
    columns: Map<u32, ColKey>,
    windows: Map<u32, WinKey>,
    field: u32,
    first: TraceView,
    second: TraceView,
)
    requires
        second.mode is Line,
        second.width is None,
    ensures
        trace_plan(
            columns,
            windows.insert(field, window_key(first)),
            field,
            second,
        ) matches TracePlan::Window { a, b, upload } && (upload <==> !(window_key(first).a == a
            && window_key(first).b == b && first.samples == second.samples)),
        !windows.contains_key(field) ==> (trace_plan(
            columns,
            windows,
            field,
            second,
        ) matches TracePlan::Window { upload, .. } && upload),
{
}

/// The traces among the first `n` that are visible and whose samples are cached.
pub open spec fn shown(traces: Seq<PaneTrace>, n: nat) -> Seq<PaneTrace> {
    traces.take(n as int).filter(|trace: PaneTrace| trace.visible && trace.view is Some)
}

/// Exactly the visible traces whose samples are cached are planned, in their
/// order, each in the mode of its view.
pub proof fn visible_traces_are_planned(
    columns: Map<u32, ColKey>,
    windows: Map<u32, WinKey>,
    base: int,
    traces: Seq<PaneTrace>,
    n: nat,
)
    requires
        n <= traces.len(),
    ensures
        ({
            let planned = pane_state(columns, windows, base, traces, n).planned;
            let wanted = shown(traces, n);
            &&& planned.len() == wanted.len()
            &&& forall|i: int|
                #![trigger planned[i]]
                0 <= i < planned.len() ==> {
                    let mode = wanted[i].view.unwrap().mode;
                    &&& planned[i].field == wanted[i].field
                    &&& planned[i].plan == TracePlan::Whole { step: true } <==> mode is Step
                    &&& planned[i].plan == TracePlan::Whole { step: false } <==> mode is Scatter
                    &&& planned[i].plan is Columns <==> mode is Line
                        && wanted[i].view.unwrap().width is Some
                }
        }),
    decreases n,
{
    let test = |trace: PaneTrace| trace.visible && trace.view is Some;
    reveal(Seq::filter);
    if n > 0 {
        visible_traces_are_planned(columns, windows, base, traces, (n - 1) as nat);
        assert(traces.take(n as int).drop_last() =~= traces.take(n - 1));
        assert(traces.take(n as int).last() == traces[n - 1]);
        let before = shown(traces, (n - 1) as nat);
        assert(shown(traces, n) == if test(traces[n - 1]) {
            before.push(traces[n - 1])
        } else {
            before
        });
    } else {
        assert(traces.take(0) =~= Seq::<PaneTrace>::empty());
    }
}

/// How many of the first `n` planned traces have enough to draw.
pub open spec fn drawn_before(planned: Seq<PlannedTrace>, resident: Seq<u32>, n: int) -> nat
    decreases n,
{
    if n <= 0 {
        0
    } else {
        drawn_before(planned, resident, n - 1) + if drawable(
            drawn_as(planned[n - 1].plan, resident[n - 1]),
        ) {
            1nat
        } else {
            0nat
        }
    }
}

/// Each planned trace of which there is enough is drawn once, with its own field,
/// uniform and samples, behind those that were planned before it.
pub proof fn planned_traces_are_drawn_in_order(
    planned: Seq<PlannedTrace>,
    resident: Seq<u32>,
    n: nat,
)
    requires
        n <= planned.len(),
        planned.len() == resident.len(),
    ensures
        items_of(planned, resident, n).len() == drawn_before(planned, resident, n as int),
        forall|i: int|
            #![trigger planned[i]]
            0 <= i < n && drawable(drawn_as(planned[i].plan, resident[i])) ==> {
                let item = items_of(planned, resident, n)[drawn_before(
                    planned,
                    resident,
                    i,
                ) as int];
                &&& drawn_before(planned, resident, i) < items_of(planned, resident, n).len()
                &&& item.field == planned[i].field
                &&& item.slot == planned[i].slot
                &&& item.kind == drawn_as(planned[i].plan, resident[i])
            },
    decreases n,
{
    if n > 0 {
        planned_traces_are_drawn_in_order(planned, resident, (n - 1) as nat);
    }
}

/// A number is finite unless all bits of its exponent are set.
pub proof fn infinities_are_not_finite(bits: u32)
    ensures
        is_finite_bits(bits) <==> bits & 0x7f80_0000 != 0x7f80_0000,
{
    assert((bits / 0x80_0000u32) % 0x100u32 != 0xffu32 <==> bits & 0x7f80_0000 != 0x7f80_0000)
        by (bit_vector);
}

/// How many samples of `[a, i)` are finite in both coordinates.
pub open spec fn finite_before(xy: Seq<u32>, a: int, i: int) -> nat
    decreases i - a,
{
    if i <= a {
        0
    } else {
        finite_before(xy, a, i - 1) + if is_finite_bits(xy[2 * i - 2]) && is_finite_bits(
            xy[2 * i - 1],
        ) {
            1nat
        } else {
            0nat
        }
    }
}

/// The points of a line are the finite samples, each with its own two
/// coordinates, in their order, and no others.
pub proof fn lines_follow_the_finite_samples(xy: Seq<u32>, a: int, b: int)
    requires
        0 <= a <= b,
        2 * b <= xy.len(),
    ensures
        finite_points(xy, a, b).len() == 2 * finite_before(xy, a, b),
        forall|i: int|
            a <= i < b && is_finite_bits(xy[2 * i]) && is_finite_bits(xy[2 * i + 1]) ==> {
                let at = #[trigger] finite_before(xy, a, i);
                &&& at < finite_before(xy, a, b)
                &&& finite_points(xy, a, b)[2 * at as int] == xy[2 * i]
                &&& finite_points(xy, a, b)[2 * at as int + 1] == xy[2 * i + 1]
            },
    decreases b - a,
{
    if a < b {
        lines_follow_the_finite_samples(xy, a, b - 1);
    }
}

/// Whether a pipeline is bound when the step at `k` is taken: the last switch
/// before it was to that one.
pub open spec fn is_bound(steps: Seq<PaintStep>, k: int, pipeline: PipelineKind) -> bool {
    exists|j: int|
        0 <= j < k && #[trigger] steps[j] == PaintStep::Bind(pipeline) && forall|m: int|
            j < m < k ==> !(#[trigger] steps[m] is Bind)
}

/// How often a pane has drawn before the step at `k`.
pub open spec fn draws_before(steps: Seq<PaintStep>, k: int) -> nat
    decreases k,
{
    if k <= 0 {
        0
    } else {
        draws_before(steps, k - 1) + if steps[k - 1] is Draw {
            1nat
        } else {
            0nat
        }
    }
}

proof fn lemma_draws_prefix(a: Seq<PaintStep>, b: Seq<PaintStep>, k: int)
    requires
        0 <= k <= a.len(),
        a.len() <= b.len(),
        forall|i: int| 0 <= i < a.len() ==> a[i] == b[i],
    ensures
        draws_before(a, k) == draws_before(b, k),
    decreases k,
{
    if k > 0 {
        lemma_draws_prefix(a, b, k - 1);
        assert(a[k - 1] == b[k - 1]);
    }
}

proof fn lemma_bound_prefix(a: Seq<PaintStep>, b: Seq<PaintStep>, k: int, pipeline: PipelineKind)
    requires
        0 <= k <= a.len(),
        a.len() <= b.len(),
        forall|i: int| 0 <= i < a.len() ==> a[i] == b[i],
        is_bound(a, k, pipeline),
    ensures
        is_bound(b, k, pipeline),
{
    let j = choose|j: int|
        0 <= j < k && #[trigger] a[j] == PaintStep::Bind(pipeline) && forall|m: int|
            j < m < k ==> !(#[trigger] a[m] is Bind);
    assert(b[j] == PaintStep::Bind(pipeline));
    assert forall|m: int| j < m < k implies !(#[trigger] b[m] is Bind) by {
        assert(!(a[m] is Bind));
    }
}

/// A pane draws all its items, each once and in order, and each with its own
/// pipeline bound.
pub proof fn items_are_painted_with_their_pipeline(items: Seq<DrawItem>, n: nat)
    requires
        n <= items.len(),
        items.len() <= usize::MAX,
    ensures
        ({
            let steps = painting(items, n);
            &&& draws_before(steps, steps.len() as int) == n
            &&& forall|k: int|
                #![trigger steps[k]]
                0 <= k < steps.len() ==> (steps[k] matches PaintStep::Draw(i) ==> i
                    == draws_before(steps, k) && i < n && is_bound(
                    steps,
                    k,
                    pipeline_of(items[i as int].kind),
                ))
            &&& n > 0 ==> steps.len() > 0 && steps.last() == PaintStep::Draw((n - 1) as usize)
        }),
    decreases n,
{
    if n > 0 {
        items_are_painted_with_their_pipeline(items, (n - 1) as nat);
        let before = painting(items, (n - 1) as nat);
        let steps = painting(items, n);
        let kind = pipeline_of(items[n - 1].kind);
        let last = steps.len() - 1;
        assert forall|i: int| 0 <= i < before.len() implies before[i] == steps[i] by {}
        lemma_draws_prefix(before, steps, before.len() as int);
        assert(draws_before(steps, before.len() as int) == n - 1);
        assert(draws_before(steps, last) == n - 1);
        assert(is_bound(steps, last, kind)) by {
            if n == 1 || pipeline_of(items[n - 2].kind) != kind {
                assert(steps[before.len() as int] == PaintStep::Bind(kind));
            } else {
                let p = before.len() - 1;
                assert(before[p] == PaintStep::Draw((n - 2) as usize));
                assert(is_bound(before, p, kind));
                lemma_bound_prefix(before, steps, p, kind);
                let j = choose|j: int|
                    0 <= j < p && #[trigger] steps[j] == PaintStep::Bind(kind) && forall|m: int|
                        j < m < p ==> !(#[trigger] steps[m] is Bind);
                assert(steps[p] is Draw);
                assert forall|m: int| j < m < last implies !(#[trigger] steps[m] is Bind) by {}
            }
        }
        assert forall|k: int|
            #![trigger steps[k]]
            0 <= k < steps.len() implies (steps[k] matches PaintStep::Draw(i) ==> i
            == draws_before(steps, k) && i < n && is_bound(
            steps,
            k,
            pipeline_of(items[i as int].kind),
        )) by {
            if k < before.len() {
                assert(before[k] == steps[k]);
                lemma_draws_prefix(before, steps, k);
                if let PaintStep::Draw(i) = steps[k] {
                    lemma_bound_prefix(before, steps, k, pipeline_of(items[i as int].kind));
                }
            }
        }
    }
}

/// Whether a rectangle, as left, top, width and height, covers a pixel.
pub open spec fn covers_pixel(rect: (int, int, int, int), x: int, y: int) -> bool {
    rect.0 <= x < rect.0 + rect.2 && rect.1 <= y < rect.1 + rect.3
}

/// A pane may paint exactly the pixels of the screen that lie both in its
/// viewport and in its clip rectangle.
pub proof fn panes_paint_what_is_not_clipped(
    viewport: (i32, i32, i32, i32),
    clip: (i32, i32, i32, i32),
    screen: [u32; 2],
    x: int,
    y: int,
)
    requires
        screen[0] <= i32::MAX,
        screen[1] <= i32::MAX,
    ensures
        ({
            let allowed = covers_pixel(
                (viewport.0 as int, viewport.1 as int, viewport.2 as int, viewport.3 as int),
                x,
                y,
            ) && covers_pixel(
                (clip.0 as int, clip.1 as int, clip.2 as int, clip.3 as int),
                x,
                y,
            ) && 0 <= x < screen[0] && 0 <= y < screen[1];
            match common_rect(viewport, clip, screen) {
                Some(r) => allowed == covers_pixel(
                    (r.0 as int, r.1 as int, r.2 as int, r.3 as int),
                    x,
                    y,
                ),
                None => !allowed,
            }
        }),
{
}

/// A field is given up exactly where it is resident and no longer plotted.
pub proof fn only_unplotted_fields_are_given_up(
    resident: Seq<u32>,
    plotted: Seq<u32>,
    n: nat,
    field: u32,
)
    requires
        n <= resident.len(),
    ensures
        stale_fields(resident, plotted, n).contains(field) <==> resident.take(n as int).contains(
            field,
        ) && !plotted.contains(field),
    decreases n,
{
    let all = resident.take(n as int);
    if n > 0 {
        only_unplotted_fields_are_given_up(resident, plotted, (n - 1) as nat, field);
        let rest = stale_fields(resident, plotted, (n - 1) as nat);
        let stale = stale_fields(resident, plotted, n);
        let short = resident.take(n - 1);
        assert(all =~= short.push(resident[n - 1]));
        if short.contains(field) {
            assert(all[short.index_of(field)] == field);
        }
        assert(all[n - 1] == resident[n - 1]);
        if rest.contains(field) {
            assert(stale[rest.index_of(field)] == field);
        }
        if !plotted.contains(resident[n - 1]) {
            assert(stale[stale.len() - 1] == resident[n - 1]);
        }
        if all.contains(field) && !short.contains(field) {
            assert(resident[n - 1] == field) by {
                let i = all.index_of(field);
                if i < n - 1 {
                    assert(short[i] == field);
                }
            }
        }
    }
}

/// The scene is drawn from below: map tiles, the grid, the axes and the vehicles,
/// each at most once; the grid and the axes where they are shown.
pub proof fn scenes_are_drawn_from_below(show_grid: bool, show_axes: bool)
    ensures
        ({
            let steps = scene_steps(show_grid, show_axes);
            let count = steps.len();
            &&& count >= 2
            &&& steps[0] is MapTiles
            &&& steps[count - 1] is Vehicles
            &&& show_grid <==> steps.contains(SceneStep::Grid)
            &&& show_axes <==> steps.contains(SceneStep::Axes)
            &&& forall|i: int, j: int|
                0 <= i < count && 0 <= j < count && (#[trigger] steps[i]) is Grid && (
                #[trigger] steps[j]) is Axes ==> i < j
            &&& steps.no_duplicates()
        }),
{
    let steps = scene_steps(show_grid, show_axes);
    if show_grid {
        assert(steps[1] is Grid);
        if show_axes {
            assert(steps[2] is Axes);
        }
    } else if show_axes {
        assert(steps[1] is Axes);
    }
}

} // verus!
