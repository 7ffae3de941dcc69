use delog_app::gpu::{
    intersect_scissor_rect, line_window_xy, pad_window, paint_steps, pane_items, pipeline_runs,
    scene_pass, texture_step, ColKey, DrawItem, DrawKind, GpuBridge, GpuSummary, PaintStep,
    PaneTrace, PathUpload, PipelineKind, PlannedTrace, PlotResidency, RenderTarget, SceneStep, TextureStep,
    TraceMode, TracePlan, TraceView, VehiclePaths,
};

#[test]
fn pad_window_adds_one_sample_of_context_each_side() {
    assert_eq!(pad_window(10, 20, 100), (9, 21));
}

#[test]
fn pad_window_clamps_at_buffer_ends() {
    assert_eq!(pad_window(0, 100, 100), (0, 100)); // both ends clamp
    assert_eq!(pad_window(0, 5, 100), (0, 6)); // low clamps, high pads
    assert_eq!(pad_window(95, 100, 100), (94, 100)); // low pads, high clamps
}

#[test]
fn pad_window_handles_empty() {
    assert_eq!(pad_window(0, 0, 0), (0, 0));
}

#[test]
fn line_window_upload_skips_nan_points_so_finite_samples_connect() {
    let xy: Vec<u32> = [
        0.0,
        10.0, //
        1.0,
        f32::NAN, //
        2.0,
        12.0, //
        3.0,
        f32::INFINITY, //
        4.0,
        14.0,
    ]
    .iter()
    .map(|v: &f32| v.to_bits())
    .collect();

    let line_xy: Vec<f32> = line_window_xy(&xy, 0, 5)
        .into_iter()
        .map(f32::from_bits)
        .collect();

    assert_eq!(line_xy, vec![0.0, 10.0, 2.0, 12.0, 4.0, 14.0]);
    assert!(line_window_xy(&xy, 4, 2).is_empty());
    assert!(line_window_xy(&xy, 9, 12).is_empty());
}

#[test]
fn batching_groups_consecutive_items_into_one_bind_per_pipeline_run() {
    let kinds = [
        DrawKind::Line { samples: 10 },
        DrawKind::Line { samples: 20 },
        DrawKind::Scatter { samples: 5 },
        DrawKind::Line { samples: 7 },
        DrawKind::Columns { count: 100 },
    ];
    let runs = pipeline_runs(&kinds.iter().map(|k| k.pipeline()).collect());
    // Draw order is preserved; each run = exactly one set_pipeline call.
    assert_eq!(runs, vec![
            (PipelineKind::Line, 2),
            (PipelineKind::Scatter, 1),
            (PipelineKind::Line, 1),
            (PipelineKind::Columns, 1)
        ]);
    assert_eq!(pipeline_runs(&Vec::new()), vec![]);
}

#[test]
fn painting_binds_once_per_run_and_draws_every_item() {
    let item = |slot, kind| DrawItem {
        field: 7,
        slot,
        kind,
    };
    let steps = paint_steps(&vec![
        item(0, DrawKind::Line { samples: 10 }),
        item(1, DrawKind::Line { samples: 20 }),
        item(2, DrawKind::Step { samples: 5 }),
    ]);
    assert_eq!(
        steps,
        vec![
            PaintStep::Bind(PipelineKind::Line),
            PaintStep::Draw(0),
            PaintStep::Draw(1),
            PaintStep::Bind(PipelineKind::Step),
            PaintStep::Draw(2),
        ]
    );
}

#[test]
fn scissor_is_viewport_clip_intersection_clamped_to_screen() {
    assert_eq!(
        intersect_scissor_rect((10, 20, 100, 80), (50, 0, 70, 50), [200, 200]),
        Some((50, 20, 60, 30))
    );
    assert_eq!(
        intersect_scissor_rect((-10, -10, 20, 20), (-5, -5, 20, 20), [100, 100]),
        Some((0, 0, 10, 10))
    );
    assert_eq!(
        intersect_scissor_rect((0, 0, 10, 10), (20, 20, 5, 5), [100, 100]),
        None
    );
}

#[test]
fn scissor_rejects_empty_viewports() {
    assert_eq!(
        intersect_scissor_rect((0, 0, 0, 10), (0, 0, 10, 10), [100, 100]),
        None
    );
    assert_eq!(
        intersect_scissor_rect((0, 0, 10, 10), (0, 0, 10, -1), [100, 100]),
        None
    );
}

#[test]
fn scene_pass_encodes_tiles_before_grid_before_vehicle_overlays() {
    let steps = scene_pass(true, true);
    let tiles = steps.iter().position(|s| *s == SceneStep::MapTiles).unwrap();
    let grid = steps.iter().position(|s| *s == SceneStep::Grid).unwrap();
    let vehicles = steps.iter().position(|s| *s == SceneStep::Vehicles).unwrap();
    assert!(tiles < grid && grid < vehicles);
    assert_eq!(
        scene_pass(false, false),
        vec![SceneStep::MapTiles, SceneStep::Vehicles]
    );
    assert_eq!(
        scene_pass(false, true),
        vec![SceneStep::MapTiles, SceneStep::Axes, SceneStep::Vehicles]
    );
}

fn dense(x0: f32, x1: f32) -> TraceView {
    TraceView {
        mode: TraceMode::Line,
        x0: x0.to_bits(),
        x1: x1.to_bits(),
        a: 0,
        b: 5_000,
        samples: 10_000,
        width: Some(640),
        bridge: true,
    }
}

#[test]
fn static_views_are_uploaded_once() {
    let mut plots = PlotResidency::new(8);
    let view = dense(0.0, 1.0);
    assert_eq!(
        plots.plan_trace(3, view),
        TracePlan::Columns {
            width: 640,
            upload: true
        }
    );
    assert_eq!(
        plots.plan_trace(3, view),
        TracePlan::Columns {
            width: 640,
            upload: false
        }
    );
    assert_eq!(
        plots.plan_trace(3, dense(0.0, 2.0)),
        TracePlan::Columns {
            width: 640,
            upload: true
        }
    );
    assert_eq!(
        plots.columns.get(&3),
        Some(&ColKey {
            x0: 0.0f32.to_bits(),
            x1: 2.0f32.to_bits(),
            width: 640,
            bridge: true,
            len: 10_000
        })
    );

    let sparse = TraceView {
        width: None,
        a: 10,
        b: 20,
        samples: 100,
        ..view
    };
    assert_eq!(
        plots.plan_trace(3, sparse),
        TracePlan::Window {
            a: 9,
            b: 21,
            upload: true
        }
    );
    assert_eq!(
        plots.plan_trace(3, sparse),
        TracePlan::Window {
            a: 9,
            b: 21,
            upload: false
        }
    );
    let scatter = TraceView {
        mode: TraceMode::Scatter,
        ..view
    };
    assert_eq!(
        plots.plan_trace(3, scatter),
        TracePlan::Whole { step: false }
    );

    assert_eq!(plots.retain_buffers(&vec![3, 4], &vec![4]), vec![3]);
    assert!(plots.columns.is_empty() && plots.windows.is_empty());
}

#[test]
fn uniform_slots_are_handed_out_in_order_and_the_ring_grows() {
    let mut plots = PlotResidency::new(8);
    assert_eq!(plots.reserve_slots(5), 0);
    assert_eq!(plots.uniform_capacity, 8);
    assert_eq!(plots.reserve_slots(4), 5);
    assert_eq!(plots.uniform_capacity, 16);
    plots.begin_plot_frame();
    assert_eq!(plots.reserve_slots(1), 0);
}

#[test]
fn items_without_enough_samples_are_not_drawn() {
    let window = TracePlan::Window {
        a: 0,
        b: 1,
        upload: true,
    };
    let planned = |field, slot, plan| PlannedTrace { field, slot, plan };
    let items = pane_items(
        &vec![
            planned(1, 10, window),
            planned(1, 12, window),
            planned(2, 13, TracePlan::Whole { step: true }),
            planned(2, 14, TracePlan::Whole { step: false }),
        ],
        &vec![1, 2, 1, 1],
    );
    assert_eq!(
        items,
        vec![
            DrawItem {
                field: 1,
                slot: 12,
                kind: DrawKind::Line { samples: 2 }
            },
            DrawItem {
                field: 2,
                slot: 14,
                kind: DrawKind::Scatter { samples: 1 }
            }
        ]
    );
}

#[test]
fn visible_traces_take_slots_even_without_samples() {
    let mut plots = PlotResidency::new(4);
    assert_eq!(plots.reserve_slots(3), 0);
    let view = TraceView {
        mode: TraceMode::Line,
        x0: 0,
        x1: 1,
        a: 2,
        b: 5,
        samples: 9,
        width: None,
        bridge: false,
    };
    let trace = |field, visible, view| PaneTrace {
        field,
        visible,
        view,
    };
    let planned = plots.plan_pane(&vec![
        trace(7, true, None),
        trace(8, false, Some(view)),
        trace(9, true, Some(view)),
        trace(9, true, Some(view)),
    ]);
    let window = |upload| TracePlan::Window { a: 1, b: 6, upload };
    assert_eq!(
        planned,
        vec![
            PlannedTrace {
                field: 9,
                slot: 4,
                plan: window(true)
            },
            PlannedTrace {
                field: 9,
                slot: 5,
                plan: window(false)
            }
        ]
    );
    assert_eq!(plots.next_uniform_slot, 7);
    assert_eq!(plots.uniform_capacity, 8);
}

#[test]
fn vehicle_paths_upload_tails_until_the_generation_changes() {
    let mut paths = VehiclePaths::new();
    let first = paths.prepare_vehicle(1, 3, 7);
    assert_eq!(first.allocate, Some(4));
    assert_eq!(first.upload, PathUpload::Whole);

    let same = paths.prepare_vehicle(1, 3, 7);
    assert_eq!(same.allocate, None);
    assert_eq!(same.upload, PathUpload::Nothing);

    let grown = paths.prepare_vehicle(1, 4, 7);
    assert_eq!(grown.allocate, None);
    assert_eq!(grown.upload, PathUpload::Tail(3));

    let beyond = paths.prepare_vehicle(1, 5, 7);
    assert_eq!(beyond.allocate, Some(8));
    assert_eq!(beyond.upload, PathUpload::Whole);

    let changed = paths.prepare_vehicle(1, 5, 8);
    assert_eq!(changed.allocate, None);
    assert_eq!(changed.upload, PathUpload::Whole);

    assert_eq!(paths.drawn_points(1, 3), Some(3));
    assert_eq!(paths.drawn_points(1, 30), Some(5));
    assert_eq!(paths.drawn_points(2, 3), None);
    assert_eq!(paths.prepare_vehicle(2, 0, 1).upload, PathUpload::Nothing);
}

#[test]
fn summaries_add_up_and_saturate() {
    let bridge = GpuBridge {
        available: true,
        srgb_target: false,
    };
    assert!(bridge.is_available());
    let pool = |buffer_count, gpu_bytes| GpuSummary {
        buffer_count,
        gpu_bytes,
    };
    assert_eq!(
        bridge.summary([pool(1, 10), pool(2, 20), pool(3, 30)]),
        pool(6, 60)
    );
    assert_eq!(bridge.field_gpu_bytes([u64::MAX, 1, 1]), u64::MAX);
    let none = GpuBridge {
        available: false,
        srgb_target: false,
    };
    assert_eq!(none.summary([pool(1, 10), pool(2, 20), pool(3, 30)]), pool(0, 0));
    assert_eq!(none.field_gpu_bytes([1, 2, 3]), 0);
}

#[test]
fn textures_follow_the_render_target() {
    assert_eq!(texture_step([4, 4], [4, 4], None), TextureStep::Register);
    assert_eq!(texture_step([4, 4], [4, 4], Some(9)), TextureStep::Keep(9));
    assert_eq!(texture_step([4, 4], [4, 5], Some(9)), TextureStep::Update(9));
}

#[test]
fn the_bridge_is_available_with_a_render_target() {
    assert!(!GpuBridge::from_creation_context(None).is_available());
    let bridge = GpuBridge::from_creation_context(Some(RenderTarget { is_srgb: true }));
    assert!(bridge.is_available() && bridge.srgb_target);
}
