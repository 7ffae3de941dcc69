use delog_app::calendar::{civil_from_days, format_iso8601_utc};
use delog_app::diagnostics::{
    byte_text, filtered_records, origins, severity_color, severity_filter_label, severity_label,
    Diag, DiagRecord, DiagnosticsDock, Severity,
};
use delog_app::field_stats::{
    FieldStats, FieldStatsController, Launch, RequestStep, StatsRequestKey, StatsTab, LRU_CAPACITY,
};
use delog_app::generate_markers::{
    generate_markers_window, value_hash, GenerateMarkersDialog, TransitionsError, ValueGroup,
};
use delog_app::hover::{
    delta_text, field_meta, marker_deltas, readout_line, sampled_rows, Sample, TraceDelta,
};
use delog_app::layers::descendant_layers;
use delog_app::layout_doc::{GhostTrace, TraceRef};
use delog_app::gpu::TraceMode;
use delog_app::legend::{
    apply_filter_edits, apply_legend_edits, ghost_label, legend_anchor, shows_legend, trace_label,
    LegendEdit, LegendPosition,
};
use delog_app::live::{
    host_label, parse_unsigned, recording_filename, ConnectionDialog, Endpoint, EndpointKind,
    LiveConnectionMode, LiveConnectionSettings,
};
use delog_app::snapshot::{
    Column, FieldId, FieldInfo, SourceId, SourceInfo, StoreSnapshot, TopicData, TopicId, TopicInfo,
};

fn diag(severity: Severity, code: &str, message: &str) -> Diag {
    Diag {
        severity,
        code: code.to_owned(),
        message: message.to_owned(),
        source: None,
        time_us: None,
        byte_offset: None,
    }
}

#[test]
fn filters_by_severity_origin_and_search() {
    let snapshot = StoreSnapshot::empty();
    let records = vec![
        DiagRecord {
            seq: 0,
            diag: diag(Severity::Info, "layout-bind", "bound traces"),
            count: 1,
        },
        DiagRecord {
            seq: 1,
            diag: diag(Severity::Error, "gpu", "validation failed"),
            count: 2,
        },
    ];

    let filtered = filtered_records(&records, &snapshot, Severity::Warning, "", "validation");
    assert_eq!(filtered.len(), 1);
    assert_eq!(filtered[0].record.diag.code, "gpu");

    let filtered = filtered_records(&records, &snapshot, Severity::Info, "layout-bind", "");
    assert_eq!(filtered.len(), 1);
    assert_eq!(filtered[0].record.diag.code, "layout-bind");
    assert_eq!(origins(&records, &snapshot).len(), 2);
}

fn test_stats(min: f64) -> FieldStats {
    FieldStats {
        min: min.to_bits(),
        max: min.to_bits(),
        mean: min.to_bits(),
        stddev: 0f64.to_bits(),
        count: 1,
        missing_count: 0,
        rate_hz: None,
    }
}

#[test]
fn open_captures_fields_in_order_and_resets_to_visible_tab() {
    let mut controller: FieldStatsController<()> = FieldStatsController::new();
    let fields = vec![FieldId(4), FieldId(2)];

    controller.set_tab(StatsTab::Global);
    controller.open_fields(fields.clone());

    assert_eq!(controller.fields(), &fields);
    assert_eq!(controller.tab(), StatsTab::Visible);
}

#[test]
fn a_new_range_coalesces_all_pending_fields_into_one_batch() {
    let mut controller: FieldStatsController<()> = FieldStatsController::new();
    let fields = vec![FieldId(1), FieldId(2)];
    controller.open_fields(fields.clone());
    controller.running = Some(vec![
        StatsRequestKey::new(fields[0], 1, 0, 10),
        StatsRequestKey::new(fields[1], 1, 0, 10),
    ]);

    controller.request_all(1, 10, 20, (), 0);

    let pending = &controller.pending.as_ref().unwrap().keys;
    assert_eq!(pending.len(), 2);
    assert!(pending.iter().all(|key| key.t0_us == 10 && key.t1_us == 20));
}

#[test]
fn stale_results_never_replace_current_results_for_either_field() {
    let mut controller: FieldStatsController<()> = FieldStatsController::new();
    let first = FieldId(2);
    let second = FieldId(3);
    controller.open_fields(vec![first, second]);
    controller.current = vec![StatsRequestKey::new(first, 3, 0, 10)];
    controller.accept(StatsRequestKey::new(first, 3, 0, 10), test_stats(1.0));
    controller.current = vec![
        StatsRequestKey::new(first, 4, 10, 20),
        StatsRequestKey::new(second, 4, 10, 20),
    ];

    controller.accept(StatsRequestKey::new(second, 4, 10, 20), test_stats(2.0));

    assert!(controller.result_for(first).is_none());
    assert_eq!(controller.result_for(second).unwrap().min, 2f64.to_bits());
    assert_eq!(controller.stale_result_for(first).unwrap().min, 1f64.to_bits());
    assert!(controller.result().is_none());
    assert_eq!(controller.stale_result().unwrap().min, 1f64.to_bits());
    assert!(controller.error().is_none());
    assert!(!controller.is_updating());
    assert!(!controller.is_any_updating());
}

#[test]
fn recent_results_are_lru_bounded() {
    let mut controller: FieldStatsController<()> = FieldStatsController::new();
    let field = FieldId(1);
    for epoch in 0..=LRU_CAPACITY as u64 {
        controller.accept(
            StatsRequestKey::new(field, epoch, 0, 10),
            test_stats(epoch as f64),
        );
    }
    assert_eq!(controller.recent.len(), LRU_CAPACITY);
    assert!(controller.recent.iter().all(|(key, _)| key.epoch != 0));
}

#[test]
fn close_discards_all_captured_and_displayed_state() {
    let mut controller: FieldStatsController<()> = FieldStatsController::new();
    let field = FieldId(1);
    controller.open_fields(vec![field]);
    controller.current = vec![StatsRequestKey::new(field, 8, 0, 10)];
    controller.displayed.insert(
        field.0,
        (StatsRequestKey::new(field, 8, 0, 10), test_stats(8.0)),
    );
    controller.pending = Some(Launch {
        keys: vec![StatsRequestKey::new(field, 9, 0, 10)],
        snapshot: (),
    });

    controller.close();

    assert!(controller.fields().is_empty());
    assert!(controller.result_for(field).is_none());
    assert!(controller.pending.is_none());
}

#[test]
fn launch_rate_is_capped_at_ten_hz() {
    let mut controller: FieldStatsController<()> = FieldStatsController::new();
    let field = FieldId(1);
    controller.open_fields(vec![field]);
    let key = StatsRequestKey::new(field, 1, 0, 10);
    controller.pending = Some(Launch {
        keys: vec![key],
        snapshot: (),
    });
    let now = 5_000_000;
    controller.last_launch = Some(now);
    controller.maybe_launch(now + 99_000);
    assert!(controller.running.is_none());
    assert!(controller.pending.is_some());
    controller.maybe_launch(now + 100_000);
    assert_eq!(controller.running, Some(vec![key]));
    assert!(controller.pending.is_none());
}

#[test]
fn one_key_is_asked_for_once() {
    let mut controller: FieldStatsController<()> = FieldStatsController::new();
    let field = FieldId(1);
    controller.open(field);
    let key = StatsRequestKey::new(field, 1, 0, 10);
    match controller.request(key, (), 0) {
        RequestStep::Launched(Some(launch)) => assert_eq!(launch.keys, vec![key]),
        _ => panic!("expected a launch"),
    }
    assert!(controller.is_updating());
    assert!(controller.is_any_updating());
    assert!(matches!(controller.request(key, (), 1), RequestStep::Poll));
}

fn dialog(kind: EndpointKind) -> ConnectionDialog {
    ConnectionDialog {
        kind,
        host: "127.0.0.1".to_owned(),
        port: "14550".to_owned(),
        serial_path: "/dev/ttyUSB0".to_owned(),
        baud: "57600".to_owned(),
        recording_enabled: false,
        recording_dir: String::new(),
        error: None,
    }
}

fn endpoint(dialog: &ConnectionDialog) -> Result<Endpoint, String> {
    let literal = ["127.0.0.1", "192.168.1.20", "::1"].contains(&dialog.host.trim());
    dialog.endpoint(literal)
}

#[test]
fn builds_network_endpoint_for_each_mode() {
    match endpoint(&dialog(EndpointKind::UdpServer)).unwrap() {
        Endpoint::UdpServer { ip, port } => assert_eq!((ip.as_str(), port), ("127.0.0.1", 14550)),
        other => panic!("unexpected {other:?}"),
    }
    match endpoint(&dialog(EndpointKind::TcpClient)).unwrap() {
        Endpoint::TcpClient { ip, port } => assert_eq!((ip.as_str(), port), ("127.0.0.1", 14550)),
        other => panic!("unexpected {other:?}"),
    }
}

#[test]
fn builds_serial_endpoint() {
    match endpoint(&dialog(EndpointKind::Serial)).unwrap() {
        Endpoint::Serial { path, baud } => {
            assert_eq!((path.as_str(), baud), ("/dev/ttyUSB0", 57_600))
        }
        other => panic!("unexpected {other:?}"),
    }
}

#[test]
fn reports_invalid_address_and_baud() {
    let mut d = dialog(EndpointKind::TcpClient);
    d.host = "localhost".to_owned();
    assert_eq!(endpoint(&d).unwrap_err(), "address must be an IP literal");

    let mut d = dialog(EndpointKind::Serial);
    d.baud = "fast".to_owned();
    assert_eq!(endpoint(&d).unwrap_err(), "baud must be a positive integer");

    let mut d = dialog(EndpointKind::UdpServer);
    d.port = "65536".to_owned();
    assert_eq!(endpoint(&d).unwrap_err(), "port must be 0-65535");
}

#[test]
fn restores_endpoint_from_last_live_connection_settings() {
    let settings = LiveConnectionSettings {
        mode: LiveConnectionMode::TcpClient,
        host: "192.168.1.20".to_owned(),
        port: 5760,
        serial_path: "/dev/ttyUSB0".to_owned(),
        baud: 921_600,
        recording_enabled: true,
        recording_dir: "/tmp/logs".to_owned(),
    };

    let dialog = ConnectionDialog::from_settings(&settings);
    match endpoint(&dialog).unwrap() {
        Endpoint::TcpClient { ip, port } => assert_eq!((ip.as_str(), port), ("192.168.1.20", 5760)),
        other => panic!("unexpected {other:?}"),
    }
    let back = dialog.to_settings();
    assert_eq!(back.mode, settings.mode);
    assert_eq!(back.host, settings.host);
    assert_eq!(back.port, settings.port);
    assert_eq!(back.serial_path, settings.serial_path);
    assert_eq!(back.baud, settings.baud);
    assert_eq!(back.recording_enabled, settings.recording_enabled);
    assert_eq!(back.recording_dir, settings.recording_dir);
    assert_eq!(
        dialog.recording_path_at(1_781_369_696_000_000).unwrap(),
        Some(std::path::PathBuf::from(
            "/tmp/logs/delog-live-2026-06-13_16-54-56.tlog"
        ))
    );
}

#[test]
fn recording_folder_is_optional_until_recording_is_enabled() {
    let mut dialog = dialog(EndpointKind::UdpServer);
    assert_eq!(dialog.recording_path_at(0).unwrap(), None);

    dialog.recording_enabled = true;
    assert_eq!(
        dialog.recording_path_at(0).unwrap_err(),
        "recording folder is required"
    );

    dialog.recording_dir = "/tmp/logs".to_owned();
    assert_eq!(
        dialog.recording_path_at(0).unwrap(),
        Some(std::path::PathBuf::from(
            "/tmp/logs/delog-live-1970-01-01_00-00-00.tlog"
        ))
    );
}

#[test]
fn numbers_are_read_with_a_plus_sign_and_without() {
    assert_eq!(parse_unsigned("65535", 65535), Some(65535));
    assert_eq!(parse_unsigned("+0007", 65535), Some(7));
    assert_eq!(parse_unsigned("+", 65535), None);
    assert_eq!(parse_unsigned("", 65535), None);
    assert_eq!(parse_unsigned("-0", 65535), None);
    assert_eq!(parse_unsigned("4294967296", u32::MAX as u64), None);
    assert_eq!(parse_unsigned("99999999999999999999999", u32::MAX as u64), None);
}

#[test]
fn unreadable_numbers_give_way_to_the_usual_ones() {
    let mut d = dialog(EndpointKind::TcpClient);
    d.port = "none".to_owned();
    d.baud = " ".to_owned();
    d.host = " ::1 ".to_owned();
    let settings = d.to_settings();
    assert_eq!(settings.port, 5760);
    assert_eq!(settings.baud, 115_200);
    assert_eq!(settings.host, "::1");
}

#[test]
fn another_kind_swaps_the_port_unless_it_was_chosen() {
    let mut d = ConnectionDialog::with_serial_path("/dev/ttyACM0".to_owned());
    assert_eq!(d.port, "14550");
    d.select_kind(EndpointKind::TcpClient);
    assert_eq!(d.port, "5760");
    d.port = "9000".to_owned();
    d.select_kind(EndpointKind::UdpServer);
    assert_eq!(d.port, "9000");
}

#[test]
fn connecting_needs_an_endpoint_and_a_recording_in_order() {
    let mut d = dialog(EndpointKind::UdpServer);
    d.recording_enabled = true;
    let out = d.connect(endpoint(&d), d.recording_path_at(0));
    assert!(out.is_none());
    assert_eq!(d.error.as_deref(), Some("recording folder is required"));
    d.host = "nowhere".to_owned();
    d.connect(endpoint(&d), d.recording_path_at(0));
    assert_eq!(d.error.as_deref(), Some("address must be an IP literal"));
    d.host = "::1".to_owned();
    d.recording_enabled = false;
    assert!(d.connect(endpoint(&d), d.recording_path_at(0)).is_some());
    assert!(d.error.is_none());
}

#[test]
fn dates_are_those_of_the_calendar() {
    assert_eq!(civil_from_days(0), (1970, 1, 1));
    assert_eq!(civil_from_days(-1), (1969, 12, 31));
    assert_eq!(civil_from_days(19_782), (2024, 2, 29));
    assert_eq!(format_iso8601_utc(1_781_369_696_123_456), "2026-06-13T16:54:56.123Z");
    assert_eq!(format_iso8601_utc(-1), "1969-12-31T23:59:59.999Z");
    assert_eq!(recording_filename(-1), "delog-live-1969-12-31_23-59-59.tlog");
}

fn snapshot() -> StoreSnapshot {
    let mut snapshot = StoreSnapshot::empty();
    snapshot.sources.push(SourceInfo {
        id: SourceId(0),
        label: "flight".to_owned(),
        removed: false,
        offset_us: 0,
        topics: vec![TopicId(0)],
    });
    snapshot.topics.push(TopicInfo {
        id: TopicId(0),
        source: SourceId(0),
        name: "BAT[0]".to_owned(),
        base: "BAT".to_owned(),
        instance: Some(0),
        removed: false,
        data: Some(TopicData {
            rows: 2,
            columns: vec![Column {
                name: "Volt".to_owned(),
                numeric: true,
                unit: Some("V".to_owned()),
                multiplier: 0.01f64.to_bits(),
            }],
        }),
    });
    for (id, topic, name) in [(0, 0, "Volt"), (1, 0, "Curr"), (2, 9, "Lost")] {
        snapshot.fields.push(FieldInfo {
            id: FieldId(id),
            topic: TopicId(topic),
            name: name.to_owned(),
            removed: false,
        });
    }
    snapshot
}

#[test]
fn traces_are_labelled_by_topic_and_field() {
    let snapshot = snapshot();
    assert_eq!(trace_label(&snapshot, FieldId(0)), "BAT[0].Volt");
    assert_eq!(trace_label(&snapshot, FieldId(2)), "Lost");
    assert_eq!(trace_label(&snapshot, FieldId(7)), "field 7");
    let ghost = GhostTrace {
        topic: "ATT".to_owned(),
        field: "Roll".to_owned(),
        color: [0; 4],
        width_px: 0,
        mode: TraceMode::Line,
        visible: true,
    };
    assert_eq!(ghost_label(&ghost), "ATT.Roll (missing)");
    assert!(shows_legend(0, 1) && shows_legend(1, 0) && !shows_legend(0, 0));
}

#[test]
fn legend_anchor_names_the_corner_of_every_position() {
    assert_eq!(legend_anchor(LegendPosition::TopLeft), (false, false));
    assert_eq!(legend_anchor(LegendPosition::TopRight), (true, false));
    assert_eq!(legend_anchor(LegendPosition::BottomLeft), (false, true));
    assert_eq!(legend_anchor(LegendPosition::BottomRight), (true, true));
}

#[test]
fn the_legend_edits_the_trace_of_its_row() {
    let trace = |field| TraceRef {
        field: FieldId(field),
        color: [0; 4],
        width_px: 1,
        mode: TraceMode::Line,
        visible: true,
    };
    let edit = |field| LegendEdit {
        field: FieldId(field),
        color: None,
        toggled: false,
        mode: None,
        width_px: None,
        filter: None,
        removed: false,
    };
    let mut traces = vec![trace(4), trace(5), trace(5)];
    let mut filters = std::collections::HashMap::new();
    let removed = apply_legend_edits(
        &mut traces,
        &mut filters,
        &vec![
            LegendEdit {
                toggled: true,
                mode: Some(TraceMode::Step),
                filter: Some("arm".to_owned()),
                removed: true,
                ..edit(5)
            },
            LegendEdit {
                removed: true,
                filter: Some("gone".to_owned()),
                ..edit(9)
            },
            LegendEdit {
                width_px: Some(3),
                ..edit(4)
            },
        ],
    );
    assert_eq!(removed, Some(FieldId(5)));
    assert!(!traces[1].visible && traces[2].visible && traces[0].visible);
    assert_eq!(traces[1].mode, TraceMode::Step);
    assert_eq!(traces[0].width_px, 3);
    assert_eq!(filters.len(), 1);
    assert_eq!(filters[&5], "arm");
}

#[test]
fn blank_filters_are_dropped() {
    let mut filters = std::collections::HashMap::new();
    filters.insert(1, "old".to_owned());
    apply_filter_edits(
        &mut filters,
        &vec![
            (FieldId(1), "  ".to_owned()),
            (FieldId(2), " arm ".to_owned()),
            (FieldId(3), "x".to_owned()),
            (FieldId(3), "".to_owned()),
        ],
    );
    assert_eq!(filters.len(), 1);
    assert_eq!(filters[&2], " arm ");
}

#[test]
fn fields_have_the_scale_and_unit_of_their_column() {
    let snapshot = snapshot();
    assert_eq!(
        field_meta(&snapshot, FieldId(0)),
        (0.01f64.to_bits(), Some("V".to_owned()))
    );
    for field in [1, 2, 7] {
        assert_eq!(field_meta(&snapshot, FieldId(field)), (1f64.to_bits(), None));
    }
    let unit = Some("m".to_owned());
    assert_eq!(readout_line("ATT.Roll", "1.5000", &unit, true), "ATT.Roll: 1.5000 m");
    assert_eq!(readout_line("ATT.Roll", "1.5000", &None, false), "1.5000 ");
}

#[test]
fn visible_traces_with_a_sample_are_read_out() {
    let trace = |field, visible| TraceRef {
        field: FieldId(field),
        color: [field; 4],
        width_px: 0,
        mode: TraceMode::Line,
        visible,
    };
    let sample = |value: f64| {
        Some(Sample {
            value: value.to_bits(),
            effective_time_us: 7,
        })
    };
    let rows = sampled_rows(
        &snapshot(),
        &vec![trace(0, true), trace(1, false), trace(1, true), trace(2, true)],
        &vec![sample(1250.0), sample(1.0), None, sample(2.0)],
    );
    assert_eq!(rows.len(), 2);
    assert_eq!((rows[0].label.as_str(), rows[0].color), ("BAT[0].Volt", [0; 4]));
    assert_eq!(f64::from_bits(rows[0].value) * f64::from_bits(rows[0].multiplier), 12.5);
    assert_eq!(rows[0].unit.as_deref(), Some("V"));
    assert_eq!((rows[1].label.as_str(), rows[1].effective_time_us), ("Lost", 7));
}

#[test]
fn deltas_are_told_of_the_fields_that_can_be_read() {
    let trace = |field| TraceRef {
        field: FieldId(field),
        color: [0; 4],
        width_px: 0,
        mode: TraceMode::Line,
        visible: false,
    };
    let value = TraceDelta::Value {
        positive: true,
        body: "4.0000".to_owned(),
    };
    let deltas = marker_deltas(
        &snapshot(),
        &vec![trace(0), trace(1), trace(2)],
        &vec![value, TraceDelta::Unreadable, TraceDelta::Gap],
    );
    assert_eq!(deltas.len(), 2);
    assert_eq!(deltas[&0], "+4.0000 V");
    assert_eq!(deltas[&2], "n/a");
}

/// The difference between two cursors, as the readout computes it.
fn format_delta(
    marker: Option<f64>,
    playhead: Option<f64>,
    mult: f64,
    unit: Option<&str>,
) -> String {
    let value = match (marker, playhead) {
        (Some(m), Some(p)) if m.is_finite() && p.is_finite() => {
            let d = (m - p) * mult;
            Some((d > 0.0, format!("{d:.4}")))
        }
        _ => None,
    };
    delta_text(value, &unit.map(str::to_owned))
}

#[test]
fn delta_applies_multiplier_and_signs_positive() {
    assert_eq!(
        format_delta(Some(12.0), Some(8.0), 0.5, Some("m")),
        "+2.0000 m"
    );
}

#[test]
fn delta_negative_keeps_minus_and_no_unit_when_blank() {
    assert_eq!(format_delta(Some(1.0), Some(4.0), 1.0, None), "-3.0000");
    assert_eq!(format_delta(Some(1.0), Some(4.0), 1.0, Some("")), "-3.0000");
}

#[test]
fn delta_is_na_when_either_endpoint_missing_or_non_finite() {
    assert_eq!(format_delta(None, Some(1.0), 1.0, Some("m")), "n/a");
    assert_eq!(format_delta(Some(1.0), None, 1.0, Some("m")), "n/a");
    assert_eq!(
        format_delta(Some(f64::NAN), Some(1.0), 1.0, Some("m")),
        "n/a"
    );
    assert_eq!(
        format_delta(Some(1.0), Some(f64::INFINITY), 1.0, Some("m")),
        "n/a"
    );
}

#[test]
fn value_color_is_stable_per_label() {
    assert_eq!(value_hash("4"), value_hash("4"));
    assert_eq!(value_hash("AUTO"), value_hash("AUTO"));
    assert_ne!(value_hash("4"), value_hash("5"));
    assert_eq!(value_hash(""), 0xcbf2_9ce4_8422_2325);
    assert_eq!(value_hash("a"), 0xaf63_dc4c_8601_ec8c);
    assert_eq!(value_hash("foobar"), 0x8594_4171_f739_67e8);
}

#[test]
fn ticked_values_make_markers() {
    let group = |label: &str, transitions: &[i64]| ValueGroup {
        value_label: label.to_owned(),
        transitions: transitions.to_vec(),
    };
    let mut dialog = GenerateMarkersDialog::open(
        Ok(vec![group("3", &[10, 30]), group("5", &[20]), group("7", &[])]),
        &vec![[1; 4], [2; 4], [3; 4]],
        FieldId(4),
        "MODE.Mode".to_owned(),
    );
    assert!(dialog.error.is_none());
    assert_eq!(dialog.rows[1].name, "Value 5");
    assert_eq!(dialog.total(), 3);
    assert_eq!(
        dialog.generate(),
        vec![
            (10, "Value 3".to_owned(), [1; 4]),
            (30, "Value 3".to_owned(), [1; 4]),
            (20, "Value 5".to_owned(), [2; 4]),
        ]
    );
    dialog.rows[0].include_row = false;
    assert_eq!(dialog.total(), dialog.generate().len());
    assert_eq!(GenerateMarkersDialog::button_text(12), "Generate 12 markers");

    let mut window = Some(dialog);
    assert!(generate_markers_window(&mut window, true, false).is_empty());
    assert!(window.is_some());
    assert_eq!(
        generate_markers_window(&mut window, true, true),
        vec![(20, "Value 5".to_owned(), [2; 4])]
    );
    assert!(window.is_none());
    assert!(generate_markers_window(&mut window, true, true).is_empty());
}

#[test]
fn fields_without_markers_say_why() {
    let open = |error| {
        GenerateMarkersDialog::open(Err(error), &Vec::new(), FieldId(1), "X".to_owned())
    };
    assert_eq!(
        open(TransitionsError::TooManyValues(65)).error.as_deref(),
        Some("65+ distinct values - too many to generate markers (limit 64).")
    );
    let dialog = open(TransitionsError::FieldView);
    assert_eq!(dialog.error.as_deref(), Some("Could not read this field."));
    assert!(dialog.rows.is_empty());
}

#[test]
fn layers_below_the_roots_are_found_once() {
    let children = vec![vec![1, 2], vec![3], vec![3, 0], vec![], vec![4]];
    let found = descendant_layers(&children, &vec![1, 2]);
    assert_eq!(found.len(), 4);
    for layer in [0, 1, 2, 3] {
        assert!(found.contains(&layer));
    }
    assert!(descendant_layers(&children, &vec![]).is_empty());
}

#[test]
fn severities_have_names_and_colours() {
    assert_eq!(severity_label(Severity::Warning), "Warning");
    assert_eq!(severity_filter_label(Severity::Info), "Info+");
    assert_eq!(severity_filter_label(Severity::Error), "Errors");
    assert_eq!(severity_color(Severity::Info), None);
    assert_eq!(severity_color(Severity::Error), Some([243, 139, 168]));
    assert_eq!(byte_text(Some(120)), "120");
    assert_eq!(byte_text(None), "-");
}

#[test]
fn the_diagnostics_dock_acts_on_what_was_clicked() {
    let mut dock = DiagnosticsDock::default();
    dock.open = true;
    assert_eq!(dock.origin_choice(), "All origins");
    dock.origin = "flight".to_owned();
    assert_eq!(dock.origin_choice(), "flight");
    let action = dock.frame_action(false, true, Some(5));
    assert!(action.clear && dock.open);
    assert_eq!(action.jump_to_time_us, Some(5));
    dock.frame_action(true, false, None);
    assert!(!dock.open);
}

#[test]
fn only_network_endpoints_have_a_host() {
    assert_eq!(host_label(EndpointKind::UdpServer), Some("Bind"));
    assert_eq!(host_label(EndpointKind::TcpClient), Some("Remote"));
    assert_eq!(host_label(EndpointKind::Serial), None);
}

#[test]
fn legend_anchor_uses_bounded_rect_for_every_position() {
    let plot = egui::Rect::from_min_max(egui::pos2(10.0, 20.0), egui::pos2(210.0, 120.0));
    let bounds = plot.shrink2(egui::vec2(8.0, 8.0));
    let anchor = |position| {
        let (right, bottom) = legend_anchor(position);
        let (x, horizontal) = if right {
            (bounds.right(), egui::Align::Max)
        } else {
            (bounds.left(), egui::Align::Min)
        };
        let (y, vertical) = if bottom {
            (bounds.bottom(), egui::Align::Max)
        } else {
            (bounds.top(), egui::Align::Min)
        };
        (egui::pos2(x, y), egui::Align2([horizontal, vertical]))
    };
    let cases = [
        (
            LegendPosition::TopLeft,
            bounds.left_top(),
            egui::Align2::LEFT_TOP,
        ),
        (
            LegendPosition::TopRight,
            bounds.right_top(),
            egui::Align2::RIGHT_TOP,
        ),
        (
            LegendPosition::BottomLeft,
            bounds.left_bottom(),
            egui::Align2::LEFT_BOTTOM,
        ),
        (
            LegendPosition::BottomRight,
            bounds.right_bottom(),
            egui::Align2::RIGHT_BOTTOM,
        ),
    ];
    for (position, expected_pos, expected_pivot) in cases {
        let (pos, pivot) = anchor(position);
        assert_eq!(pos, expected_pos);
        assert_eq!(pivot, expected_pivot);
    }
}
