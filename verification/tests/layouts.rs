use delog_app::layout::{
    check_version, config_dir, decode_json, duplicate_named, layout_dir, list_layouts, load_doc,
    named_layout_path, rename_removes_old, sanitize_name, session_path, settings_path, temporary_path,
    LoadOutcome, Platform, StorageRoots,
};
use delog_app::layout_doc::{
    FieldRef, LayoutDoc, LayoutError, LayoutNode, ModelKind, ModelLayout, OriLayout, OriMapping,
    PaneTree, PlaybackLayout, PlotPane, PosLayout, PosMapping, SplitLayout, TraceLayout,
    TraceModeLayout, TraceRef, VehicleConfig, VehicleLayout, ViewLayout, ViewMode,
    WorkspaceLayout, LAYOUT_VERSION,
};
use delog_app::gpu::TraceMode;
use delog_app::layout_load::vehicle_from_layout;
use delog_app::layout_resolve::Resolver;
use delog_app::layout_save::{current_doc, vehicle_to_layout, CurrentLayout};
use delog_app::snapshot::{
    FieldId, FieldInfo, SourceId, SourceInfo, StoreSnapshot, TopicId, TopicInfo,
};
use delog_app::store::{
    decode_graph_text, encode_graph_text, list_graphs, DirEntryName, GraphStore,
};

fn snapshot_with_topics(entries: &[(&str, &str, &[&str])]) -> StoreSnapshot {
    let mut snapshot = StoreSnapshot::empty();
    for (source, topic, fields) in entries {
        let at = snapshot.sources.iter().position(|s| s.label == *source);
        let at = at.unwrap_or_else(|| {
            let id = SourceId(snapshot.sources.len() as u32);
            snapshot.sources.push(SourceInfo {
                id,
                label: source.to_string(),
                removed: false,
                offset_us: 0,
                topics: Vec::new(),
            });
            snapshot.sources.len() - 1
        });
        let topic_id = TopicId(snapshot.topics.len() as u32);
        snapshot.topics.push(TopicInfo {
            id: topic_id,
            source: snapshot.sources[at].id,
            name: topic.to_string(),
            base: topic.to_string(),
            instance: None,
            removed: false,
            data: None,
        });
        snapshot.sources[at].topics.push(topic_id);
        for field in *fields {
            let id = FieldId(snapshot.fields.len() as u32);
            snapshot.fields.push(FieldInfo {
                id,
                topic: topic_id,
                name: field.to_string(),
                removed: false,
            });
        }
    }
    snapshot
}

fn snapshot_with_sources(entries: &[(&str, &str, &str)]) -> (StoreSnapshot, Vec<FieldId>) {
    let mut flat = StoreSnapshot::empty();
    let mut fields = Vec::new();
    for (n, (source, topic, field)) in entries.iter().enumerate() {
        let n = n as u32;
        flat.sources.push(SourceInfo {
            id: SourceId(n),
            label: source.to_string(),
            removed: false,
            offset_us: 0,
            topics: vec![TopicId(n)],
        });
        flat.topics.push(TopicInfo {
            id: TopicId(n),
            source: SourceId(n),
            name: topic.to_string(),
            base: topic.to_string(),
            instance: None,
            removed: false,
            data: None,
        });
        flat.fields.push(FieldInfo {
            id: FieldId(n),
            topic: TopicId(n),
            name: field.to_string(),
            removed: false,
        });
        fields.push(FieldId(n));
    }
    (flat, fields)
}

fn field(topic: &str, name: &str) -> FieldRef {
    FieldRef {
        topic: topic.into(),
        field: name.into(),
    }
}

fn empty_doc(name: &str) -> LayoutDoc {
    LayoutDoc {
        delog_layout: LAYOUT_VERSION,
        name: name.into(),
        view: None,
        playback: PlaybackLayout {
            speed: 1f64.to_bits(),
            follow_live: false,
        },
        workspace: WorkspaceLayout {
            root: LayoutNode::Plot {
                traces: Vec::new(),
                show_legend: true,
                show_tooltip: true,
            },
        },
        vehicles: Vec::new(),
        favorites: Vec::new(),
        docks: Vec::new(),
    }
}

fn trace(topic: &str, name: &str) -> TraceLayout {
    TraceLayout {
        field: field(topic, name),
        color: [1f32.to_bits(), 0, 0, 1f32.to_bits()],
        width_px: 1.5f32.to_bits(),
        mode: TraceModeLayout::Line,
        visible: true,
    }
}

fn basic_doc() -> LayoutDoc {
    let mut doc = empty_doc("basic");
    doc.workspace.root = LayoutNode::Plot {
        traces: vec![trace("ATT", "Roll"), trace("ATT", "Pitch")],
        show_legend: true,
        show_tooltip: true,
    };
    doc.vehicles = vec![VehicleLayout {
        label: "Vehicle".into(),
        show: true,
        model: ModelLayout::Quad,
        color: [10, 20, 30, 255],
        path_color: [40, 50, 60, 255],
        scale: 1f32.to_bits(),
        position: PosLayout::Gps {
            lat: field("POS", "Lat"),
            lon: field("POS", "Lng"),
            alt: field("POS", "Alt"),
            lat_lon_dege7: true,
            alt_mm: false,
            alt_offset_m: 0,
        },
        orientation: OriLayout::Euler {
            roll: field("ATT", "Roll"),
            pitch: field("ATT", "Pitch"),
            yaw: field("ATT", "Yaw"),
            degrees: true,
        },
    }];
    doc
}

fn plot_trace_counts(tree: &PaneTree) -> (usize, usize) {
    match tree {
        PaneTree::Plot(pane) => (pane.traces.len(), pane.ghosts.len()),
        PaneTree::Scene3D(_) => (0, 0),
        PaneTree::Split { children, .. } => children
            .iter()
            .map(plot_trace_counts)
            .fold((0, 0), |(t, g), (a, b)| (t + a, g + b)),
    }
}

#[test]
fn sanitize_layout_name_blocks_paths() {
    assert_eq!(sanitize_name("../bad/name"), "bad_name");
    assert_eq!(sanitize_name(""), "default");
    assert_eq!(sanitize_name("ap-attitude_1"), "ap-attitude_1");
}

#[test]
fn invalid_version_is_rejected() {
    let mut doc = empty_doc("bad");
    doc.delog_layout = 99;
    match load_doc(doc, &StoreSnapshot::empty()) {
        Err(LayoutError::UnsupportedVersion(99)) => {}
        Ok(_) => panic!("expected unsupported version, got successful load"),
        Err(err) => panic!("expected unsupported version, got {}", err.message()),
    }
}

#[test]
fn missing_version_is_rejected_by_decoder() {
    match decode_json(r#"{"name":"missing"}"#) {
        Err(LayoutError::MissingVersion) => {}
        Ok(_) => panic!("expected missing version, got successful decode"),
        Err(err) => panic!("expected missing version, got {}", err.message()),
    }
}

#[test]
fn documents_are_decoded_by_their_version() {
    let value = decode_json(r#"{"delog_layout": 1, "name": "legacy", "settings": {}}"#).unwrap();
    assert_eq!(value["name"], "legacy");
    assert!(matches!(
        decode_json(r#"{"delog_layout": 7}"#),
        Err(LayoutError::UnsupportedVersion(7))
    ));
    assert!(matches!(
        decode_json(r#"{"delog_layout": "1"}"#),
        Err(LayoutError::MissingVersion)
    ));
    match decode_json("{") {
        Err(LayoutError::Json(message)) => assert!(message.contains("EOF")),
        _ => panic!("expected a JSON error"),
    }
    assert!(check_version(Some(1)).is_ok());
    assert!(matches!(check_version(None), Err(LayoutError::MissingVersion)));
    assert!(check_version(Some(0x1_0000_0001)).is_ok());
}

#[test]
fn same_layout_populates_after_loading_before_log_schema() {
    let LoadOutcome::Applied(empty_layout) =
        load_doc(basic_doc(), &StoreSnapshot::empty()).unwrap_or_else(|_| panic!("applies"))
    else {
        panic!("empty store should not need mapping");
    };
    assert_eq!(empty_layout.vehicles.len(), 0);
    assert_eq!(plot_trace_counts(&empty_layout.root), (0, 2));

    let snapshot = snapshot_with_topics(&[
        ("later_log", "ATT", &["Roll", "Pitch", "Yaw"]),
        ("later_log", "POS", &["Lat", "Lng", "Alt"]),
    ]);
    let LoadOutcome::Applied(populated) =
        load_doc(basic_doc(), &snapshot).unwrap_or_else(|_| panic!("applies"))
    else {
        panic!("single source should not need mapping");
    };
    assert_eq!(populated.vehicles.len(), 1);
    assert_eq!(populated.vehicles[0].label, "Vehicle");
    assert_eq!(populated.diagnostics.len(), 0);
    assert_eq!(plot_trace_counts(&populated.root), (2, 0));
}

#[test]
fn one_loaded_source_resolves_topic_field_without_source() {
    let (snapshot, fields) = snapshot_with_sources(&[("flight_a", "ATT", "Roll")]);
    let choices = Vec::new();
    let mut resolver = Resolver::new(&snapshot, &choices, true);

    let got = resolver.resolve(&field("ATT", "Roll"));

    assert_eq!(got, Some(fields[0]));
    assert!(resolver.ambiguities.is_empty());
}

#[test]
fn duplicate_topic_field_across_sources_is_ambiguous() {
    let (snapshot, _) =
        snapshot_with_sources(&[("flight_a", "ATT", "Roll"), ("flight_b", "ATT", "Roll")]);
    let choices = Vec::new();
    let mut resolver = Resolver::new(&snapshot, &choices, true);

    let got = resolver.resolve(&field("ATT", "Roll"));

    assert_eq!(got, None);
    let ambiguity = &resolver.ambiguities[0];
    assert_eq!(ambiguity.candidates.len(), 2);
    assert_eq!(ambiguity.candidates[0].label, "flight_a");
    assert_eq!(ambiguity.candidates[1].label, "flight_b");
}

#[test]
fn a_choice_between_sources_is_followed() {
    let (snapshot, fields) =
        snapshot_with_sources(&[("flight_a", "ATT", "Roll"), ("flight_b", "ATT", "Roll")]);
    let mut doc = empty_doc("choose");
    doc.workspace.root = LayoutNode::Plot {
        traces: vec![trace("ATT", "Roll")],
        show_legend: true,
        show_tooltip: true,
    };
    let LoadOutcome::NeedsMapping(mut pending) =
        load_doc(doc, &snapshot).unwrap_or_else(|_| panic!("loads"))
    else {
        panic!("two sources need a choice");
    };
    assert_eq!(pending.ambiguity_count(), 1);
    pending.ambiguities_mut()[0].selected = 1;
    let layout = pending.apply(&snapshot);
    match layout.root {
        PaneTree::Plot(pane) => assert_eq!(pane.traces[0].field, fields[1]),
        _ => panic!("expected a plot"),
    }
}

#[test]
fn a_skipped_choice_leaves_the_trace_without_a_field() {
    let (snapshot, _) =
        snapshot_with_sources(&[("flight_a", "ATT", "Roll"), ("flight_b", "ATT", "Roll")]);
    let mut doc = empty_doc("skip");
    doc.workspace.root = LayoutNode::Plot {
        traces: vec![trace("ATT", "Roll")],
        show_legend: true,
        show_tooltip: true,
    };
    let LoadOutcome::NeedsMapping(pending) =
        load_doc(doc, &snapshot).unwrap_or_else(|_| panic!("loads"))
    else {
        panic!("two sources need a choice");
    };
    match pending.apply_skipping(&snapshot).root {
        PaneTree::Plot(pane) => {
            assert!(pane.traces.is_empty());
            assert_eq!(pane.ghosts.len(), 1);
        }
        _ => panic!("expected a plot"),
    }
}

#[test]
fn fit_to_view_persists_as_full_mode_and_restores_fit_all() {
    let mut doc = empty_doc("fit");
    doc.view = Some(ViewLayout {
        mode: ViewMode::Full,
        min_us: 0,
        max_us: 10,
    });
    let LoadOutcome::Applied(layout) =
        load_doc(doc, &StoreSnapshot::empty()).unwrap_or_else(|_| panic!("applies"))
    else {
        panic!("no sources, no mapping");
    };
    assert!(layout.fit_all);

    let mut doc = empty_doc("win");
    doc.view = Some(ViewLayout {
        mode: ViewMode::Window,
        min_us: 0,
        max_us: 10,
    });
    let LoadOutcome::Applied(layout) =
        load_doc(doc, &StoreSnapshot::empty()).unwrap_or_else(|_| panic!("applies"))
    else {
        panic!("no sources, no mapping");
    };
    assert!(!layout.fit_all);
}

#[test]
fn a_saved_workspace_is_restored() {
    let (snapshot, fields) = snapshot_with_sources(&[("flight", "ATT", "Roll")]);
    let tree = PaneTree::Split {
        split: SplitLayout::Horizontal,
        children: vec![PaneTree::Plot(PlotPane {
            traces: vec![TraceRef {
                field: fields[0],
                color: [1, 2, 3, 4],
                width_px: 2f32.to_bits(),
                mode: TraceMode::Step,
                visible: false,
            }],
            ghosts: Vec::new(),
            show_legend: false,
            show_tooltip: true,
        }), PaneTree::Plot(PlotPane {
            traces: Vec::new(),
            ghosts: Vec::new(),
            show_legend: true,
            show_tooltip: true,
        })],
    };
    let vehicles = Vec::new();
    let doc = current_doc(CurrentLayout {
        name: "saved".into(),
        root: Some(&tree),
        snapshot: &snapshot,
        view: Some((5, 9)),
        fit_all: false,
        speed: 2f64.to_bits(),
        follow_live: true,
        vehicles: &vehicles,
    });
    assert_eq!(doc.delog_layout, LAYOUT_VERSION);
    let LoadOutcome::Applied(layout) =
        load_doc(doc, &snapshot).unwrap_or_else(|_| panic!("applies"))
    else {
        panic!("single source should not need mapping");
    };
    assert_eq!(layout.view, Some((5, 9)));
    assert!(layout.follow_live);
    match layout.root {
        PaneTree::Split { split, children } => {
            assert_eq!(split, SplitLayout::Horizontal);
            match &children[0] {
                PaneTree::Plot(pane) => {
                    assert_eq!(pane.traces[0].field, fields[0]);
                    assert_eq!(pane.traces[0].mode, TraceMode::Step);
                    assert!(!pane.traces[0].visible);
                    assert!(!pane.show_legend);
                }
                _ => panic!("expected a plot"),
            }
        }
        _ => panic!("expected a split"),
    }
}

#[test]
fn a_layout_does_not_depend_on_its_source() {
    let saved = |label: &str, source: u32| {
        let mut snapshot = snapshot_with_topics(&[(label, "POS", &["Lat", "Lng", "Alt"])]);
        snapshot.sources[0].id = SourceId(source);
        snapshot.topics[0].source = SourceId(source);
        let vehicles = vec![VehicleConfig {
            source: SourceId(source),
            label: "Plane".into(),
            show: true,
            pos: PosMapping::Gps {
                lat: FieldId(0),
                lon: FieldId(1),
                alt: FieldId(2),
                lat_lon_dege7: true,
                alt_mm: true,
                alt_offset_m: 0,
            },
            ori: OriMapping::Static,
            model: ModelKind::FixedWing,
            color: [255, 128, 0, 255],
            path_color: [1, 2, 3, 255],
            scale: 2f32.to_bits(),
        }];
        let tree = PaneTree::Plot(PlotPane {
            traces: vec![TraceRef {
                field: FieldId(2),
                color: [1, 2, 3, 4],
                width_px: 2f32.to_bits(),
                mode: TraceMode::Step,
                visible: true,
            }],
            ghosts: Vec::new(),
            show_legend: true,
            show_tooltip: true,
        });
        let doc = current_doc(CurrentLayout {
            name: "saved".into(),
            root: Some(&tree),
            snapshot: &snapshot,
            view: None,
            fit_all: true,
            speed: 0,
            follow_live: false,
            vehicles: &vehicles,
        });
        let LayoutNode::Plot { traces, .. } = &doc.workspace.root else {
            panic!("expected a plot");
        };
        let field = &traces[0].field;
        format!("{} {} {:?}", field.topic, field.field, doc.vehicles)
    };
    let first = saved("first.bin", 0);
    assert_eq!(saved("second.ulg", 7), first);
    assert!(first.starts_with("POS Alt [VehicleLayout {"));
    assert!(!first.contains("first.bin"));
}

#[test]
fn a_saved_vehicle_is_restored_and_translucent_colors_are_premultiplied() {
    let snapshot = snapshot_with_topics(&[("flight", "POS", &["Lat", "Lng", "Alt"])]);
    let vehicle = VehicleConfig {
        source: SourceId(0),
        label: "Plane".into(),
        show: true,
        pos: PosMapping::Gps {
            lat: FieldId(0),
            lon: FieldId(1),
            alt: FieldId(2),
            lat_lon_dege7: true,
            alt_mm: true,
            alt_offset_m: 1.5f64.to_bits(),
        },
        ori: OriMapping::Static,
        model: ModelKind::FixedWing,
        color: [255, 128, 0, 255],
        path_color: [1, 2, 3, 255],
        scale: 2f32.to_bits(),
    };
    let mut layout = vehicle_to_layout(&vehicle, &snapshot).unwrap();
    let choices = Vec::new();
    let mut resolver = Resolver::new(&snapshot, &choices, true);
    let back = vehicle_from_layout(&layout, &mut resolver).unwrap();
    assert_eq!(back.pos, vehicle.pos);
    assert_eq!(back.color, [255, 128, 0, 255]);
    assert_eq!(back.label, "Plane");

    layout.color = [255, 255, 255, 128];
    let back = vehicle_from_layout(&layout, &mut resolver).unwrap();
    assert_eq!(back.color, [128, 128, 128, 128]);
}

#[test]
fn files_of_the_application_stand_in_its_directory() {
    let roots = StorageRoots {
        app_data: None,
        data_home: None,
        home: Some("/home/user".into()),
    };
    let base = config_dir(Platform::Other, &roots);
    assert_eq!(base, Some("/home/user/.local/share/delog".into()));
    assert_eq!(
        settings_path(&base).ok(),
        Some("/home/user/.local/share/delog/settings.json".into())
    );
    assert_eq!(
        session_path(&base).ok(),
        Some("/home/user/.local/share/delog/session.json".into())
    );
    let dir = layout_dir(&base).ok().unwrap();
    assert_eq!(dir, std::path::PathBuf::from("/home/user/.local/share/delog/layouts"));
    let path = named_layout_path(&dir, "a b");
    assert_eq!(
        path,
        std::path::PathBuf::from("/home/user/.local/share/delog/layouts/a_b.json")
    );
    assert_eq!(
        temporary_path(&path),
        std::path::PathBuf::from("/home/user/.local/share/delog/layouts/a_b.json.tmp")
    );
    let set = StorageRoots {
        app_data: Some("/apps".into()),
        data_home: Some("/data".into()),
        home: None,
    };
    assert_eq!(config_dir(Platform::Other, &set), Some("/data/delog".into()));
    assert_eq!(config_dir(Platform::Windows, &set), Some("/apps/DeLOG/data".into()));
    assert_eq!(config_dir(Platform::Windows, &roots), None);
    assert_eq!(
        config_dir(Platform::MacOs, &roots),
        Some("/home/user/Library/Application Support/DeLOG".into())
    );
    assert_eq!(config_dir(Platform::MacOs, &set), None);
    assert!(matches!(settings_path(&None), Err(LayoutError::NoStorageDir)));
    assert!(matches!(session_path(&None), Err(LayoutError::NoStorageDir)));
    assert!(matches!(layout_dir(&None), Err(LayoutError::NoStorageDir)));
    assert!(rename_removes_old("a", "b"));
    assert!(!rename_removes_old("a b", "a_b"));
    assert_eq!(duplicate_named(empty_doc("old"), "new name").name, "new_name");
}

#[test]
fn errors_are_told_in_words() {
    assert_eq!(LayoutError::Io("x".into()).message(), "layout IO error: x");
    assert_eq!(LayoutError::Json("x".into()).message(), "layout JSON error: x");
    assert_eq!(
        LayoutError::UnsupportedVersion(12).message(),
        "unsupported layout version 12"
    );
}

#[test]
fn bad_names_error_cleanly() {
    let store = GraphStore::new("/graphs".into());
    assert_eq!(store.path("").unwrap_err(), "invalid graph name ''");
    assert_eq!(store.path("a/b").unwrap_err(), "invalid graph name 'a/b'");
    assert!(store.path("a\\b").is_err());
    assert_eq!(
        store.path("my-graph").unwrap(),
        std::path::PathBuf::from("/graphs/my-graph.json")
    );
    let dir = std::path::PathBuf::from("/graphs");
    assert_eq!(store.path("a:b").unwrap(), dir.join("a:b.json"));
}

#[test]
fn corrupt_graph_files_are_told() {
    let path = "/graphs/junk.json";
    let error = decode_graph_text(path, "{").unwrap_err();
    let reason = serde_json::from_str::<serde_json::Value>("{").unwrap_err();
    assert_eq!(error, format!("invalid JSON in '/graphs/junk.json': {reason}"));
    assert!(decode_graph_text(path, "").is_err());
    let value = decode_graph_text(path, "{\"name\":\"my-graph\",\"next\":2}").unwrap();
    assert_eq!(value.get("name").and_then(|name| name.as_str()), Some("my-graph"));
    assert_eq!(value.get("next").and_then(|next| next.as_u64()), Some(2));
}

#[test]
fn graph_files_are_laid_out_over_lines() {
    let value = decode_graph_text("a.json", "{\"name\":\"my-graph\",\"nodes\":[1,2]}").unwrap();
    let contents = encode_graph_text("my-graph", &value).unwrap();
    assert_eq!(
        contents,
        "{\n  \"name\": \"my-graph\",\n  \"nodes\": [\n    1,\n    2\n  ]\n}"
    );
    assert_eq!(decode_graph_text("a.json", &contents).unwrap(), value);
}

#[test]
fn a_backslash_is_part_of_an_extension_where_it_separates_nothing() {
    let path = std::path::PathBuf::from("a.x\\y");
    assert_eq!(temporary_path(&path), std::path::PathBuf::from("a.x\\y.tmp"));
}

#[test]
fn directories_list_documents_in_order() {
    let entry = |extension: Option<&str>, stem: Option<&str>| DirEntryName {
        extension: extension.map(str::to_owned),
        stem: stem.map(str::to_owned),
    };
    let entries = vec![
        entry(Some("json"), Some("zeta")),
        entry(Some("txt"), Some("notes")),
        entry(Some("json"), None),
        entry(None, Some("bare")),
        entry(Some("json"), Some("alpha")),
    ];
    assert_eq!(list_graphs(&entries), vec!["alpha".to_owned(), "zeta".to_owned()]);
    assert_eq!(list_layouts(&entries), vec!["alpha".to_owned(), "zeta".to_owned()]);
}
