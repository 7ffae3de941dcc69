use delog_app::add_menu::{
    accept_add_action, close_menu_frame, data_cells, hint_text, menu_rows, move_highlight,
    open_menu_frame, should_close_add_menu, AddAction, AddMenuMode, AddMenuState, MenuKeys,
    MenuRow,
};
use delog_app::fuzzy::{fuzzy_match_score, fuzzy_token_score, score_lowered};
use delog_app::graph::{ConversionKind, FieldSelector, NodeKind};
use delog_app::picker::{field_options, retarget_topic, search_fields, topic_display};
use delog_app::registry::{search_templates, templates, ADD_DATA_INDEX};
use delog_app::snapshot::{
    Column, FieldId, FieldInfo, SourceId, SourceInfo, StoreSnapshot, TopicData, TopicId, TopicInfo,
};

fn keys() -> MenuKeys {
    MenuKeys {
        escape: false,
        down: false,
        up: false,
        enter: false,
    }
}

#[test]
fn click_inside_add_menu_never_closes_it() {
    assert!(!should_close_add_menu(true, false));
    assert!(!should_close_add_menu(false, false));
}

#[test]
fn menu_navigation_wraps_in_both_directions() {
    assert_eq!(move_highlight(0, 4, -1), 3);
    assert_eq!(move_highlight(3, 4, 1), 0);
    assert_eq!(move_highlight(1, 4, 1), 2);
    assert_eq!(move_highlight(9, 0, 1), 0);
}

#[test]
fn moving_the_highlight_back_restores_it() {
    for delta in [-7isize, -1, 1, 5, 12] {
        for current in 0..5usize {
            let there = move_highlight(current, 5, delta);
            assert_eq!(move_highlight(there, 5, -delta), current);
        }
    }
}

#[test]
fn new_add_menu_ignores_opening_outside_click_then_arms_dismissal() {
    let mut menu = AddMenuState::new([20, 30], [4, 5]);
    let snapshot = StoreSnapshot::empty();

    let opening = open_menu_frame(&mut menu, &snapshot, keys());

    assert!(!should_close_add_menu(opening.was_dismiss_armed, true));
    assert!(menu.dismiss_armed);
    assert!(should_close_add_menu(menu.dismiss_armed, true));
    assert!(close_menu_frame(None, opening.was_dismiss_armed, true).is_none());
    assert!(matches!(
        close_menu_frame(None, menu.dismiss_armed, true),
        Some(AddAction::Close)
    ));
    assert!(matches!(
        close_menu_frame(Some(AddAction::Template(3)), true, true),
        Some(AddAction::Template(3))
    ));
}

#[test]
fn token_order_case_and_blanks_do_not_change_the_score() {
    let score = fuzzy_match_score("gps lat", "GPS › latitude");
    assert!(score.is_some());
    for query in ["lat gps", "  gps\t\n lat ", "GPS Lat"] {
        assert_eq!(fuzzy_match_score(query, "gps › LATITUDE"), score, "{query}");
    }
    assert_eq!(fuzzy_match_score(" \t", "gps"), None);
}

#[test]
fn fuzzy_field_search_matches_tokens_and_ranks_tighter_paths_first() {
    let tight = fuzzy_match_score("gps lat", "GPS › latitude").unwrap();
    let loose = fuzzy_match_score("gps lat", "MyGpsTopic › vehicle_latitude_raw").unwrap();
    assert!(tight < loose);
    assert!(fuzzy_match_score("gpt lat", "GPS › latitude").is_some());
    assert_eq!(fuzzy_match_score("gyro", "GPS › latitude"), None);
}

#[test]
fn token_scores_count_bytes_and_gaps() {
    // A substring: twice the byte offset and the bytes around it.
    assert_eq!(fuzzy_token_score("lat", "gps › latitude"), Some(2 * 8 + (16 - 3)));
    // Spread characters: start, four per gap, and the length in characters.
    assert_eq!(fuzzy_token_score("gt", "gps lat"), Some(100 + 0 + 4 * 5 + 7));
    assert_eq!(fuzzy_token_score("", "abc"), Some(3));
    assert_eq!(fuzzy_token_score("ba", "ab"), None);
    assert_eq!(score_lowered(&vec!["a".to_owned(), "c".to_owned()], "abc"), Some(2 + 6));
    assert_eq!(score_lowered(&Vec::new(), "abc"), None);
    assert_eq!(fuzzy_match_score("   ", "abc"), None);
    // Case is set aside in both texts.
    assert_eq!(fuzzy_match_score("ÄB", "xäb"), Some(2 + 1));
}

#[test]
fn every_conversion_has_a_searchable_template() {
    let all = templates();
    let names: Vec<_> = all.iter().map(|template| template.name).collect();
    for kind in [
        ConversionKind::RadToDeg,
        ConversionKind::DegToRad,
        ConversionKind::Heading0To360,
        ConversionKind::HeadingPm180,
        ConversionKind::MsToKmh,
        ConversionKind::KmhToMs,
        ConversionKind::MToFt,
        ConversionKind::FtToM,
    ] {
        assert!(
            names.contains(&kind.label()),
            "missing template for {kind:?}"
        );
    }
}

#[test]
fn symbol_aliases_rank_their_operation_first() {
    for (symbol, expected) in [
        ("+", "Add"),
        ("-", "Subtract"),
        ("*", "Multiply"),
        ("/", "Divide"),
    ] {
        let hits = search_templates(symbol);
        assert_eq!(templates()[hits[0].index].name, expected, "for {symbol}");
    }
}

#[test]
fn fuzzy_matches_rank_substrings_before_subsequences() {
    let hits = search_templates("ali");
    assert_eq!(templates()[hits[0].index].name, "Align to Timeline");
}

#[test]
fn empty_query_lists_everything_grouped_by_category() {
    let hits = search_templates("");
    assert_eq!(hits.len(), templates().len());
    let rows = menu_rows("", &hits);
    let categories = rows
        .iter()
        .filter(|row| matches!(row, MenuRow::Category(_)))
        .count();
    assert_eq!(categories, 6);
    assert_eq!(rows[0], MenuRow::Category(0));
    assert_eq!(rows[1], MenuRow::Template(0));
    assert_eq!(menu_rows("a", &search_templates("a")).len(), search_templates("a").len());
}

#[test]
fn python_alias_ranks_the_script_template_first() {
    let hits = search_templates("py");
    assert_eq!(templates()[hits[0].index].name, "Python Script");
    match templates()[hits[0].index].make() {
        NodeKind::Script(spec) => {
            assert_eq!(spec.name, "Script");
            assert_eq!(spec.inputs[0].name, "a");
            assert_eq!(spec.code, "def flow(inputs):\n    return {\"out\": inputs.a.v}\n");
        }
        other => panic!("unexpected {other:?}"),
    }
}

#[test]
fn templates_make_their_nodes() {
    let all = templates();
    assert_eq!(all.len(), 17);
    assert!(matches!(all[0].make(), NodeKind::Constant { value: 0 }));
    match all[5].make() {
        NodeKind::ScaleOffset { multiplier, offset } => {
            assert_eq!(f64::from_bits(multiplier), 1.0);
            assert_eq!(f64::from_bits(offset), 0.0);
        }
        other => panic!("unexpected {other:?}"),
    }
    match all[15].make() {
        NodeKind::Output(spec) => {
            assert_eq!(spec.topic, "derived");
            assert_eq!(spec.fields.len(), 1);
            assert_eq!(spec.fields[0].name, "out");
            assert_eq!(spec.fields[0].unit, None);
        }
        other => panic!("unexpected {other:?}"),
    }
}

fn column(name: &str, numeric: bool, unit: Option<&str>) -> Column {
    Column {
        name: name.to_owned(),
        numeric,
        unit: unit.map(str::to_owned),
        multiplier: 1.0f64.to_bits(),
    }
}

fn add_topic(
    snapshot: &mut StoreSnapshot,
    source: usize,
    name: &str,
    base: &str,
    instance: Option<u32>,
    columns: Vec<Column>,
) {
    let id = TopicId(snapshot.topics.len() as u32);
    for c in &columns {
        let field = FieldId(snapshot.fields.len() as u32);
        snapshot.fields.push(FieldInfo {
            id: field,
            topic: id,
            name: c.name.clone(),
            removed: false,
        });
    }
    snapshot.sources[source].topics.push(id);
    snapshot.topics.push(TopicInfo {
        id,
        source: SourceId(source as u32),
        name: name.to_owned(),
        base: base.to_owned(),
        instance,
        removed: false,
        data: Some(TopicData { rows: 3, columns }),
    });
}

fn imu_columns() -> Vec<Column> {
    vec![column("AccX", true, Some("m/s^2")), column("name", false, None)]
}

fn snapshot_two_sources() -> StoreSnapshot {
    let mut snapshot = StoreSnapshot::empty();
    for (i, label) in ["flight_01", "flight_02"].iter().enumerate() {
        snapshot.sources.push(SourceInfo {
            id: SourceId(i as u32),
            label: (*label).to_owned(),
            removed: false,
            offset_us: 0,
            topics: Vec::new(),
        });
    }
    add_topic(&mut snapshot, 0, "IMU[0]", "IMU", Some(0), imu_columns());
    add_topic(&mut snapshot, 0, "IMU[1]", "IMU", Some(1), imu_columns());
    add_topic(&mut snapshot, 0, "GPS", "GPS", None, vec![column("Alt", true, Some("m"))]);
    add_topic(&mut snapshot, 1, "IMU[0]", "IMU", Some(0), imu_columns());
    add_topic(&mut snapshot, 1, "GPS", "GPS", None, vec![column("Alt", true, Some("m"))]);
    snapshot
}

#[test]
fn a_dotted_query_scopes_the_search_to_a_topics_fields() {
    let snapshot = snapshot_two_sources();

    let hits = search_fields(&snapshot, "gps.alt", 10);

    assert!(
        !hits.is_empty(),
        "topic.field should match like the browser"
    );
    assert!(
        hits.iter()
            .all(|hit| hit.selector.topic == "GPS" && hit.selector.field == "Alt"),
        "the part after the dot must scope to fields, got {hits:?}"
    );
}

#[test]
fn searches_across_source_topic_field_and_unit() {
    let snapshot = snapshot_two_sources();
    assert!(search_fields(&snapshot, "accx", 10)
        .iter()
        .any(|hit| hit.label.contains("AccX")));
    assert!(search_fields(&snapshot, "flight_02 alt", 10)
        .iter()
        .all(|hit| hit.label.starts_with("flight_02")));
    assert!(search_fields(&snapshot, "m/s", 10)
        .iter()
        .any(|hit| hit.label.contains("AccX")));
}

#[test]
fn string_fields_are_excluded_and_selector_round_trips() {
    let snapshot = snapshot_two_sources();
    let hits = search_fields(&snapshot, "", 100);
    assert!(hits.iter().all(|hit| !hit.label.contains("name")));
    assert_eq!(hits.len(), 5);
    let hit = &search_fields(&snapshot, "flight_01 accx", 1)[0];
    assert_eq!(hit.selector.source.as_deref(), Some("flight_01"));
    assert_eq!(hit.selector.topic, "IMU");
    assert_eq!(hit.selector.instance, Some(0));
    assert_eq!(hit.selector.field, "AccX");
    assert_eq!(hit.label, "flight_01 › IMU[0] › AccX");
    assert_eq!(hit.unit.as_deref(), Some("m/s^2"));
    assert_eq!(hit.rows, 3);
}

fn imu_selector() -> FieldSelector {
    FieldSelector {
        source: Some("flight_01".to_owned()),
        topic: "IMU".to_owned(),
        instance: Some(0),
        field: "AccX".to_owned(),
    }
}

#[test]
fn field_options_offer_every_source_and_the_selected_topics_numeric_fields() {
    let snapshot = snapshot_two_sources();
    let options = field_options(&snapshot, &imu_selector());

    assert_eq!(options.sources, ["flight_01", "flight_02"]);
    assert_eq!(options.topics, ["GPS", "IMU[0]", "IMU[1]"]);
    assert_eq!(
        options.fields,
        ["AccX"],
        "string fields must not be offered"
    );
}

#[test]
fn field_options_follow_the_selected_source() {
    let snapshot = snapshot_two_sources();
    let mut selector = imu_selector();
    selector.source = Some("flight_02".to_owned());

    let options = field_options(&snapshot, &selector);

    assert_eq!(options.topics, ["GPS", "IMU[0]"]);
}

#[test]
fn retargeting_a_topic_keeps_a_shared_field_and_otherwise_takes_the_first() {
    let snapshot = snapshot_two_sources();

    let mut selector = imu_selector();
    retarget_topic(&snapshot, &mut selector, "IMU", Some(1));
    assert_eq!(selector.instance, Some(1));
    assert_eq!(selector.field, "AccX");
    assert_eq!(topic_display(&selector), "IMU[1]");

    retarget_topic(&snapshot, &mut selector, "GPS", None);
    assert_eq!(selector.topic, "GPS");
    assert_eq!(selector.instance, None);
    assert_eq!(selector.field, "Alt");
}

#[test]
fn the_menu_accepts_the_highlighted_row() {
    let snapshot = snapshot_two_sources();
    let mut menu = AddMenuState::new([0, 0], [0, 0]);
    menu.highlighted = 400;
    let frame = open_menu_frame(&mut menu, &snapshot, keys());
    assert_eq!(frame.template_hits.len(), 17);
    assert_eq!(menu.highlighted, 17, "the highlight stays within the rows");
    let frame = open_menu_frame(
        &mut menu,
        &snapshot,
        MenuKeys {
            down: true,
            enter: true,
            ..keys()
        },
    );
    assert!(matches!(frame.action, Some(AddAction::Template(ADD_DATA_INDEX))));
    let frame = open_menu_frame(
        &mut menu,
        &snapshot,
        MenuKeys {
            down: true,
            enter: true,
            ..keys()
        },
    );
    assert!(matches!(frame.action, Some(AddAction::Template(0))));

    menu.mode = AddMenuMode::Data;
    menu.query = "alt".to_owned();
    menu.highlighted = 1;
    let frame = open_menu_frame(&mut menu, &snapshot, keys());
    match accept_add_action(&menu, &frame.template_hits, &frame.data_hits) {
        Some(AddAction::Data(hit)) => {
            assert_eq!(hit.label, "flight_02 › GPS › Alt");
            let cells = data_cells(&hit);
            assert_eq!(cells, ["flight_02", "GPS", "Alt", "m"]);
        }
        _ => panic!("a data row should be accepted"),
    }
    let frame = open_menu_frame(
        &mut menu,
        &snapshot,
        MenuKeys {
            escape: true,
            ..keys()
        },
    );
    assert!(matches!(frame.action, Some(AddAction::Close)));
    assert_eq!(hint_text(AddMenuMode::Templates), "Search nodes");
}
