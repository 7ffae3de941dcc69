use std::path::PathBuf;

use delog_app::calendar::{civil_from_days, format_iso8601_utc};
use delog_app::image_export::{
    crop_color_image, encode_png, pixel_rect_for_image, png_path, ColorImage, PixelRect,
    PngWriteRequest,
};
use delog_app::kml_export::{
    build_kml, kml_color, split_segments, times_are_representable, utc_offset_us, xml_escape,
    AnchorField, AnchorSample, GeodeticSample, KmlVehicle,
};

fn sample(t_us: i64) -> GeodeticSample {
    GeodeticSample {
        t_us,
        lat_deg: 47.5.to_string(),
        lon_deg: 8.25.to_string(),
        alt_m: 400.0.to_string(),
    }
}

fn gps_vehicle(points: Option<Vec<Option<GeodeticSample>>>) -> KmlVehicle {
    KmlVehicle {
        label: "Drone <1>".into(),
        show: true,
        path_color: [0x11, 0x22, 0x33, 0xff],
        source: 0,
        points,
    }
}

fn count(haystack: &str, needle: &str) -> usize {
    haystack.matches(needle).count()
}

#[test]
fn xml_escape_replaces_markup_characters() {
    assert_eq!(xml_escape("<A & \"B's\">"), "&lt;A &amp; &quot;B&apos;s&quot;&gt;");
}

#[test]
fn kml_color_is_aabbggrr() {
    assert_eq!(kml_color([0x11, 0x22, 0x33, 0xff]), "ff332211");
}

#[test]
fn iso8601_formats_epoch_and_known_dates() {
    assert_eq!(format_iso8601_utc(0), "1970-01-01T00:00:00.000Z");
    assert_eq!(
        format_iso8601_utc(1_600_000_000_000_000),
        "2020-09-13T12:26:40.000Z"
    );
    assert_eq!(format_iso8601_utc(-1_000), "1969-12-31T23:59:59.999Z");
}

#[test]
fn dates_cover_leap_years_and_the_far_past() {
    assert_eq!(civil_from_days(0), (1970, 1, 1));
    assert_eq!(civil_from_days(11_016), (2000, 2, 29));
    assert_eq!(civil_from_days(11_017), (2000, 3, 1));
    assert_eq!(civil_from_days(-719_468), (0, 3, 1));
    assert_eq!(civil_from_days(-719_529), (-1, 12, 31));
    assert_eq!(format_iso8601_utc(i64::MIN).len(), "-290308-12-21T19:59:05.224Z".len());
}

#[test]
fn split_segments_breaks_on_gaps_and_drops_empty_runs() {
    let pts = vec![None, Some(sample(0)), None, Some(sample(1)), Some(sample(2)), None];
    let segs = split_segments(&pts);
    assert_eq!(segs.len(), 2);
    assert_eq!(segs[0].len(), 1);
    assert_eq!(segs[1].len(), 2);
    assert!(split_segments(&vec![None, None]).is_empty());
}

#[test]
fn build_kml_emits_styled_track_for_gps_vehicle() {
    let at = |t_us, alt: f64| {
        Some(GeodeticSample {
            alt_m: alt.to_string(),
            ..sample(t_us)
        })
    };
    let points = vec![at(0, 400.0), at(1_000_000, 401.0), at(2_000_000, 402.0)];
    let out = build_kml(&Vec::new(), &vec![gps_vehicle(Some(points))]);
    assert_eq!(out.exported, 1);
    assert!(out.skipped.is_empty());
    assert!(out.xml.contains("<name>Drone &lt;1&gt;</name>"), "{}", out.xml);
    assert!(out.xml.contains("ff332211"));
    assert!(out.xml.contains("<altitudeMode>absolute</altitudeMode>"));
    assert_eq!(count(&out.xml, "<when>"), 3);
    assert_eq!(count(&out.xml, "<gx:coord>8.25 47.5 400"), 1);
    assert!(out.xml.contains("<when>1970-01-01T00:00:00.000Z</when>"));
}

#[test]
fn build_kml_writes_the_whole_document() {
    let out = build_kml(&Vec::new(), &vec![gps_vehicle(Some(vec![Some(sample(0))]))]);
    assert_eq!(
        out.xml,
        "<?xml version=\"1.0\" encoding=\"UTF-8\"?>\n\
         <kml xmlns=\"http://www.opengis.net/kml/2.2\" xmlns:gx=\"http://www.google.com/kml/ext/2.2\">\n\
         <Document>\n  <name>DeLOG trajectories</name>\n\
         \x20 <Style id=\"veh0\"><LineStyle><color>ff332211</color><width>2</width></LineStyle></Style>\n\
         \x20 <Placemark>\n    <name>Drone &lt;1&gt;</name>\n    <styleUrl>#veh0</styleUrl>\n    <gx:MultiTrack>\n      <altitudeMode>absolute</altitudeMode>\n\
         \x20     <gx:Track>\n        <when>1970-01-01T00:00:00.000Z</when>\n        <gx:coord>8.25 47.5 400</gx:coord>\n      </gx:Track>\n\
         \x20   </gx:MultiTrack>\n  </Placemark>\n</Document>\n</kml>\n"
    );
}

#[test]
fn build_kml_splits_tracks_at_gaps() {
    let points = vec![Some(sample(0)), None, Some(sample(2_000_000))];
    let out = build_kml(&Vec::new(), &vec![gps_vehicle(Some(points))]);
    assert_eq!(count(&out.xml, "<gx:Track>"), 2, "{}", out.xml);
}

fn anchor(name: &str, source: Option<u32>, samples: Vec<AnchorSample>) -> AnchorField {
    AnchorField {
        name: name.to_owned(),
        removed: false,
        source,
        samples,
    }
}

#[test]
fn build_kml_anchors_when_to_utc_field() {
    let base = 1_600_000_000_000_000;
    let fields = vec![anchor(
        "time_utc_usec",
        Some(0),
        vec![
            AnchorSample {
                utc_us: base,
                raw_time_us: 0,
            },
            AnchorSample {
                utc_us: base + 1_000_000,
                raw_time_us: 1_000_000,
            },
        ],
    )];
    let points = vec![Some(sample(0)), Some(sample(1_000_000))];
    let out = build_kml(&fields, &vec![gps_vehicle(Some(points))]);
    assert!(
        out.xml.contains("<when>2020-09-13T12:26:40.000Z</when>"),
        "{}",
        out.xml
    );
    assert!(out.xml.contains("<when>2020-09-13T12:26:41.000Z</when>"));
}

#[test]
fn anchors_are_taken_from_the_first_usable_field_of_the_source() {
    let hit = |utc_us| AnchorSample {
        utc_us,
        raw_time_us: 100,
    };
    let mut removed = anchor("utc_usec", Some(3), vec![hit(1_000)]);
    removed.removed = true;
    let fields = vec![
        removed,
        anchor("lat", Some(3), vec![hit(2_000)]),
        anchor("utc_usec", Some(4), vec![hit(3_000)]),
        anchor("utc_usec", None, vec![hit(4_000)]),
        anchor("utc_usec", Some(3), vec![hit(0), hit(0)]),
        anchor("time_utc_usec", Some(3), vec![hit(0), hit(5_000), hit(6_000)]),
    ];
    assert_eq!(utc_offset_us(&fields, 3), Some(4_900));
    assert_eq!(utc_offset_us(&fields, 9), None);
}

#[test]
fn the_anchor_is_the_first_sample_that_is_not_zero() {
    let at = |utc_us, raw_time_us| AnchorSample {
        utc_us,
        raw_time_us,
    };
    let offset = |samples| utc_offset_us(&vec![anchor("time_utc_usec", Some(0), samples)], 0);
    assert_eq!(offset(vec![at(0, 0), at(5_000_000, 500_000)]), Some(4_500_000));
    assert_eq!(offset(vec![at(0, 0), at(-7, 3), at(9, 4)]), Some(-10));
    assert_eq!(offset(vec![at(0, 0), at(0, 1)]), None);
    assert_eq!(offset(Vec::new()), None);
}

#[test]
fn build_kml_skips_hidden_vehicles_silently() {
    let mut v = gps_vehicle(Some(vec![Some(sample(0))]));
    v.show = false;
    let out = build_kml(&Vec::new(), &vec![v]);
    assert_eq!(out.exported, 0);
    assert!(out.skipped.is_empty());
}

fn named(label: &str, show: bool, points: Option<Vec<Option<GeodeticSample>>>) -> KmlVehicle {
    let mut vehicle = gps_vehicle(points);
    vehicle.label = label.to_owned();
    vehicle.show = show;
    vehicle
}

#[test]
fn only_exported_vehicles_need_representable_times() {
    let early = AnchorSample {
        utc_us: i64::MIN,
        raw_time_us: 1,
    };
    let far = vec![anchor("time_utc_usec", Some(0), vec![early])];
    let points = || Some(vec![Some(sample(0))]);
    assert!(!times_are_representable(&far, &vec![named("a", true, points())]));
    assert!(times_are_representable(&far, &vec![named("a", false, points())]));
    assert!(times_are_representable(&far, &vec![named("a", true, None)]));
    assert!(times_are_representable(&far, &vec![named("a", true, Some(vec![None]))]));
    let elsewhere = vec![anchor("time_utc_usec", Some(9), vec![early])];
    assert!(times_are_representable(&elsewhere, &vec![named("a", true, points())]));
    let second = AnchorSample {
        utc_us: 10,
        raw_time_us: 4,
    };
    let fields = vec![anchor("time_utc_usec", Some(0), vec![second, early])];
    assert_eq!(utc_offset_us(&fields, 0), Some(6));
    let late = |t_us| Some(vec![None, Some(sample(t_us))]);
    assert!(times_are_representable(&fields, &vec![named("a", true, late(i64::MAX - 6))]));
    assert!(!times_are_representable(&fields, &vec![named("a", true, late(i64::MAX - 5))]));
}

#[test]
fn every_shown_vehicle_is_exported_or_skipped() {
    let points = || Some(vec![Some(sample(0))]);
    let vehicles = vec![
        named("one", true, points()),
        named("two", true, None),
        named("three", false, points()),
        named("four", true, points()),
        named("five", true, Some(vec![None])),
    ];
    let out = build_kml(&Vec::new(), &vehicles);
    assert_eq!(out.exported, 2);
    assert_eq!(out.skipped, vec!["two".to_owned(), "five".to_owned()]);
    assert_eq!(out.xml.matches("<Placemark>").count(), 2);
    let hidden = vec![
        named("one", true, points()),
        named("two", true, None),
        named("other", false, None),
        named("four", true, points()),
        named("five", true, Some(vec![None])),
    ];
    assert_eq!(build_kml(&Vec::new(), &hidden).xml, out.xml);
}

#[test]
fn build_kml_reports_ned_vehicle_without_reference_as_skipped() {
    let out = build_kml(&Vec::new(), &vec![gps_vehicle(None)]);
    assert_eq!(out.exported, 0);
    assert_eq!(out.skipped, vec!["Drone <1>".to_string()]);
}

#[test]
fn pixel_rect_clamps_to_image_bounds() {
    // The corners (-2, 1) and (6.25, 4.75) at two pixels per point.
    let got = pixel_rect_for_image([0, 2], [13, 10], [10, 8]);

    assert_eq!(got, Some(PixelRect { x: 0, y: 2, w: 10, h: 6 }));
}

#[test]
fn pixel_rect_rejects_empty_after_clamp() {
    let got = pixel_rect_for_image([9, 0], [12, 2], [8, 8]);

    assert_eq!(got, None);
}

#[test]
fn crop_color_image_returns_selected_pixels() {
    let pixels = (0..16u8).map(|i| [i, i + 1, i + 2, 255]).collect();
    let image = ColorImage {
        size: [4, 4],
        pixels,
    };

    let crop = crop_color_image(&image, [1, 1], [3, 3]).expect("crop should be valid");

    assert_eq!(crop.size, [2, 2]);
    assert_eq!(crop.pixels[0], [5, 6, 7, 255]);
    assert_eq!(crop.pixels[3], [10, 11, 12, 255]);
    assert!(crop_color_image(&image, [4, 0], [9, 9]).is_none());
}

#[test]
fn encode_png_writes_png_signature() {
    let image = ColorImage {
        size: [2, 1],
        pixels: vec![[1, 2, 3, 255]; 2],
    };

    let bytes = match encode_png(&image) {
        Ok(bytes) => bytes,
        Err(_) => panic!("png encoding should succeed"),
    };

    assert_eq!(&bytes[..8], b"\x89PNG\r\n\x1a\n");
    let empty = ColorImage {
        size: [0, 5],
        pixels: Vec::new(),
    };
    assert!(encode_png(&empty).is_err());
}

#[test]
fn encoded_images_decode_to_their_pixels() {
    let image = ColorImage {
        size: [2, 2],
        pixels: vec![[1, 2, 3, 4], [5, 6, 7, 8], [9, 10, 11, 12], [13, 14, 15, 16]],
    };
    let bytes = match encode_png(&image) {
        Ok(bytes) => bytes,
        Err(_) => panic!("png encoding should succeed"),
    };
    let decoded = image::load_from_memory(&bytes).unwrap().to_rgba8();
    assert_eq!(decoded.dimensions(), (2, 2));
    assert_eq!(decoded.into_raw(), (1..=16u8).collect::<Vec<u8>>());
}

#[test]
fn png_path_adds_png_extension_when_missing() {
    assert_eq!(png_path(PathBuf::from("capture")).as_os_str(), "capture.png");
    assert_eq!(png_path(PathBuf::from("capture.png")).as_os_str(), "capture.png");
}

#[test]
fn png_path_changes_nothing_more_the_second_time() {
    for text in ["capture", "a.b/c.jpg", "a/", "..", "/", "", ".png", "..x"] {
        let once = png_path(PathBuf::from(text));
        assert_eq!(png_path(once.clone()), once, "{text}");
        assert_eq!(once.parent(), PathBuf::from(text).parent(), "{text}");
    }
    assert_eq!(png_path(PathBuf::from("..")), PathBuf::from(".."));
}

#[test]
fn png_path_replaces_other_extensions_only() {
    assert_eq!(png_path(PathBuf::from("a.b/c.jpg")).as_os_str(), "a.b/c.png");
    assert_eq!(png_path(PathBuf::from("a.b/.hidden")).as_os_str(), "a.b/.hidden.png");
    assert_eq!(png_path(PathBuf::from("x.PNG")).as_os_str(), "x.png");
}

#[test]
fn png_write_request_normalizes_path_and_preserves_bytes() {
    let request = PngWriteRequest::new(PathBuf::from("capture"), vec![1, 2, 3]);

    assert_eq!(request.path.as_os_str(), "capture.png");
    assert_eq!(request.png_bytes, vec![1, 2, 3]);
}
