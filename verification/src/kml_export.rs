//! KML (Google Earth) export of vehicle trajectories: one `<Placemark>` with a
//! `<gx:MultiTrack>` per vehicle, timestamps anchored to UTC when the log
//! carries an anchor field.

use crate::calendar::{format_iso8601_utc, iso8601};
use crate::text::{chars_of, decimal, push_decimal, same_text, views};
use vstd::prelude::*;

verus! {

/// What stands for a character in XML text.
pub open spec fn escaped_char(c: char) -> Seq<char> {
    if c == '&' {
        "&amp;"@
    } else if c == '<' {
        "&lt;"@
    } else if c == '>' {
        "&gt;"@
    } else if c == '"' {
        "&quot;"@
    } else if c == '\'' {
        "&apos;"@
    } else {
        seq![c]
    }
}

/// What stands for a text in XML.
pub open spec fn escaped(s: Seq<char>) -> Seq<char>
    decreases s.len(),
{
    if s.len() == 0 {
        Seq::empty()
    } else {
        escaped(s.drop_last()) + escaped_char(s.last())
    }
}

/// A character that XML gives a meaning, other than the ampersand.
pub open spec fn is_markup(c: char) -> bool {
    c == '<' || c == '>' || c == '"' || c == '\''
}

/// No markup character survives escaping.
pub proof fn escaped_text_has_no_markup(s: Seq<char>)
    ensures
        forall|i: int| 0 <= i < escaped(s).len() ==> !is_markup(#[trigger] escaped(s)[i]),
    decreases s.len(),
{
    reveal_strlit("&amp;");
    reveal_strlit("&lt;");
    reveal_strlit("&gt;");
    reveal_strlit("&quot;");
    reveal_strlit("&apos;");
    if s.len() > 0 {
        escaped_text_has_no_markup(s.drop_last());
        let head = escaped(s.drop_last());
        let tail = escaped_char(s.last());
        assert forall|i: int| 0 <= i < escaped(s).len() implies !is_markup(
            #[trigger] escaped(s)[i],
        ) by {
            if i < head.len() {
                assert(escaped(s)[i] == head[i]);
            } else {
                assert(escaped(s)[i] == tail[i - head.len()]);
            }
        }
    }
}

/// Replaces the characters to which XML gives a meaning.
pub fn xml_escape(s: &str) -> (r: String)
    ensures
        r@ == escaped(s@),
{
    let chars = chars_of(s);
    let mut out = String::new();
    let mut i: usize = 0;
    proof {
        assert(chars@.take(0) =~= Seq::<char>::empty());
    }
    while i < chars.len()
        invariant
            i <= chars@.len(),
            out@ == escaped(chars@.take(i as int)),
        decreases chars@.len() - i,
    {
        let c = chars[i];
        let ghost before = out@;
        match c {
            '&' => out.append("&amp;"),
            '<' => out.append("&lt;"),
            '>' => out.append("&gt;"),
            '"' => out.append("&quot;"),
            '\'' => out.append("&apos;"),
            _ => out.push(c),
        }
        proof {
            assert(chars@.take(i + 1).drop_last() =~= chars@.take(i as int));
            assert(chars@.take(i + 1).last() == c);
            assert(out@ =~= before + escaped_char(c));
        }
        i = i + 1;
    }
    proof {
        assert(chars@.take(i as int) =~= s@);
    }
    out
}

/// The lower-case hexadecimal digit of `d`.
pub open spec fn hex_digit(d: int) -> char {
    if d < 10 {
        (48 + d) as u8 as char
    } else {
        (87 + d) as u8 as char
    }
}

/// A byte as two hexadecimal digits.
pub open spec fn hex_byte(b: u8) -> Seq<char> {
    seq![hex_digit(b as int / 16), hex_digit(b as int % 16)]
}

/// A colour as KML writes it: alpha, blue, green, red.
pub open spec fn kml_color_text(rgba: [u8; 4]) -> Seq<char> {
    hex_byte(rgba[3]) + hex_byte(rgba[2]) + hex_byte(rgba[1]) + hex_byte(rgba[0])
}

fn hex_digit_char(d: u8) -> (r: char)
    requires
        d < 16,
    ensures
        r == hex_digit(d as int),
{
    if d < 10 {
        (48 + d) as char
    } else {
        (87 + d) as char
    }
}

fn push_hex_byte(out: &mut String, b: u8)
    ensures
        final(out)@ == old(out)@ + hex_byte(b),
{
    out.push(hex_digit_char(b / 16));
    out.push(hex_digit_char(b % 16));
    proof {
        assert(out@ =~= old(out)@ + hex_byte(b));
    }
}

/// KML colours are `aabbggrr` hex: reversed byte order from RGBA.
pub fn kml_color(rgba: [u8; 4]) -> (r: String)
    ensures
        r@ == kml_color_text(rgba),
{
    let mut out = String::new();
    push_hex_byte(&mut out, rgba[3]);
    push_hex_byte(&mut out, rgba[2]);
    push_hex_byte(&mut out, rgba[1]);
    push_hex_byte(&mut out, rgba[0]);
    proof {
        assert(out@ =~= kml_color_text(rgba));
    }
    out
}

/// A position with its time. The coordinates are decimal numbers.
#[derive(Clone, Debug)]
pub struct GeodeticSample {
    pub t_us: i64,
    pub lat_deg: String,
    pub lon_deg: String,
    pub alt_m: String,
}

#[verifier::ext_equal]
pub ghost struct SampleView {
    pub t_us: i64,
    pub lat_deg: Seq<char>,
    pub lon_deg: Seq<char>,
    pub alt_m: Seq<char>,
}

impl View for GeodeticSample {
    type V = SampleView;

    open spec fn view(&self) -> SampleView {
        SampleView {
            t_us: self.t_us,
            lat_deg: self.lat_deg@,
            lon_deg: self.lon_deg@,
            alt_m: self.alt_m@,
        }
    }
}

impl GeodeticSample {
    fn duplicate(&self) -> (r: GeodeticSample)
        ensures
            r@ == self@,
    {
        GeodeticSample {
            t_us: self.t_us,
            lat_deg: self.lat_deg.clone(),
            lon_deg: self.lon_deg.clone(),
            alt_m: self.alt_m.clone(),
        }
    }
}

pub open spec fn segment_view(segment: Seq<GeodeticSample>) -> Seq<SampleView> {
    Seq::new(segment.len(), |i: int| segment[i]@)
}

pub open spec fn segment_views(segments: Seq<Vec<GeodeticSample>>) -> Seq<Seq<SampleView>> {
    Seq::new(segments.len(), |i: int| segment_view(segments[i]@))
}

pub open spec fn point_views(points: Seq<Option<GeodeticSample>>) -> Seq<Option<SampleView>> {
    Seq::new(
        points.len(),
        |i: int|
            match points[i] {
                Some(p) => Some(p@),
                None => None,
            },
    )
}

/// The finished segments and the open one after a point stream.
pub open spec fn split_state<T>(points: Seq<Option<T>>) -> (Seq<Seq<T>>, Seq<T>)
    decreases points.len(),
{
    if points.len() == 0 {
        (Seq::empty(), Seq::empty())
    } else {
        let (done, open) = split_state(points.drop_last());
        match points.last() {
            Some(p) => (done, open.push(p)),
            None => if open.len() > 0 {
                (done.push(open), Seq::empty())
            } else {
                (done, open)
            },
        }
    }
}

/// The maximal runs of points without a gap.
pub open spec fn segments_of<T>(points: Seq<Option<T>>) -> Seq<Seq<T>> {
    let (done, open) = split_state(points);
    if open.len() > 0 {
        done.push(open)
    } else {
        done
    }
}

/// The points of a stream without its gaps.
pub open spec fn present<T>(points: Seq<Option<T>>) -> Seq<T>
    decreases points.len(),
{
    if points.len() == 0 {
        Seq::empty()
    } else {
        match points.last() {
            Some(p) => present(points.drop_last()).push(p),
            None => present(points.drop_last()),
        }
    }
}

proof fn lemma_split_state<T>(points: Seq<Option<T>>)
    ensures
        split_state(points).0.flatten() + split_state(points).1 == present(points),
        forall|i: int|
            0 <= i < split_state(points).0.len() ==> (#[trigger] split_state(points).0[i]).len() > 0,
    decreases points.len(),
{
    if points.len() > 0 {
        lemma_split_state(points.drop_last());
        let (done, open) = split_state(points.drop_last());
        match points.last() {
            Some(p) => {
                assert(done.flatten() + open.push(p) =~= (done.flatten() + open).push(p));
            },
            None => {
                if open.len() > 0 {
                    done.lemma_flatten_push(open);
                    assert(done.push(open).flatten() + Seq::<T>::empty() =~= done.flatten() + open);
                }
            },
        }
    } else {
        assert(Seq::<Seq<T>>::empty().flatten() + Seq::<T>::empty() =~= Seq::<T>::empty());
    }
}

/// Splitting at gaps drops the gaps and nothing else, and yields no empty segment.
pub proof fn segments_keep_every_point<T>(points: Seq<Option<T>>)
    ensures
        segments_of(points).flatten() == present(points),
        forall|i: int|
            0 <= i < segments_of(points).len() ==> (#[trigger] segments_of(points)[i]).len() > 0,
{
    lemma_split_state(points);
    let (done, open) = split_state(points);
    if open.len() > 0 {
        done.lemma_flatten_push(open);
    } else {
        assert(done.flatten() + open =~= done.flatten());
    }
}

/// Splits a gap-marked point stream into contiguous segments, dropping gaps.
pub fn split_segments(points: &Vec<Option<GeodeticSample>>) -> (r: Vec<Vec<GeodeticSample>>)
    ensures
        segment_views(r@) == segments_of(point_views(points@)),
{
    let ghost all = point_views(points@);
    let mut segments: Vec<Vec<GeodeticSample>> = Vec::new();
    let mut current: Vec<GeodeticSample> = Vec::new();
    let mut i: usize = 0;
    proof {
        assert(all.take(0) =~= Seq::<Option<SampleView>>::empty());
        assert(segment_views(segments@) =~= Seq::<Seq<SampleView>>::empty());
        assert(segment_view(current@) =~= Seq::<SampleView>::empty());
    }
    while i < points.len()
        invariant
            i <= points@.len(),
            all == point_views(points@),
            split_state(all.take(i as int)) == (segment_views(segments@), segment_view(current@)),
        decreases points@.len() - i,
    {
        proof {
            assert(all.take(i + 1).drop_last() =~= all.take(i as int));
            assert(all.take(i + 1).last() == all[i as int]);
        }
        let ghost open = segment_view(current@);
        let ghost done = segment_views(segments@);
        match &points[i] {
            Some(p) => {
                current.push(p.duplicate());
                proof {
                    assert(segment_view(current@) =~= open.push(p@));
                }
            },
            None => {
                if current.len() > 0 {
                    segments.push(current);
                    current = Vec::new();
                    proof {
                        assert(segment_views(segments@) =~= done.push(open));
                        assert(segment_view(current@) =~= Seq::<SampleView>::empty());
                    }
                }
            },
        }
        i = i + 1;
    }
    proof {
        assert(all.take(i as int) =~= all);
    }
    let ghost open = segment_view(current@);
    let ghost done = segment_views(segments@);
    if current.len() > 0 {
        segments.push(current);
        proof {
            assert(segment_views(segments@) =~= done.push(open));
        }
    }
    segments
}

/// The segments of one vehicle from its positions, `None` where it has no
/// positions or none without a gap: it cannot be placed on the map.
pub open spec fn geo_segments(points: Option<Seq<Option<SampleView>>>) -> Option<
    Seq<Seq<SampleView>>,
> {
    match points {
        Some(points) => if segments_of(points).len() > 0 {
            Some(segments_of(points))
        } else {
            None
        },
        None => None,
    }
}

pub open spec fn optional_points(points: Option<Vec<Option<GeodeticSample>>>) -> Option<
    Seq<Option<SampleView>>,
> {
    match points {
        Some(points) => Some(point_views(points@)),
        None => None,
    }
}

/// Geodetic segments for one vehicle, or `None` when it cannot be geolocated.
pub fn vehicle_geo_segments(points: &Option<Vec<Option<GeodeticSample>>>) -> (r: Option<
    Vec<Vec<GeodeticSample>>,
>)
    ensures
        geo_segments(optional_points(*points)) == match r {
            Some(segments) => Some(segment_views(segments@)),
            None => None,
        },
{
    match points {
        Some(points) => {
            let segments = split_segments(points);
            if segments.len() > 0 {
                Some(segments)
            } else {
                None
            }
        },
        None => None,
    }
}

/// A field that may carry an absolute UTC timestamp.
pub struct AnchorField {
    pub name: String,
    pub removed: bool,
    /// The source of the field's topic.
    pub source: Option<u32>,
    /// Every sample of the field that is a number, in order.
    pub samples: Vec<AnchorSample>,
}

/// A UTC timestamp and the time at which the log holds it, in microseconds. A
/// timestamp of zero stands for none.
#[derive(Clone, Copy, Debug, PartialEq, Eq, Structural)]
pub struct AnchorSample {
    pub utc_us: i64,
    pub raw_time_us: i64,
}

/// Field names that carry an absolute UTC timestamp (µs) alongside canonical
/// time (e.g. ULog `vehicle_gps_position.time_utc_usec`).
pub open spec fn is_utc_field_name(name: Seq<char>) -> bool {
    name == "time_utc_usec"@ || name == "utc_usec"@
}

/// Whether `k` is the first sample whose UTC value is not zero.
pub open spec fn is_first_anchor(samples: Seq<AnchorSample>, k: int) -> bool {
    &&& 0 <= k < samples.len()
    &&& samples[k].utc_us != 0
    &&& forall|j: int| 0 <= j < k ==> (#[trigger] samples[j]).utc_us == 0
}

/// The first sample whose UTC value is not zero.
pub open spec fn first_anchor(samples: Seq<AnchorSample>) -> Option<AnchorSample> {
    if exists|k: int| is_first_anchor(samples, k) {
        Some(samples[choose|k: int| is_first_anchor(samples, k)])
    } else {
        None
    }
}

/// The sample that anchors `source`, from the fields at or behind `i`.
pub open spec fn anchor_from(fields: Seq<AnchorField>, source: u32, i: int) -> Option<AnchorSample>
    decreases fields.len() - i,
{
    if i < 0 || i >= fields.len() {
        None
    } else {
        let f = fields[i];
        let found = first_anchor(f.samples@);
        if !f.removed && is_utc_field_name(f.name@) && f.source == Some(source) && found is Some {
            found
        } else {
            anchor_from(fields, source, i + 1)
        }
    }
}

/// Boot to UTC offset (µs) of a source.
pub open spec fn utc_offset(fields: Seq<AnchorField>, source: u32) -> Option<int> {
    match anchor_from(fields, source, 0) {
        Some(s) => Some(s.utc_us - s.raw_time_us),
        None => None,
    }
}

/// The offset of a source is representable.
pub open spec fn anchor_fits(fields: Seq<AnchorField>, source: u32) -> bool {
    anchor_from(fields, source, 0) matches Some(s) ==> i64::MIN <= s.utc_us - s.raw_time_us
        <= i64::MAX
}

fn find_anchor(samples: &Vec<AnchorSample>) -> (r: Option<AnchorSample>)
    ensures
        r == first_anchor(samples@),
{
    let mut i: usize = 0;
    while i < samples.len()
        invariant
            i <= samples@.len(),
            forall|j: int| 0 <= j < i ==> (#[trigger] samples@[j]).utc_us == 0,
        decreases samples@.len() - i,
    {
        if samples[i].utc_us != 0 {
            proof {
                assert(is_first_anchor(samples@, i as int));
                let k = choose|k: int| is_first_anchor(samples@, k);
                assert(k == i);
            }
            return Some(samples[i]);
        }
        i = i + 1;
    }
    None
}

/// The sample that anchors a source: the first with a non-zero UTC value in the
/// first field of the source that has one.
fn source_anchor(fields: &Vec<AnchorField>, source: u32) -> (r: Option<AnchorSample>)
    ensures
        r == anchor_from(fields@, source, 0),
{
    let mut i: usize = 0;
    while i < fields.len()
        invariant
            i <= fields@.len(),
            anchor_from(fields@, source, 0) == anchor_from(fields@, source, i as int),
        decreases fields@.len() - i,
    {
        let f = &fields[i];
        let same_source = match f.source {
            Some(s) => s == source,
            None => false,
        };
        let named = same_text(f.name.as_str(), "time_utc_usec") || same_text(
            f.name.as_str(),
            "utc_usec",
        );
        if !f.removed && named && same_source {
            if let Some(s) = find_anchor(&f.samples) {
                return Some(s);
            }
        }
        i = i + 1;
    }
    None
}

/// Boot to UTC offset (µs) for a source: UTC less log time at the first sample
/// with a non-zero UTC value. `None` when the log has no such sample.
pub fn utc_offset_us(fields: &Vec<AnchorField>, source: u32) -> (r: Option<i64>)
    requires
        anchor_fits(fields@, source),
    ensures
        utc_offset(fields@, source) == match r {
            Some(n) => Some(n as int),
            None => None,
        },
{
    match source_anchor(fields, source) {
        Some(s) => Some(s.utc_us - s.raw_time_us),
        None => None,
    }
}

/// A vehicle to export.
pub struct KmlVehicle {
    pub label: String,
    pub show: bool,
    pub path_color: [u8; 4],
    pub source: u32,
    /// Its positions with gaps, `None` where it cannot be geolocated.
    pub points: Option<Vec<Option<GeodeticSample>>>,
}

/// The outcome of an export.
pub struct KmlExport {
    pub xml: String,
    pub exported: usize,
    /// Labels of visible vehicles that could not be geolocated.
    pub skipped: Vec<String>,
}

/// The `<when>` lines of a segment.
pub open spec fn when_lines(segment: Seq<SampleView>, offset: int) -> Seq<char>
    decreases segment.len(),
{
    if segment.len() == 0 {
        Seq::empty()
    } else {
        when_lines(segment.drop_last(), offset) + "        <when>"@ + iso8601(
            segment.last().t_us + offset,
        ) + "</when>\n"@
    }
}

/// The `<gx:coord>` lines of a segment.
pub open spec fn coord_lines(segment: Seq<SampleView>) -> Seq<char>
    decreases segment.len(),
{
    if segment.len() == 0 {
        Seq::empty()
    } else {
        let p = segment.last();
        coord_lines(segment.drop_last()) + "        <gx:coord>"@ + p.lon_deg + " "@ + p.lat_deg
            + " "@ + p.alt_m + "</gx:coord>\n"@
    }
}

/// The tracks of a vehicle, one per segment.
pub open spec fn track_lines(segments: Seq<Seq<SampleView>>, offset: int) -> Seq<char>
    decreases segments.len(),
{
    if segments.len() == 0 {
        Seq::empty()
    } else {
        track_lines(segments.drop_last(), offset) + "      <gx:Track>\n"@ + when_lines(
            segments.last(),
            offset,
        ) + coord_lines(segments.last()) + "      </gx:Track>\n"@
    }
}

/// The style and the placemark of the vehicle at index `i`.
pub open spec fn vehicle_text(
    i: nat,
    color: [u8; 4],
    label: Seq<char>,
    segments: Seq<Seq<SampleView>>,
    offset: int,
) -> Seq<char> {
    "  <Style id=\"veh"@ + decimal(i) + "\"><LineStyle><color>"@ + kml_color_text(color)
        + "</color><width>2</width></LineStyle></Style>\n"@ + "  <Placemark>\n    <name>"@
        + escaped(label) + "</name>\n    <styleUrl>#veh"@ + decimal(i)
        + "</styleUrl>\n    <gx:MultiTrack>\n      <altitudeMode>absolute</altitudeMode>\n"@
        + track_lines(segments, offset) + "    </gx:MultiTrack>\n  </Placemark>\n"@
}

/// The offset that is added to the times of a vehicle.
pub open spec fn vehicle_offset(fields: Seq<AnchorField>, source: u32) -> int {
    match utc_offset(fields, source) {
        Some(offset) => offset,
        None => 0,
    }
}

/// The placemarks of the first `n` vehicles.
pub open spec fn body_text(
    fields: Seq<AnchorField>,
    vehicles: Seq<KmlVehicle>,
    n: nat,
) -> Seq<char>
    decreases n,
{
    if n == 0 {
        Seq::empty()
    } else {
        let rest = body_text(fields, vehicles, (n - 1) as nat);
        let v = vehicles[n - 1];
        match geo_segments(optional_points(v.points)) {
            Some(segments) => if v.show {
                rest + vehicle_text(
                    (n - 1) as nat,
                    v.path_color,
                    v.label@,
                    segments,
                    vehicle_offset(fields, v.source),
                )
            } else {
                rest
            },
            None => rest,
        }
    }
}

/// Number of exported vehicles among the first `n`.
pub open spec fn exported_count(vehicles: Seq<KmlVehicle>, n: nat) -> nat
    decreases n,
{
    if n == 0 {
        0
    } else {
        let v = vehicles[n - 1];
        exported_count(vehicles, (n - 1) as nat) + if v.show && geo_segments(
            optional_points(v.points),
        ) is Some {
            1nat
        } else {
            0nat
        }
    }
}

/// The labels of the first `n` vehicles that are shown but have no place on the map.
pub open spec fn skipped_labels(vehicles: Seq<KmlVehicle>, n: nat) -> Seq<Seq<char>>
    decreases n,
{
    if n == 0 {
        Seq::empty()
    } else {
        let rest = skipped_labels(vehicles, (n - 1) as nat);
        let v = vehicles[n - 1];
        if v.show && geo_segments(optional_points(v.points)) is None {
            rest.push(v.label@)
        } else {
            rest
        }
    }
}

/// The whole document around the placemarks.
pub open spec fn document_text(body: Seq<char>) -> Seq<char> {
    "<?xml version=\"1.0\" encoding=\"UTF-8\"?>\n<kml xmlns=\"http://www.opengis.net/kml/2.2\" xmlns:gx=\"http://www.google.com/kml/ext/2.2\">\n<Document>\n  <name>DeLOG trajectories</name>\n"@
        + body + "</Document>\n</kml>\n"@
}

/// The times of points, moved by `offset`, are representable.
pub open spec fn points_fit(points: Seq<Option<SampleView>>, offset: int) -> bool {
    forall|j: int|
        0 <= j < points.len() ==> (#[trigger] points[j] matches Some(p) ==> i64::MIN <= p.t_us
            + offset <= i64::MAX)
}

/// A vehicle that is exported has an offset and times that are representable.
pub open spec fn vehicle_fits(fields: Seq<AnchorField>, v: KmlVehicle) -> bool {
    v.show && geo_segments(optional_points(v.points)) is Some ==> anchor_fits(fields, v.source)
        && points_fit(optional_points(v.points).unwrap(), vehicle_offset(fields, v.source))
}

/// The offsets and times of all vehicles that are exported are representable.
pub open spec fn times_fit(fields: Seq<AnchorField>, vehicles: Seq<KmlVehicle>) -> bool {
    forall|i: int| 0 <= i < vehicles.len() ==> vehicle_fits(fields, #[trigger] vehicles[i])
}

/// The times of a segment, moved by `offset`, are representable.
pub open spec fn segment_fits(segment: Seq<SampleView>, offset: int) -> bool {
    forall|k: int|
        0 <= k < segment.len() ==> i64::MIN <= (#[trigger] segment[k]).t_us + offset <= i64::MAX
}

proof fn lemma_split_fits(points: Seq<Option<SampleView>>, offset: int)
    requires
        points_fit(points, offset),
    ensures
        segment_fits(split_state(points).1, offset),
        forall|i: int|
            0 <= i < split_state(points).0.len() ==> segment_fits(
                #[trigger] split_state(points).0[i],
                offset,
            ),
    decreases points.len(),
{
    if points.len() > 0 {
        let short = points.drop_last();
        assert forall|j: int| 0 <= j < short.len() implies (#[trigger] short[j] matches Some(p)
            ==> i64::MIN <= p.t_us + offset <= i64::MAX) by {
            assert(short[j] == points[j]);
        }
        lemma_split_fits(short, offset);
        assert(points[points.len() - 1] == points.last());
    }
}

proof fn lemma_segments_fit(points: Seq<Option<SampleView>>, offset: int)
    requires
        points_fit(points, offset),
    ensures
        forall|i: int|
            0 <= i < segments_of(points).len() ==> segment_fits(
                #[trigger] segments_of(points)[i],
                offset,
            ),
{
    lemma_split_fits(points, offset);
}

fn push_when_lines(out: &mut String, segment: &Vec<GeodeticSample>, offset: i64)
    requires
        segment_fits(segment_view(segment@), offset as int),
    ensures
        final(out)@ == old(out)@ + when_lines(segment_view(segment@), offset as int),
{
    let ghost all = segment_view(segment@);
    let mut i: usize = 0;
    proof {
        assert(all.take(0) =~= Seq::<SampleView>::empty());
        assert(out@ + Seq::<char>::empty() =~= out@);
    }
    while i < segment.len()
        invariant
            i <= segment@.len(),
            all == segment_view(segment@),
            segment_fits(all, offset as int),
            out@ == old(out)@ + when_lines(all.take(i as int), offset as int),
        decreases segment@.len() - i,
    {
        proof {
            assert(all.take(i + 1).drop_last() =~= all.take(i as int));
            assert(all.take(i + 1).last() == all[i as int]);
            assert(all[i as int] == segment@[i as int]@);
        }
        out.append("        <when>");
        let when = format_iso8601_utc(segment[i].t_us + offset);
        out.append(when.as_str());
        out.append("</when>\n");
        proof {
            assert(out@ =~= old(out)@ + when_lines(all.take(i + 1), offset as int));
        }
        i = i + 1;
    }
    proof {
        assert(all.take(i as int) =~= all);
    }
}

fn push_coord_lines(out: &mut String, segment: &Vec<GeodeticSample>)
    ensures
        final(out)@ == old(out)@ + coord_lines(segment_view(segment@)),
{
    let ghost all = segment_view(segment@);
    let mut i: usize = 0;
    proof {
        assert(all.take(0) =~= Seq::<SampleView>::empty());
        assert(out@ + Seq::<char>::empty() =~= out@);
    }
    while i < segment.len()
        invariant
            i <= segment@.len(),
            all == segment_view(segment@),
            out@ == old(out)@ + coord_lines(all.take(i as int)),
        decreases segment@.len() - i,
    {
        proof {
            assert(all.take(i + 1).drop_last() =~= all.take(i as int));
            assert(all.take(i + 1).last() == all[i as int]);
            assert(all[i as int] == segment@[i as int]@);
        }
        out.append("        <gx:coord>");
        out.append(segment[i].lon_deg.as_str());
        out.append(" ");
        out.append(segment[i].lat_deg.as_str());
        out.append(" ");
        out.append(segment[i].alt_m.as_str());
        out.append("</gx:coord>\n");
        proof {
            assert(out@ =~= old(out)@ + coord_lines(all.take(i + 1)));
        }
        i = i + 1;
    }
    proof {
        assert(all.take(i as int) =~= all);
    }
}

fn push_tracks(out: &mut String, segments: &Vec<Vec<GeodeticSample>>, offset: i64)
    requires
        forall|i: int|
            0 <= i < segments@.len() ==> segment_fits(
                #[trigger] segment_views(segments@)[i],
                offset as int,
            ),
    ensures
        final(out)@ == old(out)@ + track_lines(segment_views(segments@), offset as int),
{
    let ghost all = segment_views(segments@);
    let mut i: usize = 0;
    proof {
        assert(all.take(0) =~= Seq::<Seq<SampleView>>::empty());
        assert(out@ + Seq::<char>::empty() =~= out@);
    }
    while i < segments.len()
        invariant
            i <= segments@.len(),
            all == segment_views(segments@),
            forall|k: int|
                0 <= k < segments@.len() ==> segment_fits(#[trigger] all[k], offset as int),
            out@ == old(out)@ + track_lines(all.take(i as int), offset as int),
        decreases segments@.len() - i,
    {
        proof {
            assert(all.take(i + 1).drop_last() =~= all.take(i as int));
            assert(all.take(i + 1).last() == all[i as int]);
            assert(all[i as int] == segment_view(segments@[i as int]@));
        }
        out.append("      <gx:Track>\n");
        push_when_lines(out, &segments[i], offset);
        push_coord_lines(out, &segments[i]);
        out.append("      </gx:Track>\n");
        proof {
            assert(out@ =~= old(out)@ + track_lines(all.take(i + 1), offset as int));
        }
        i = i + 1;
    }
    proof {
        assert(all.take(i as int) =~= all);
    }
}

fn push_vehicle(
    out: &mut String,
    i: usize,
    vehicle: &KmlVehicle,
    segments: &Vec<Vec<GeodeticSample>>,
    offset: i64,
)
    requires
        forall|k: int|
            0 <= k < segments@.len() ==> segment_fits(
                #[trigger] segment_views(segments@)[k],
                offset as int,
            ),
    ensures
        final(out)@ == old(out)@ + vehicle_text(
            i as nat,
            vehicle.path_color,
            vehicle.label@,
            segment_views(segments@),
            offset as int,
        ),
{
    let color = kml_color(vehicle.path_color);
    let label = xml_escape(vehicle.label.as_str());
    out.append("  <Style id=\"veh");
    push_decimal(out, i as u64);
    out.append("\"><LineStyle><color>");
    out.append(color.as_str());
    out.append("</color><width>2</width></LineStyle></Style>\n");
    out.append("  <Placemark>\n    <name>");
    out.append(label.as_str());
    out.append("</name>\n    <styleUrl>#veh");
    push_decimal(out, i as u64);
    out.append(
        "</styleUrl>\n    <gx:MultiTrack>\n      <altitudeMode>absolute</altitudeMode>\n",
    );
    push_tracks(out, segments, offset);
    out.append("    </gx:MultiTrack>\n  </Placemark>\n");
    proof {
        assert(out@ =~= old(out)@ + vehicle_text(
            i as nat,
            vehicle.path_color,
            vehicle.label@,
            segment_views(segments@),
            offset as int,
        ));
    }
}

/// Whether the offset and the times of a vehicle are representable, where it is
/// exported.
fn vehicle_is_representable(fields: &Vec<AnchorField>, vehicle: &KmlVehicle) -> (r: bool)
    ensures
        r == vehicle_fits(fields@, *vehicle),
{
    if !vehicle.show || vehicle_geo_segments(&vehicle.points).is_none() {
        return true;
    }
    let offset: i64 = match source_anchor(fields, vehicle.source) {
        Some(s) => match s.utc_us.checked_sub(s.raw_time_us) {
            Some(offset) => offset,
            None => {
                return false;
            },
        },
        None => 0,
    };
    if let Some(points) = &vehicle.points {
        let ghost all = optional_points(vehicle.points).unwrap();
        let mut j: usize = 0;
        while j < points.len()
            invariant
                j <= points@.len(),
                vehicle.show && geo_segments(optional_points(vehicle.points)) is Some,
                offset == vehicle_offset(fields@, vehicle.source),
                all == point_views(points@),
                all == optional_points(vehicle.points).unwrap(),
                points_fit(all.take(j as int), offset as int),
            decreases points@.len() - j,
        {
            if let Some(p) = &points[j] {
                if p.t_us.checked_add(offset).is_none() {
                    proof {
                        assert(all[j as int] == Some(p@));
                    }
                    return false;
                }
            }
            proof {
                assert(all.take(j + 1).drop_last() =~= all.take(j as int));
                assert forall|k: int| 0 <= k < j + 1 implies (
                #[trigger] all.take(j + 1)[k] matches Some(p) ==> i64::MIN <= p.t_us + offset
                    <= i64::MAX) by {
                    if k < j {
                        assert(all.take(j as int)[k] == all[k]);
                    } else {
                        assert(all[k] == match points@[k] {
                            Some(p) => Some(p@),
                            None => None,
                        });
                    }
                }
            }
            j = j + 1;
        }
        proof {
            assert(all.take(j as int) =~= all);
        }
    }
    true
}

/// Whether the vehicles can be exported: the offsets and times of those that are
/// shown and geolocatable are representable.
pub fn times_are_representable(fields: &Vec<AnchorField>, vehicles: &Vec<KmlVehicle>) -> (r: bool)
    ensures
        r == times_fit(fields@, vehicles@),
{
    let mut i: usize = 0;
    while i < vehicles.len()
        invariant
            i <= vehicles@.len(),
            forall|k: int| 0 <= k < i ==> vehicle_fits(fields@, #[trigger] vehicles@[k]),
        decreases vehicles@.len() - i,
    {
        if !vehicle_is_representable(fields, &vehicles[i]) {
            return false;
        }
        i = i + 1;
    }
    true
}

/// One styled `<Placemark>`/`<gx:MultiTrack>` per visible, geolocatable vehicle.
pub fn build_kml(fields: &Vec<AnchorField>, vehicles: &Vec<KmlVehicle>) -> (r: KmlExport)
    requires
        times_fit(fields@, vehicles@),
    ensures
        r.xml@ == document_text(body_text(fields@, vehicles@, vehicles@.len())),
        r.exported == exported_count(vehicles@, vehicles@.len()),
        views(r.skipped@) == skipped_labels(vehicles@, vehicles@.len()),
{
    let mut body = String::new();
    let mut exported: usize = 0;
    let mut skipped: Vec<String> = Vec::new();
    let mut i: usize = 0;
    proof {
        assert(views(skipped@) =~= Seq::<Seq<char>>::empty());
    }
    while i < vehicles.len()
        invariant
            i <= vehicles@.len(),
            exported <= i,
            times_fit(fields@, vehicles@),
            body@ == body_text(fields@, vehicles@, i as nat),
            exported == exported_count(vehicles@, i as nat),
            views(skipped@) == skipped_labels(vehicles@, i as nat),
        decreases vehicles@.len() - i,
    {
        let v = &vehicles[i];
        let ghost labels = views(skipped@);
        if v.show {
            match vehicle_geo_segments(&v.points) {
                Some(segments) => {
                    proof {
                        assert(vehicle_fits(fields@, vehicles@[i as int]));
                    }
                    let offset: i64 = match utc_offset_us(fields, v.source) {
                        Some(n) => n,
                        None => 0,
                    };
                    proof {
                        lemma_segments_fit(point_views(v.points.unwrap()@), offset as int);
                    }
                    push_vehicle(&mut body, i, v, &segments, offset);
                    exported = exported + 1;
                },
                None => {
                    skipped.push(v.label.clone());
                    proof {
                        assert(views(skipped@) =~= labels.push(v.label@));
                    }
                },
            }
        }
        i = i + 1;
    }
    let mut xml = String::new();
    xml.append(
        "<?xml version=\"1.0\" encoding=\"UTF-8\"?>\n<kml xmlns=\"http://www.opengis.net/kml/2.2\" xmlns:gx=\"http://www.google.com/kml/ext/2.2\">\n<Document>\n  <name>DeLOG trajectories</name>\n",
    );
    xml.append(body.as_str());
    xml.append("</Document>\n</kml>\n");
    proof {
        assert(xml@ =~= document_text(body@));
    }
    KmlExport { xml, exported, skipped }
}

/// Number of shown vehicles among the first `n`.
pub open spec fn shown_count(vehicles: Seq<KmlVehicle>, n: nat) -> nat
    decreases n,
{
    if n == 0 {
        0
    } else {
        shown_count(vehicles, (n - 1) as nat) + if vehicles[n - 1].show {
            1nat
        } else {
            0nat
        }
    }
}

/// The placemarks of the exported vehicles among the first `n`.
pub open spec fn placemarks(
    fields: Seq<AnchorField>,
    vehicles: Seq<KmlVehicle>,
    n: nat,
) -> Seq<Seq<char>>
    decreases n,
{
    if n == 0 {
        Seq::empty()
    } else {
        let rest = placemarks(fields, vehicles, (n - 1) as nat);
        let v = vehicles[n - 1];
        match geo_segments(optional_points(v.points)) {
            Some(segments) => if v.show {
                rest.push(
                    vehicle_text(
                        (n - 1) as nat,
                        v.path_color,
                        v.label@,
                        segments,
                        vehicle_offset(fields, v.source),
                    ),
                )
            } else {
                rest
            },
            None => rest,
        }
    }
}

/// Every shown vehicle is either exported or named as skipped, and none is both.
pub proof fn shown_vehicles_are_exported_or_skipped(vehicles: Seq<KmlVehicle>, n: nat)
    requires
        n <= vehicles.len(),
    ensures
        exported_count(vehicles, n) + skipped_labels(vehicles, n).len() == shown_count(vehicles, n),
    decreases n,
{
    if n > 0 {
        shown_vehicles_are_exported_or_skipped(vehicles, (n - 1) as nat);
    }
}

/// The document holds one placemark for each exported vehicle, in the order of
/// the vehicles, and nothing else.
pub proof fn exported_vehicles_have_a_placemark_each(
    fields: Seq<AnchorField>,
    vehicles: Seq<KmlVehicle>,
    n: nat,
)
    requires
        n <= vehicles.len(),
    ensures
        placemarks(fields, vehicles, n).len() == exported_count(vehicles, n),
        body_text(fields, vehicles, n) == placemarks(fields, vehicles, n).flatten(),
    decreases n,
{
    if n == 0 {
        assert(placemarks(fields, vehicles, n).flatten() =~= Seq::empty());
    } else {
        let rest = placemarks(fields, vehicles, (n - 1) as nat);
        let all = placemarks(fields, vehicles, n);
        exported_vehicles_have_a_placemark_each(fields, vehicles, (n - 1) as nat);
        if all != rest {
            rest.lemma_flatten_push(all.last());
        }
    }
}

/// What a hidden vehicle is like leaves no trace in an export.
pub proof fn hidden_vehicles_leave_no_trace(
    fields: Seq<AnchorField>,
    vehicles: Seq<KmlVehicle>,
    others: Seq<KmlVehicle>,
    n: nat,
)
    requires
        n <= vehicles.len(),
        vehicles.len() == others.len(),
        forall|i: int|
            0 <= i < vehicles.len() ==> (#[trigger] vehicles[i]) == others[i] || !vehicles[i].show
                && !others[i].show,
    ensures
        body_text(fields, vehicles, n) == body_text(fields, others, n),
        exported_count(vehicles, n) == exported_count(others, n),
        skipped_labels(vehicles, n) == skipped_labels(others, n),
    decreases n,
{
    if n > 0 {
        hidden_vehicles_leave_no_trace(fields, vehicles, others, (n - 1) as nat);
        assert(vehicles[n - 1] == others[n - 1] || !vehicles[n - 1].show && !others[n - 1].show);
    }
}

} // verus!
