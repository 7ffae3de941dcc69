//! What holds of every exported track.

use crate::calendar::iso8601;
use crate::kml_export::{
    anchor_from, coord_lines, escaped, escaped_char, first_anchor, hex_digit, is_first_anchor,
    is_utc_field_name, kml_color_text, segments_of, split_state, track_lines, vehicle_offset,
    vehicle_text, when_lines, AnchorField, SampleView,
};
use crate::text::decimal;
use vstd::prelude::*;

verus! {

/// The k-th position of a track is that of the k-th sample of its segment, as
/// longitude, latitude and altitude, and the k-th time that of the same sample.
pub proof fn each_sample_has_its_own_lines(segment: Seq<SampleView>, offset: int)
    ensures
        coord_lines(segment) == Seq::new(
            segment.len(),
            |k: int|
                "        <gx:coord>"@ + segment[k].lon_deg + " "@ + segment[k].lat_deg + " "@
                    + segment[k].alt_m + "</gx:coord>\n"@,
        ).flatten(),
        when_lines(segment, offset) == Seq::new(
            segment.len(),
            |k: int| "        <when>"@ + iso8601(segment[k].t_us + offset) + "</when>\n"@,
        ).flatten(),
    decreases segment.len(),
{
    let coord = |p: SampleView|
        "        <gx:coord>"@ + p.lon_deg + " "@ + p.lat_deg + " "@ + p.alt_m + "</gx:coord>\n"@;
    let when = |p: SampleView| "        <when>"@ + iso8601(p.t_us + offset) + "</when>\n"@;
    let coords = Seq::new(
        segment.len(),
        |k: int|
            "        <gx:coord>"@ + segment[k].lon_deg + " "@ + segment[k].lat_deg + " "@
                + segment[k].alt_m + "</gx:coord>\n"@,
    );
    let whens = Seq::new(
        segment.len(),
        |k: int| "        <when>"@ + iso8601(segment[k].t_us + offset) + "</when>\n"@,
    );
    if segment.len() == 0 {
        assert(coords =~= Seq::empty());
        assert(whens =~= Seq::empty());
    } else {
        let short = segment.drop_last();
        let last = segment.last();
        each_sample_has_its_own_lines(short, offset);
        let c = Seq::new(
            short.len(),
            |k: int|
                "        <gx:coord>"@ + short[k].lon_deg + " "@ + short[k].lat_deg + " "@
                    + short[k].alt_m + "</gx:coord>\n"@,
        );
        let w = Seq::new(
            short.len(),
            |k: int| "        <when>"@ + iso8601(short[k].t_us + offset) + "</when>\n"@,
        );
        assert(coords =~= c.push(coord(last)));
        assert(whens =~= w.push(when(last)));
        c.lemma_flatten_push(coord(last));
        w.lemma_flatten_push(when(last));
        assert(coord_lines(segment) =~= coord_lines(short) + coord(last));
        assert(when_lines(segment, offset) =~= when_lines(short, offset) + when(last));
    }
}

/// Positions are written one behind the other, none depending on another.
pub proof fn positions_do_not_depend_on_one_another(a: Seq<SampleView>, b: Seq<SampleView>)
    ensures
        coord_lines(a + b) == coord_lines(a) + coord_lines(b),
    decreases b.len(),
{
    if b.len() == 0 {
        assert(a + b =~= a);
        assert(coord_lines(a) + coord_lines(b) =~= coord_lines(a));
    } else {
        positions_do_not_depend_on_one_another(a, b.drop_last());
        assert((a + b).drop_last() =~= a + b.drop_last());
        assert((a + b).last() == b.last());
        assert(coord_lines(a + b) =~= coord_lines(a) + coord_lines(b));
    }
}

/// The track of a segment: its times, then its positions.
pub open spec fn track_text(segment: Seq<SampleView>, offset: int) -> Seq<char> {
    "      <gx:Track>\n"@ + when_lines(segment, offset) + coord_lines(segment)
        + "      </gx:Track>\n"@
}

/// Each segment has a track of its own, in the order of the segments.
pub proof fn each_segment_has_its_own_track(segments: Seq<Seq<SampleView>>, offset: int)
    ensures
        track_lines(segments, offset) == Seq::new(
            segments.len(),
            |k: int| track_text(segments[k], offset),
        ).flatten(),
    decreases segments.len(),
{
    let tracks = Seq::new(segments.len(), |k: int| track_text(segments[k], offset));
    if segments.len() == 0 {
        assert(tracks =~= Seq::empty());
    } else {
        let short = segments.drop_last();
        each_segment_has_its_own_track(short, offset);
        let t = Seq::new(short.len(), |k: int| track_text(short[k], offset));
        assert(tracks =~= t.push(track_text(segments.last(), offset)));
        t.lemma_flatten_push(track_text(segments.last(), offset));
        assert(track_lines(segments, offset) =~= track_lines(short, offset) + track_text(
            segments.last(),
            offset,
        ));
    }
}

/// How many points of a stream have a gap, or nothing, before them.
pub open spec fn starts<T>(points: Seq<Option<T>>) -> nat
    decreases points.len(),
{
    if points.len() == 0 {
        0
    } else {
        starts(points.drop_last()) + if points.last() is Some && (points.len() == 1
            || points[points.len() - 2] is None) {
            1nat
        } else {
            0nat
        }
    }
}

/// A segment begins at each point that has a gap before it, and nowhere else.
pub proof fn segments_begin_behind_gaps<T>(points: Seq<Option<T>>)
    ensures
        segments_of(points).len() == starts(points),
        points.len() > 0 ==> (split_state(points).1.len() > 0 <==> points.last() is Some),
        points.len() == 0 ==> split_state(points).1.len() == 0,
    decreases points.len(),
{
    if points.len() > 0 {
        segments_begin_behind_gaps(points.drop_last());
        if points.len() > 1 {
            assert(points.drop_last().last() == points[points.len() - 2]);
        }
    }
}

/// The value of a hexadecimal digit.
pub open spec fn hex_value(c: char) -> int {
    if '0' <= c <= '9' {
        c as int - '0' as int
    } else {
        c as int - 'a' as int + 10
    }
}

proof fn lemma_hex_digit(d: int)
    requires
        0 <= d < 16,
    ensures
        hex_value(hex_digit(d)) == d,
{
    if d < 10 {
        assert((48 + d) as u8 as char as int == 48 + d);
    } else {
        assert((87 + d) as u8 as char as int == 87 + d);
    }
}

/// A colour is written with its channels reversed: alpha first, red last.
pub proof fn colors_are_written_backwards(rgba: [u8; 4])
    ensures
        kml_color_text(rgba).len() == 8,
        forall|p: int|
            0 <= p < 4 ==> 16 * hex_value(kml_color_text(rgba)[2 * p]) + hex_value(
                kml_color_text(rgba)[2 * p + 1],
            ) == #[trigger] rgba[3 - p],
{
    let text = kml_color_text(rgba);
    assert forall|p: int| 0 <= p < 4 implies 16 * hex_value(text[2 * p]) + hex_value(
        text[2 * p + 1],
    ) == #[trigger] rgba[3 - p] by {
        let b = rgba[3 - p] as int;
        lemma_hex_digit(b / 16);
        lemma_hex_digit(b % 16);
        if p == 0 {
            assert(text[0] == hex_digit(b / 16) && text[1] == hex_digit(b % 16));
        } else if p == 1 {
            assert(text[2] == hex_digit(b / 16) && text[3] == hex_digit(b % 16));
        } else if p == 2 {
            assert(text[4] == hex_digit(b / 16) && text[5] == hex_digit(b % 16));
        } else {
            assert(text[6] == hex_digit(b / 16) && text[7] == hex_digit(b % 16));
        }
    }
}

/// Texts are escaped character by character.
pub proof fn texts_are_escaped_piecewise(a: Seq<char>, b: Seq<char>)
    ensures
        escaped(a + b) == escaped(a) + escaped(b),
    decreases b.len(),
{
    if b.len() == 0 {
        assert(a + b =~= a);
        assert(escaped(a) + escaped(b) =~= escaped(a));
    } else {
        texts_are_escaped_piecewise(a, b.drop_last());
        assert((a + b).drop_last() =~= a + b.drop_last());
        assert((a + b).last() == b.last());
        assert(escaped(a + b) =~= escaped(a) + escaped(b));
    }
}

/// A text without markup and ampersands stays as it is.
pub proof fn plain_text_is_not_escaped(s: Seq<char>)
    requires
        forall|i: int|
            0 <= i < s.len() ==> #[trigger] s[i] != '&' && s[i] != '<' && s[i] != '>' && s[i] != '"'
                && s[i] != '\'',
    ensures
        escaped(s) == s,
    decreases s.len(),
{
    if s.len() > 0 {
        let short = s.drop_last();
        assert forall|i: int| 0 <= i < short.len() implies #[trigger] short[i] != '&' && short[i]
            != '<' && short[i] != '>' && short[i] != '"' && short[i] != '\'' by {
            assert(short[i] == s[i]);
        }
        plain_text_is_not_escaped(short);
        assert(s[s.len() - 1] == s.last());
        assert(escaped(s) =~= s);
    } else {
        assert(s =~= Seq::empty());
    }
}

/// No two characters are escaped alike.
pub proof fn escapes_are_told_apart(a: char, b: char)
    requires
        escaped_char(a) == escaped_char(b),
    ensures
        a == b,
{
    reveal_strlit("&amp;");
    reveal_strlit("&lt;");
    reveal_strlit("&gt;");
    reveal_strlit("&quot;");
    reveal_strlit("&apos;");
    assert("&amp;"@[1] == 'a' && "&amp;"@[2] == 'm' && "&amp;"@.len() == 5);
    assert("&lt;"@[1] == 'l' && "&lt;"@.len() == 4);
    assert("&gt;"@[1] == 'g' && "&gt;"@.len() == 4);
    assert("&quot;"@[1] == 'q' && "&quot;"@.len() == 6);
    assert("&apos;"@[1] == 'a' && "&apos;"@[2] == 'p' && "&apos;"@.len() == 6);
    assert(escaped_char(a).len() == escaped_char(b).len());
    assert(escaped_char(a)[0] == escaped_char(b)[0]);
    if escaped_char(a).len() == 1 {
        assert(escaped_char(a)[0] == a && escaped_char(b)[0] == b);
    } else {
        assert(escaped_char(a)[1] == escaped_char(b)[1]);
        assert(escaped_char(a)[2] == escaped_char(b)[2]);
        assert(!(a == '&' && b == '\'') && !(a == '\'' && b == '&'));
        assert(!(a == '"' && b == '\'') && !(a == '\'' && b == '"'));
        assert(!(a == '<' && b == '>') && !(a == '>' && b == '<'));
    }
}

proof fn lemma_first_anchor(field: AnchorField, k: int)
    requires
        is_first_anchor(field.samples@, k),
    ensures
        first_anchor(field.samples@) == Some(field.samples@[k]),
{
    let j = choose|j: int| is_first_anchor(field.samples@, j);
    if j < k {
        assert(field.samples@[j].utc_us == 0);
    } else if k < j {
        assert(field.samples@[k].utc_us == 0);
    }
}

/// Whether a field tells the time of a source: it is there, belongs to the source
/// and is named as one, and has a sample whose time is known.
pub open spec fn tells_time(field: AnchorField, source: u32) -> bool {
    &&& !field.removed
    &&& field.source == Some(source)
    &&& field.name@ == "time_utc_usec"@ || field.name@ == "utc_usec"@
    &&& exists|k: int| 0 <= k < field.samples@.len() && (#[trigger] field.samples@[k]).utc_us != 0
}

proof fn lemma_some_first(field: AnchorField, k: int) -> (m: int)
    requires
        0 <= k < field.samples@.len(),
        field.samples@[k].utc_us != 0,
    ensures
        is_first_anchor(field.samples@, m),
        m <= k,
    decreases k,
{
    if exists|j: int| 0 <= j < k && (#[trigger] field.samples@[j]).utc_us != 0 {
        let j = choose|j: int| 0 <= j < k && (#[trigger] field.samples@[j]).utc_us != 0;
        lemma_some_first(field, j)
    } else {
        k
    }
}

proof fn lemma_anchor_from(fields: Seq<AnchorField>, source: u32, i: int, at: int, k: int)
    requires
        0 <= i <= at < fields.len(),
        forall|j: int| i <= j < at ==> !tells_time(#[trigger] fields[j], source),
        tells_time(fields[at], source),
        is_first_anchor(fields[at].samples@, k),
    ensures
        anchor_from(fields, source, i) == Some(fields[at].samples@[k]),
    decreases at - i,
{
    if i == at {
        lemma_first_anchor(fields[at], k);
    } else {
        let f = fields[i];
        if !f.removed && is_utc_field_name(f.name@) && f.source == Some(source) && first_anchor(
            f.samples@,
        ) is Some {
            let m = choose|m: int| is_first_anchor(f.samples@, m);
            assert(f.samples@[m].utc_us != 0);
            assert(tells_time(fields[i], source));
        }
        lemma_anchor_from(fields, source, i + 1, at, k);
    }
}

/// At the first known time of a source, which the first field that tells its time
/// gives, the log time moved by the offset is that time.
pub proof fn offsets_meet_the_first_known_time(
    fields: Seq<AnchorField>,
    source: u32,
    at: int,
    k: int,
)
    requires
        0 <= at < fields.len(),
        forall|j: int| 0 <= j < at ==> !tells_time(#[trigger] fields[j], source),
        tells_time(fields[at], source),
        0 <= k < fields[at].samples@.len(),
        fields[at].samples@[k].utc_us != 0,
        forall|j: int| 0 <= j < k ==> (#[trigger] fields[at].samples@[j]).utc_us == 0,
    ensures
        fields[at].samples@[k].raw_time_us + vehicle_offset(fields, source)
            == fields[at].samples@[k].utc_us,
{
    assert(is_first_anchor(fields[at].samples@, k));
    lemma_anchor_from(fields, source, 0, at, k);
}

proof fn lemma_no_anchor(fields: Seq<AnchorField>, source: u32, i: int)
    requires
        0 <= i <= fields.len(),
        forall|j: int| i <= j < fields.len() ==> !tells_time(#[trigger] fields[j], source),
    ensures
        anchor_from(fields, source, i) is None,
    decreases fields.len() - i,
{
    if i < fields.len() {
        let f = fields[i];
        if !f.removed && is_utc_field_name(f.name@) && f.source == Some(source) && first_anchor(
            f.samples@,
        ) is Some {
            let m = choose|m: int| is_first_anchor(f.samples@, m);
            assert(f.samples@[m].utc_us != 0);
            assert(tells_time(fields[i], source));
        }
        lemma_no_anchor(fields, source, i + 1);
    }
}

/// Where no field tells the time of a source, its log time is kept.
pub proof fn untold_times_are_not_moved(fields: Seq<AnchorField>, source: u32)
    requires
        forall|j: int| 0 <= j < fields.len() ==> !tells_time(#[trigger] fields[j], source),
    ensures
        vehicle_offset(fields, source) == 0,
{
    lemma_no_anchor(fields, source, 0);
}

/// A placemark shows the tracks of its vehicle under its label and in its colour,
/// by a style that bears the same number.
pub proof fn placemarks_show_their_vehicle(
    i: nat,
    color: [u8; 4],
    label: Seq<char>,
    segments: Seq<Seq<SampleView>>,
    offset: int,
)
    ensures
        vehicle_text(i, color, label, segments, offset) == "  <Style id=\"veh"@ + decimal(i)
            + "\"><LineStyle><color>"@ + kml_color_text(color)
            + "</color><width>2</width></LineStyle></Style>\n  <Placemark>\n    <name>"@ + escaped(
            label,
        ) + "</name>\n    <styleUrl>#veh"@ + decimal(i)
            + "</styleUrl>\n    <gx:MultiTrack>\n      <altitudeMode>absolute</altitudeMode>\n"@
            + track_lines(segments, offset) + "    </gx:MultiTrack>\n  </Placemark>\n"@,
{
    let style = "</color><width>2</width></LineStyle></Style>\n"@;
    let place = "  <Placemark>\n    <name>"@;
    let both = "</color><width>2</width></LineStyle></Style>\n  <Placemark>\n    <name>"@;
    reveal_strlit("</color><width>2</width></LineStyle></Style>\n");
    reveal_strlit("  <Placemark>\n    <name>");
    reveal_strlit("</color><width>2</width></LineStyle></Style>\n  <Placemark>\n    <name>");
    assert(both =~= style + place);
    let head = "  <Style id=\"veh"@ + decimal(i) + "\"><LineStyle><color>"@ + kml_color_text(color);
    assert(head + both =~= head + style + place);
}

} // verus!
