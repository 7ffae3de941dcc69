//! What times and file names say.

use crate::calendar::{civil, day_number, days_in_month, is_date, iso8601, moment, zero_padded};
use crate::live::{digits_value, recording_name};
use crate::map_tiles::{pow2, tile_inside, tiles_overlap, TileId};
use crate::store::{graph_stems, DirEntryName};
use crate::text::{decimal, text_le};
use vstd::prelude::*;

verus! {

/// A moment is told as a day and the hours, minutes and seconds of that day.
pub proof fn moments_add_up(secs: int)
    ensures
        ({
            let t = moment(secs);
            &&& 0 <= t.hour < 24
            &&& 0 <= t.minute < 60
            &&& 0 <= t.second < 60
            &&& secs / 86_400 * 86_400 + t.hour * 3600 + t.minute * 60 + t.second == secs
            &&& t.date == civil(secs / 86_400)
        }),
{
    let of_day = secs % 86_400;
    assert(of_day / 3600 * 3600 + of_day / 60 % 60 * 60 + of_day % 60 == of_day && of_day / 3600
        < 24) by (nonlinear_arith)
        requires
            0 <= of_day < 86_400,
    ;
}

/// A day of the calendar is told by its own date.
pub proof fn dates_are_told_by_their_day(y: int, m: int, d: int)
    requires
        is_date(y, m, d),
    ensures
        civil(day_number(y, m, d)) == (y, m, d),
{
    let t = civil(day_number(y, m, d));
    let own = (y, m, d);
    assert(is_date(own.0, own.1, own.2) && day_number(own.0, own.1, own.2) == day_number(y, m, d));
    crate::calendar::day_numbers_are_distinct(t.0, t.1, t.2, y, m, d);
}

/// A day follows the one before it, over the ends of months and of years.
pub proof fn days_follow_one_another(y: int, m: int, d: int)
    requires
        is_date(y, m, d),
    ensures
        d < days_in_month(y, m) ==> day_number(y, m, d + 1) == day_number(y, m, d) + 1,
        d == days_in_month(y, m) && m < 12 ==> day_number(y, m + 1, 1) == day_number(y, m, d) + 1,
        day_number(1970, 1, 1) == 0,
{
}

/// A number with zeros in front stands for the same number.
pub proof fn padding_keeps_the_number(n: nat, width: nat)
    ensures
        digits_value(zero_padded(n, width)) == digits_value(decimal(n)),
        zero_padded(n, width).len() >= width,
        decimal(n).len() >= width ==> zero_padded(n, width) == decimal(n),
{
    let digits = decimal(n);
    if digits.len() < width {
        lemma_zeros((width - digits.len()) as nat, digits);
    }
}

proof fn lemma_zeros(k: nat, digits: Seq<char>)
    ensures
        digits_value(Seq::new(k, |i: int| '0') + digits) == digits_value(digits),
    decreases digits.len(), k,
{
    let zeros = Seq::new(k, |i: int| '0');
    let all = zeros + digits;
    if digits.len() > 0 {
        lemma_zeros(k, digits.drop_last());
        assert(all.drop_last() =~= zeros + digits.drop_last());
        assert(all.last() == digits.last());
    } else if k > 0 {
        lemma_zeros((k - 1) as nat, digits);
        assert(all.drop_last() =~= Seq::new((k - 1) as nat, |i: int| '0') + digits);
        assert(all.last() == '0');
    } else {
        assert(all =~= digits);
    }
}

/// Times of the same millisecond are written alike.
pub proof fn times_are_written_to_the_millisecond(a: int, b: int)
    requires
        a / 1000 == b / 1000,
    ensures
        iso8601(a) == iso8601(b),
{
    assert(a / 1_000_000 == a / 1000 / 1000);
    assert(b / 1_000_000 == b / 1000 / 1000);
    assert(a % 1_000_000 / 1000 == a / 1000 % 1000);
    assert(b % 1_000_000 / 1000 == b / 1000 % 1000);
}

/// Recordings that begin in the same second have the same name.
pub proof fn recordings_are_named_by_the_second(a: int, b: int)
    requires
        a / 1_000_000 == b / 1_000_000,
    ensures
        recording_name(a) == recording_name(b),
{
}

/// Exactly the entries with the extension of a document are listed, by their
/// stems.
pub proof fn documents_are_listed(entries: Seq<DirEntryName>, n: nat, name: Seq<char>)
    requires
        n <= entries.len(),
    ensures
        graph_stems(entries, n).contains(name) <==> exists|i: int|
            0 <= i < n && ((#[trigger] entries[i]).extension matches Some(extension) && extension@
                == "json"@) && (entries[i].stem matches Some(stem) && stem@ == name),
    decreases n,
{
    if n > 0 {
        documents_are_listed(entries, (n - 1) as nat, name);
        let rest = graph_stems(entries, (n - 1) as nat);
        let all = graph_stems(entries, n);
        if rest.contains(name) {
            assert(all[rest.index_of(name)] == name);
        }
        if all.len() > rest.len() {
            assert(all[all.len() - 1] == entries[n - 1].stem.unwrap()@);
        }
        if all.contains(name) && !rest.contains(name) {
            assert(entries[n - 1].stem.unwrap()@ == name);
        }
    }
}

/// Texts are ordered by the first character in which they differ; a text comes
/// before those that it begins.
pub proof fn the_first_difference_decides(
    head: Seq<char>,
    a: Seq<char>,
    b: Seq<char>,
)
    ensures
        text_le(head, head + a),
        a.len() > 0 && b.len() > 0 && a[0] != b[0] ==> (text_le(head + a, head + b) <==> (
        a[0] as int) < (b[0] as int)),
        a.len() > 0 ==> !text_le(head + a, head),
    decreases head.len(),
{
    let x = head + a;
    let y = head + b;
    if head.len() > 0 {
        let rest = head.drop_first();
        the_first_difference_decides(rest, a, b);
        assert(x.drop_first() =~= rest + a);
        assert(y.drop_first() =~= rest + b);
        assert(x[0] == head[0] && y[0] == head[0]);
    } else {
        assert(x =~= a);
        assert(y =~= b);
    }
}

/// A tile overlaps the four tiles of the next zoom that lie in it, and no other
/// tile of that zoom.
pub proof fn tiles_overlap_their_quarters(id: TileId, fine: TileId)
    requires
        fine.zoom == id.zoom + 1,
    ensures
        tiles_overlap(id, fine) <==> (fine.x == 2 * id.x || fine.x == 2 * id.x + 1) && (fine.y == 2
            * id.y || fine.y == 2 * id.y + 1),
        tiles_overlap(fine, id) == tiles_overlap(id, fine),
{
    reveal_with_fuel(pow2, 2);
    assert(pow2(1) == 2);
}

/// Of one zoom, only the tile itself overlaps a tile.
pub proof fn neighbours_do_not_overlap(a: TileId, b: TileId)
    requires
        a.zoom == b.zoom,
    ensures
        tiles_overlap(a, b) <==> a == b,
{
    assert(pow2(0) == 1);
    assert(a.x as nat / 1 == a.x && a.y as nat / 1 == a.y && b.x as nat / 1 == b.x && b.y as nat / 1
        == b.y);
}

/// What lies in a tile that lies in another lies in that other too.
pub proof fn tiles_within_tiles_overlap(coarse: TileId, middle: TileId, fine: TileId)
    requires
        coarse.zoom <= middle.zoom <= fine.zoom,
        fine.zoom - coarse.zoom < 32,
        tile_inside(fine, middle),
        tile_inside(middle, coarse),
    ensures
        tile_inside(fine, coarse),
{
    let a = (fine.zoom - middle.zoom) as nat;
    let b = (middle.zoom - coarse.zoom) as nat;
    lemma_pow2_sum(a, b);
    lemma_positive(a);
    lemma_positive(b);
    vstd::arithmetic::div_mod::lemma_div_denominator(
        fine.x as int,
        pow2(a) as int,
        pow2(b) as int,
    );
    vstd::arithmetic::div_mod::lemma_div_denominator(
        fine.y as int,
        pow2(a) as int,
        pow2(b) as int,
    );
}

proof fn lemma_positive(n: nat)
    ensures
        pow2(n) > 0,
    decreases n,
{
    if n > 0 {
        lemma_positive((n - 1) as nat);
    }
}

proof fn lemma_pow2_sum(a: nat, b: nat)
    ensures
        pow2(a + b) == pow2(a) * pow2(b),
    decreases a,
{
    if a > 0 {
        lemma_pow2_sum((a - 1) as nat, b);
        assert(pow2(a + b) == 2 * pow2((a - 1 + b) as nat));
        assert(2 * (pow2((a - 1) as nat) * pow2(b)) == 2 * pow2((a - 1) as nat) * pow2(b))
            by (nonlinear_arith);
    } else {
        assert(pow2(0) * pow2(b) == pow2(b)) by (nonlinear_arith)
            requires
                pow2(0) == 1,
        ;
    }
}

} // verus!
