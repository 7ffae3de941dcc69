//! What forms, menus and the worker for statistics do with what they are given.

use crate::add_menu::{
    accepted, clamped_highlight, highlight_after, key_outcome, menu_lines, moved_highlight,
    row_count, ActionView, AddMenuMode, MenuKey, MenuKeys, MenuRow,
};
use crate::bits::{equal_doubles, equal_numbers, le_bytes};
use crate::field_stats::{
    answered, bounded, fresh_result, key_for, launched, looked_up, may_launch, recent_index,
    requested, with_latest, FieldStats, ResultView, StatsRequestKey, StatsView,
};
use crate::graph::{CommandView, ConversionKind, KindView, NodeId};
use crate::headless::{input_bytes, offset_bytes, signed_bytes, store_bytes, unit_bytes, InputField};
use crate::inspector::{diagnostic_texts, filter_control_texts, port_edit, PortClicks};
use crate::live::{
    digits_value, endpoint_of, kind_of, mode_of, parsed_unsigned, port_of, port_text_of, DialogView,
    EndpointKind, EndpointView,
};
use crate::picker::HitView;
use crate::registry::{
    all_templates, made, Blueprint, MenuEntry, TemplateView, ADD_DATA_INDEX, ONE_BITS,
};
use crate::text::trimmed;
use vstd::prelude::*;

verus! {

/// A connection is of the kind that was chosen, to the address and port that were
/// typed; it is refused where the address or the port is none.
pub proof fn connections_are_those_that_were_typed(dialog: DialogView, host_is_ip: bool)
    ensures
        ({
            let number = parsed_unsigned(trimmed(dialog.port), 65_535);
            let rate = parsed_unsigned(trimmed(dialog.baud), u32::MAX as nat);
            match endpoint_of(dialog, host_is_ip) {
                Ok(EndpointView::UdpServer { ip, port }) => dialog.kind is UdpServer && host_is_ip
                    && ip == trimmed(dialog.host) && number == Some(port as nat),
                Ok(EndpointView::TcpClient { ip, port }) => dialog.kind is TcpClient && host_is_ip
                    && ip == trimmed(dialog.host) && number == Some(port as nat),
                Ok(EndpointView::Serial { path, baud }) => dialog.kind is Serial && path == trimmed(
                    dialog.serial_path,
                ) && rate == Some(baud as nat),
                Err(_) => if dialog.kind is Serial {
                    rate is None
                } else {
                    !host_is_ip || number is None
                },
            }
        }),
{
}

/// The usual port that a form shows is the one that is used where none is typed.
pub proof fn usual_ports_are_shown(kind: EndpointKind)
    ensures
        kind is UdpServer || kind is TcpClient ==> parsed_unsigned(port_text_of(kind), 65_535)
            == Some(port_of(kind) as nat),
        kind is Serial ==> port_text_of(kind).len() == 0,
        port_of(EndpointKind::UdpServer) != port_of(EndpointKind::TcpClient),
{
    reveal_strlit("14550");
    reveal_strlit("5760");
    reveal_strlit("");
    let udp = "14550"@;
    let tcp = "5760"@;
    assert(udp.len() == 5 && tcp.len() == 4);
    reveal_with_fuel(digits_value, 6);
    assert(digits_value(udp) == 14550) by {
        assert(udp.drop_last().last() == udp[3]);
        assert(udp.drop_last().drop_last().last() == udp[2]);
        assert(udp.drop_last().drop_last().drop_last().last() == udp[1]);
        assert(udp.drop_last().drop_last().drop_last().drop_last().last() == udp[0]);
    }
    assert(digits_value(tcp) == 5760) by {
        assert(tcp.drop_last().last() == tcp[2]);
        assert(tcp.drop_last().drop_last().last() == tcp[1]);
        assert(tcp.drop_last().drop_last().drop_last().last() == tcp[0]);
    }
}

/// The kinds of connections are kept under their own names.
pub proof fn connection_kinds_keep_their_names(kind: EndpointKind)
    ensures
        kind is UdpServer <==> mode_of(kind) is UdpServer,
        kind is TcpClient <==> mode_of(kind) is TcpClient,
        kind is Serial <==> mode_of(kind) is Serial,
        kind_of(mode_of(kind)) == kind,
{
}

/// A number in a form is what its digits say, with a plus sign in front or
/// without.
pub proof fn numbers_are_read_by_their_digits(digits: Seq<char>, max: nat)
    requires
        digits.len() > 0,
        forall|i: int| 0 <= i < digits.len() ==> '0' <= #[trigger] digits[i] <= '9',
    ensures
        parsed_unsigned(digits, max) == if digits_value(digits) <= max {
            Some(digits_value(digits))
        } else {
            None
        },
        parsed_unsigned(seq!['+'] + digits, max) == parsed_unsigned(digits, max),
        digits_value(digits) == 10 * digits_value(digits.drop_last()) + (digits.last() as int
            - '0' as int),
{
    let signed = seq!['+'] + digits;
    assert(signed.skip(1) =~= digits);
    assert(digits[0] != '+');
    assert(digits[digits.len() - 1] == digits.last());
    assert forall|i: int| 0 <= i < digits.len() implies crate::live::is_digit(
        #[trigger] digits[i],
    ) by {}
}

/// A single click on a control of an output or a script leads to the one edit
/// that the control stands for, of that node: what is added comes last, and what
/// is removed is what was clicked.
pub proof fn clicks_edit_what_was_clicked(
    id: NodeId,
    kind: KindView,
    code: Seq<char>,
    index: usize,
)
    ensures
        ({
            let none = PortClicks {
                remove_first: None,
                add_first: false,
                remove_second: None,
                add_second: false,
                apply_code: false,
            };
            let add_first = port_edit(id, kind, PortClicks { add_first: true, ..none }, code);
            let remove_first = port_edit(
                id,
                kind,
                PortClicks { remove_first: Some(index), ..none },
                code,
            );
            let add_second = port_edit(id, kind, PortClicks { add_second: true, ..none }, code);
            let remove_second = port_edit(
                id,
                kind,
                PortClicks { remove_second: Some(index), ..none },
                code,
            );
            let apply = port_edit(id, kind, PortClicks { apply_code: true, ..none }, code);
            &&& port_edit(id, kind, none, code) is None
            &&& kind matches KindView::Output { topic, fields } ==> {
                &&& add_first matches Some(
                    CommandView::InsertOutputField { id: at, index: place, field },
                ) && at == id && place == fields.len() as usize && field.unit is None
                &&& remove_first matches Some(
                    CommandView::RemoveOutputField { id: at, index: place },
                ) && at == id && place == index
            }
            &&& kind matches KindView::Script { name, inputs, outputs, code: present } ==> {
                &&& add_first matches Some(
                    CommandView::InsertScriptInput { id: at, index: place, .. },
                ) && at == id && place == inputs.len() as usize
                &&& remove_first matches Some(
                    CommandView::RemoveScriptInput { id: at, index: place },
                ) && at == id && place == index
                &&& add_second matches Some(
                    CommandView::InsertScriptOutput { id: at, index: place, output },
                ) && at == id && place == outputs.len() as usize && output.unit is None
                &&& remove_second matches Some(
                    CommandView::RemoveScriptOutput { id: at, index: place },
                ) && at == id && place == index
                &&& apply matches Some(
                    CommandView::SetKind {
                        id: at,
                        kind: KindView::Script { name: n, inputs: i, outputs: o, code: c },
                    },
                ) && at == id && n == name && i == inputs && o == outputs && c == code
            }
        }),
{
}

/// The inspector lists every message about a node and what is wrong with its
/// settings, and has no list where there is nothing.
pub proof fn everything_wrong_is_listed(messages: Seq<Seq<char>>, validation: Option<Seq<char>>)
    ensures
        match diagnostic_texts(messages, validation) {
            Some((_, lines)) => {
                &&& lines.len() > 0
                &&& messages.is_prefix_of(lines)
                &&& validation matches Some(text) ==> lines.len() == messages.len() + 1
                    && lines.last() == text
                &&& validation is None ==> lines == messages
            },
            None => messages.len() == 0 && validation is None,
        },
{
    if let Some((_, lines)) = diagnostic_texts(messages, validation) {
        assert(lines.take(messages.len() as int) =~= messages);
    }
}

/// A range has a lower and an upper bound, any other filter one bound behind the
/// sign of its comparison; whether the bound passes can be chosen where that is
/// supported.
pub proof fn filters_have_their_controls(inclusive: bool, is_range: bool, symbol: Seq<char>)
    ensures
        ({
            let controls = filter_control_texts(inclusive, is_range, symbol);
            let first = if inclusive {
                1int
            } else {
                0
            };
            &&& inclusive <==> controls[0] is None
            &&& controls.len() == first + if is_range {
                2int
            } else {
                1
            }
            &&& controls[first] matches Some((upper, _)) && !upper
            &&& is_range ==> (controls[first + 1] matches Some((upper, _)) && upper)
            &&& !is_range ==> (controls[first] matches Some((_, prefix)) && prefix == "x "@ + symbol
                + " "@)
        }),
{
}

/// The highlight stays among the rows; it goes down and up by one, and round the
/// ends.
pub proof fn highlights_move_by_one(keys: MenuKeys, highlighted: usize, len: usize)
    requires
        highlighted < len,
    ensures
        0 <= highlight_after(keys, highlighted, len) < len,
        keys.down && !keys.up ==> highlight_after(keys, highlighted, len) == if highlighted + 1
            == len {
            0
        } else {
            highlighted + 1
        },
        keys.up && !keys.down ==> highlight_after(keys, highlighted, len) == if highlighted == 0 {
            len - 1
        } else {
            highlighted - 1
        },
        !keys.up && !keys.down ==> highlight_after(keys, highlighted, len) == highlighted,
{
    lemma_down(highlighted as int, len as int);
    lemma_up(highlighted as int, len as int);
    let down = moved_highlight(highlighted as int, len as int, 1);
    lemma_up(down, len as int);
}

proof fn lemma_down(current: int, len: int)
    requires
        0 <= current < len,
    ensures
        moved_highlight(current, len, 1) == if current + 1 == len {
            0
        } else {
            current + 1
        },
{
    if current + 1 == len {
        vstd::arithmetic::div_mod::lemma_fundamental_div_mod_converse(current + 1, len, 1, 0);
    } else {
        vstd::arithmetic::div_mod::lemma_small_mod((current + 1) as nat, len as nat);
    }
}

proof fn lemma_up(current: int, len: int)
    requires
        0 <= current < len,
    ensures
        moved_highlight(current, len, -1) == if current == 0 {
            len - 1
        } else {
            current - 1
        },
{
    if current == 0 {
        vstd::arithmetic::div_mod::lemma_fundamental_div_mod_converse(-1, len, -1, len - 1);
    } else {
        vstd::arithmetic::div_mod::lemma_small_mod((current - 1) as nat, len as nat);
    }
}

/// Escape closes the menu, whatever else is pressed; enter takes the highlighted
/// row where there is one.
pub proof fn keys_close_or_take(keys: MenuKeys, len: usize)
    ensures
        keys.escape ==> key_outcome(keys, len) == Some(MenuKey::Close),
        !keys.escape && keys.enter && len > 0 ==> key_outcome(keys, len) == Some(MenuKey::Accept),
        !keys.escape && !keys.enter ==> key_outcome(keys, len) is None,
        !keys.escape && len == 0 ==> key_outcome(keys, len) is None,
{
}

/// What is taken from the menu is the highlighted row: the first leads to the
/// fields, each other to the template that it lists; in the list of fields, the
/// field of the row.
pub proof fn the_highlighted_row_is_taken(
    highlighted: usize,
    templates: Seq<MenuEntry>,
    fields: Seq<HitView>,
)
    ensures
        accepted(AddMenuMode::Templates, 0, templates, fields) == Some(
            ActionView::Template(ADD_DATA_INDEX),
        ),
        0 < highlighted <= templates.len() ==> accepted(
            AddMenuMode::Templates,
            highlighted,
            templates,
            fields,
        ) == Some(ActionView::Template(templates[highlighted - 1].index)),
        highlighted < fields.len() ==> accepted(AddMenuMode::Data, highlighted, templates, fields)
            == Some(ActionView::Data(fields[highlighted as int])),
        accepted(AddMenuMode::Templates, highlighted, templates, fields) is Some <==> highlighted
            < row_count(AddMenuMode::Templates, templates, fields),
        accepted(AddMenuMode::Data, highlighted, templates, fields) is Some <==> highlighted
            < row_count(AddMenuMode::Data, templates, fields),
{
}

/// A highlight within the rows stays, and one behind them goes to the last row.
pub proof fn highlights_are_kept_within_the_rows(highlighted: usize, rows: int)
    requires
        rows > 0,
    ensures
        highlighted < rows ==> clamped_highlight(highlighted, rows) == highlighted,
        highlighted >= rows ==> clamped_highlight(highlighted, rows) == rows - 1,
{
}

/// How many templates stand among the first `k` lines of the menu.
pub open spec fn templates_before(lines: Seq<MenuRow>, k: int) -> nat
    decreases k,
{
    if k <= 0 {
        0
    } else {
        templates_before(lines, k - 1) + if lines[k - 1] is Template {
            1nat
        } else {
            0nat
        }
    }
}

proof fn lemma_templates_before(a: Seq<MenuRow>, b: Seq<MenuRow>, k: int)
    requires
        0 <= k <= a.len() <= b.len(),
        forall|i: int| 0 <= i < a.len() ==> a[i] == b[i],
    ensures
        templates_before(a, k) == templates_before(b, k),
    decreases k,
{
    if k > 0 {
        lemma_templates_before(a, b, k - 1);
        assert(a[k - 1] == b[k - 1]);
    }
}

/// The menu lists each template that was found, in order. A category is named
/// only without a search text, directly above a template of that category.
pub proof fn menus_list_what_was_found(
    models: Seq<TemplateView>,
    hits: Seq<MenuEntry>,
    grouped: bool,
    n: nat,
)
    requires
        n <= hits.len(),
    ensures
        ({
            let lines = menu_lines(models, hits, grouped, n);
            &&& templates_before(lines, lines.len() as int) == n
            &&& forall|k: int|
                #![trigger lines[k]]
                0 <= k < lines.len() ==> match lines[k] {
                    MenuRow::Template(index) => templates_before(lines, k) < n && index
                        == hits[templates_before(lines, k) as int].index,
                    MenuRow::Category(index) => grouped && k + 1 < lines.len() && lines[k + 1]
                        == MenuRow::Template(index),
                }
            &&& !grouped ==> lines.len() == n
        }),
    decreases n,
{
    if n > 0 {
        menus_list_what_was_found(models, hits, grouped, (n - 1) as nat);
        let before = menu_lines(models, hits, grouped, (n - 1) as nat);
        let lines = menu_lines(models, hits, grouped, n);
        assert forall|i: int| 0 <= i < before.len() implies before[i] == lines[i] by {}
        lemma_templates_before(before, lines, before.len() as int);
        let last = lines.len() - 1;
        assert(templates_before(lines, last) == n - 1);
        assert forall|k: int|
            #![trigger lines[k]]
            0 <= k < lines.len() implies match lines[k] {
            MenuRow::Template(index) => templates_before(lines, k) < n && index
                == hits[templates_before(lines, k) as int].index,
            MenuRow::Category(index) => grouped && k + 1 < lines.len() && lines[k + 1]
                == MenuRow::Template(index),
        } by {
            if k < before.len() {
                assert(before[k] == lines[k]);
                lemma_templates_before(before, lines, k);
                if before[k] is Category {
                    assert(before[k + 1] == lines[k + 1]);
                }
            }
        }
    }
}

/// Each template makes the node that it is called after.
pub proof fn templates_make_what_they_are_called()
    ensures
        all_templates().len() == 17,
        all_templates()[0].name == "Constant"@ && made(all_templates()[0].blueprint) is Constant,
        all_templates()[1].name == "Add"@ && made(all_templates()[1].blueprint) is Add,
        all_templates()[2].name == "Subtract"@ && made(all_templates()[2].blueprint) is Subtract,
        all_templates()[3].name == "Multiply"@ && made(all_templates()[3].blueprint) is Multiply,
        all_templates()[4].name == "Divide"@ && made(all_templates()[4].blueprint) is Divide,
        all_templates()[14].name == "Align to Timeline"@ && made(
            all_templates()[14].blueprint,
        ) is Align,
        all_templates()[15].name == "Derived Topic Output"@ && made(
            all_templates()[15].blueprint,
        ) is Output,
        all_templates()[16].name == "Python Script"@ && made(
            all_templates()[16].blueprint,
        ) is Script,
        converts(6, "Radians to Degrees"@, ConversionKind::RadToDeg),
        converts(7, "Degrees to Radians"@, ConversionKind::DegToRad),
        converts(8, "Heading 0..360"@, ConversionKind::Heading0To360),
        converts(9, "Heading -180..180"@, ConversionKind::HeadingPm180),
        converts(10, "m/s to km/h"@, ConversionKind::MsToKmh),
        converts(11, "km/h to m/s"@, ConversionKind::KmhToMs),
        converts(12, "Meters to Feet"@, ConversionKind::MToFt),
        converts(13, "Feet to Meters"@, ConversionKind::FtToM),
{
}

/// Whether the template at `i` has the name and makes that conversion.
pub open spec fn converts(i: int, name: Seq<char>, conversion: ConversionKind) -> bool {
    all_templates()[i].name == name && (made(
        all_templates()[i].blueprint,
    ) matches KindView::Convert { kind } && kind == conversion)
}

/// A new scale changes nothing, a new conversion is of the kind that was chosen,
/// a new output and a new script have one port each way.
pub proof fn new_nodes_start_neutral(conversion: ConversionKind)
    ensures
        made(Blueprint::ScaleOffset) matches KindView::ScaleOffset { multiplier, offset }
            && multiplier == ONE_BITS && offset == 0,
        made(Blueprint::Convert(conversion)) matches KindView::Convert { kind } && kind
            == conversion,
        made(Blueprint::Output) matches KindView::Output { fields, .. } && fields.len() == 1,
        made(Blueprint::Script) matches KindView::Script { inputs, outputs, .. } && inputs.len()
            == 1 && outputs.len() == 1,
{
}

/// Numbers of `n` bytes are told apart by their bytes.
pub(crate) proof fn lemma_le_bytes(a: nat, b: nat, n: nat)
    requires
        le_bytes(a, n) == le_bytes(b, n),
        a < pow256(n),
        b < pow256(n),
    ensures
        a == b,
    decreases n,
{
    if n > 0 {
        let x = le_bytes(a, n);
        let y = le_bytes(b, n);
        assert(x[0] == (a % 256) as u8 && y[0] == (b % 256) as u8);
        assert(a % 256 == b % 256);
        assert(x.skip(1) =~= le_bytes(a / 256, (n - 1) as nat));
        assert(y.skip(1) =~= le_bytes(b / 256, (n - 1) as nat));
        lemma_le_bytes(a / 256, b / 256, (n - 1) as nat);
    }
}

/// 256 to the power of `n`.
pub(crate) open spec fn pow256(n: nat) -> nat
    decreases n,
{
    if n == 0 {
        1
    } else {
        256 * pow256((n - 1) as nat)
    }
}

pub(crate) proof fn lemma_le_bytes_len(v: nat, n: nat)
    ensures
        le_bytes(v, n).len() == n,
    decreases n,
{
    if n > 0 {
        lemma_le_bytes_len(v / 256, (n - 1) as nat);
    }
}

proof fn lemma_middle(a: Seq<u8>, x: Seq<u8>, y: Seq<u8>, b: Seq<u8>, c: Seq<u8>)
    requires
        a + x + b == a + y + c,
        x.len() == y.len(),
    ensures
        x == y,
{
    let whole = a + x + b;
    assert(whole.subrange(a.len() as int, (a.len() + x.len()) as int) =~= x);
    assert((a + y + c).subrange(a.len() as int, (a.len() + x.len()) as int) =~= y);
}

proof fn lemma_first_byte(input: InputField)
    ensures
        input_bytes(input).len() > 0,
        input_bytes(input)[0] == if input is Found {
            1u8
        } else {
            0u8
        },
{
    match input {
        InputField::Found { field, multiplier, unit, offset_us, store } => {
            let rest = le_bytes(field as nat, 4) + le_bytes(multiplier as nat, 8) + unit_bytes(unit)
                + offset_bytes(offset_us) + store_bytes(store);
            assert(input_bytes(input) =~= seq![1u8] + rest);
        },
        InputField::Missing(_) => {},
    }
}

/// Two inputs of a graph that differ in their field, in their multiplier, or in
/// whether they are there are told apart.
pub proof fn inputs_are_told_apart(a: InputField, b: InputField)
    requires
        input_bytes(a) == input_bytes(b),
    ensures
        a is Found <==> b is Found,
        match (a, b) {
            (
                InputField::Found { field: f, multiplier: m, .. },
                InputField::Found { field: g, multiplier: n, .. },
            ) => f == g && m == n,
            _ => true,
        },
{
    lemma_first_byte(a);
    lemma_first_byte(b);
    if let (
        InputField::Found { field: f, multiplier: m, unit: u, offset_us: o, store: s },
        InputField::Found { field: g, multiplier: n, unit: v, offset_us: p, store: t },
    ) = (a, b) {
        reveal_with_fuel(pow256, 9);
        lemma_le_bytes_len(f as nat, 4);
        lemma_le_bytes_len(g as nat, 4);
        lemma_le_bytes_len(m as nat, 8);
        lemma_le_bytes_len(n as nat, 8);
        let one = seq![1u8];
        let tail = unit_bytes(u) + offset_bytes(o) + store_bytes(s);
        let rest = unit_bytes(v) + offset_bytes(p) + store_bytes(t);
        assert(input_bytes(a) =~= one + le_bytes(f as nat, 4) + (le_bytes(m as nat, 8) + tail));
        assert(input_bytes(b) =~= one + le_bytes(g as nat, 4) + (le_bytes(n as nat, 8) + rest));
        lemma_middle(
            one,
            le_bytes(f as nat, 4),
            le_bytes(g as nat, 4),
            le_bytes(m as nat, 8) + tail,
            le_bytes(n as nat, 8) + rest,
        );
        lemma_le_bytes(f as nat, g as nat, 4);
        let head = one + le_bytes(f as nat, 4);
        assert(input_bytes(a) =~= head + le_bytes(m as nat, 8) + tail);
        assert(input_bytes(b) =~= head + le_bytes(n as nat, 8) + rest);
        lemma_middle(head, le_bytes(m as nat, 8), le_bytes(n as nat, 8), tail, rest);
        lemma_le_bytes(m as nat, n as nat, 8);
    }
}

/// Two inputs that differ in their offset alone, or in the state of their topic
/// alone, are told apart.
pub proof fn changed_inputs_are_told_apart(
    field: u32,
    multiplier: u64,
    unit: Option<String>,
    offset: i64,
    other: i64,
    store: usize,
    later: usize,
)
    ensures
        ({
            let first = InputField::Found {
                field,
                multiplier,
                unit,
                offset_us: Some(offset),
                store: Some(store),
            };
            let second = InputField::Found {
                field,
                multiplier,
                unit,
                offset_us: Some(other),
                store: Some(later),
            };
            input_bytes(first) == input_bytes(second) ==> offset == other && store == later
        }),
{
    let first = InputField::Found {
        field,
        multiplier,
        unit,
        offset_us: Some(offset),
        store: Some(store),
    };
    let second = InputField::Found {
        field,
        multiplier,
        unit,
        offset_us: Some(other),
        store: Some(later),
    };
    if input_bytes(first) == input_bytes(second) {
        let head = seq![1u8] + le_bytes(field as nat, 4) + le_bytes(multiplier as nat, 8)
            + unit_bytes(unit);
        let x = offset_bytes(Some(offset));
        let y = offset_bytes(Some(other));
        lemma_signed(offset, other);
        let none = Seq::<u8>::empty();
        assert(input_bytes(first) =~= head + x + store_bytes(Some(store)));
        assert(input_bytes(second) =~= head + y + store_bytes(Some(later)));
        lemma_middle(head, x, y, store_bytes(Some(store)), store_bytes(Some(later)));
        assert(x.skip(1) =~= signed_bytes(offset));
        assert(y.skip(1) =~= signed_bytes(other));
        let wide = head + x + seq![1u8];
        lemma_le_bytes_len(store as nat, 8);
        lemma_le_bytes_len(later as nat, 8);
        assert(input_bytes(first) =~= wide + le_bytes(store as nat, 8) + none);
        assert(input_bytes(second) =~= wide + le_bytes(later as nat, 8) + none);
        lemma_middle(wide, le_bytes(store as nat, 8), le_bytes(later as nat, 8), none, none);
        reveal_with_fuel(pow256, 9);
        lemma_le_bytes(store as nat, later as nat, 8);
    }
}

proof fn lemma_signed(a: i64, b: i64)
    ensures
        signed_bytes(a).len() == 9,
        signed_bytes(b).len() == 9,
        signed_bytes(a) == signed_bytes(b) ==> a == b,
{
    let x = if a < 0 {
        (-(a + 1)) as nat
    } else {
        a as nat
    };
    let y = if b < 0 {
        (-(b + 1)) as nat
    } else {
        b as nat
    };
    lemma_le_bytes_len(x, 8);
    lemma_le_bytes_len(y, 8);
    if signed_bytes(a) == signed_bytes(b) {
        assert(signed_bytes(a)[0] == signed_bytes(b)[0]);
        assert(signed_bytes(a).skip(1) =~= le_bytes(x, 8));
        assert(signed_bytes(b).skip(1) =~= le_bytes(y, 8));
        reveal_with_fuel(pow256, 9);
        lemma_le_bytes(x, y, 8);
    }
}

proof fn lemma_key_for(current: Seq<StatsRequestKey>, i: int)
    requires
        0 <= i < current.len(),
        forall|k: int| 0 <= k < i ==> (#[trigger] current[k]).field != current[i].field,
    ensures
        key_for(current, current[i].field) == Some(current[i]),
    decreases i,
{
    if i > 0 {
        let rest = current.drop_first();
        assert(current[0].field != current[i].field);
        assert forall|k: int| 0 <= k < i - 1 implies (#[trigger] rest[k]).field != rest[i
            - 1].field by {
            assert(rest[k] == current[k + 1]);
        }
        lemma_key_for(rest, i - 1);
    }
}

/// Statistics that were asked for are shown when they come; where they cannot be
/// computed, the reason is.
pub proof fn answers_are_shown<S>(state: StatsView<S>, result: ResultView, i: int)
    requires
        0 <= i < state.current.len(),
        state.current[i] == result.key,
        forall|k: int| 0 <= k < i ==> (#[trigger] state.current[k]).field != result.key.field,
    ensures
        ({
            let now = answered(state, result);
            let field = result.key.field;
            &&& now.current == state.current
            &&& match result.outcome {
                Ok(Some(stats)) => fresh_result(now, field) == Some(stats)
                    && !now.errors.contains_key(field.0),
                Ok(None) => now.errors.contains_key(field.0) && now.displayed == state.displayed,
                Err(message) => now.errors.contains_key(field.0) && now.errors[field.0] == message
                    && now.displayed == state.displayed,
            }
        }),
{
    lemma_key_for(state.current, i);
}

proof fn lemma_recent(
    recent: Seq<(StatsRequestKey, FieldStats)>,
    key: StatsRequestKey,
    i: int,
)
    requires
        0 <= i,
    ensures
        match recent_index(recent, key, i) {
            Some(k) => i <= k < recent.len() && recent[k].0 == key,
            None => forall|k: int| i <= k < recent.len() ==> (#[trigger] recent[k]).0 != key,
        },
    decreases recent.len() - i,
{
    if i < recent.len() && recent[i].0 != key {
        lemma_recent(recent, key, i + 1);
    }
}

/// Whether a result for the key is kept.
pub open spec fn is_kept(
    recent: Seq<(StatsRequestKey, FieldStats)>,
    key: StatsRequestKey,
) -> bool {
    exists|i: int| 0 <= i < recent.len() && (#[trigger] recent[i]).0 == key
}

proof fn lemma_moved(recent: Seq<(StatsRequestKey, FieldStats)>, i: int, key: StatsRequestKey)
    requires
        0 <= i < recent.len(),
    ensures
        is_kept(recent.remove(i).push(recent[i]), key) == is_kept(recent, key),
{
    let moved = recent.remove(i).push(recent[i]);
    if is_kept(recent, key) {
        let k = choose|k: int| 0 <= k < recent.len() && (#[trigger] recent[k]).0 == key;
        if k < i {
            assert(moved[k] == recent[k]);
        } else if k > i {
            assert(moved[k - 1] == recent[k]);
        } else {
            assert(moved[moved.len() - 1] == recent[i]);
        }
    }
    if is_kept(moved, key) {
        let k = choose|k: int| 0 <= k < moved.len() && (#[trigger] moved[k]).0 == key;
        if k < i {
            assert(recent[k].0 == key);
        } else if k < moved.len() - 1 {
            assert(recent[k + 1].0 == key);
        } else {
            assert(recent[i].0 == key);
        }
    }
}

proof fn lemma_looked_up<S>(
    state: StatsView<S>,
    keys: Seq<StatsRequestKey>,
    n: nat,
    key: StatsRequestKey,
)
    requires
        n <= keys.len(),
    ensures
        ({
            let (now, missing) = looked_up(state, keys, n);
            &&& is_kept(now.recent, key) == is_kept(state.recent, key)
            &&& missing.contains(key) <==> keys.take(n as int).contains(key) && !is_kept(
                state.recent,
                key,
            )
        }),
    decreases n,
{
    if n > 0 {
        lemma_looked_up(state, keys, (n - 1) as nat, key);
        lemma_looked_up(state, keys, (n - 1) as nat, keys[n - 1]);
        let (before, rest) = looked_up(state, keys, (n - 1) as nat);
        let (now, missing) = looked_up(state, keys, n);
        let short = keys.take(n - 1);
        let all = keys.take(n as int);
        lemma_recent(before.recent, keys[n - 1], 0);
        assert(all =~= short.push(keys[n - 1]));
        assert(all[n - 1] == keys[n - 1]);
        if short.contains(key) {
            assert(all[short.index_of(key)] == key);
        }
        if all.contains(key) && key != keys[n - 1] {
            let i = all.index_of(key);
            assert(short[i] == key);
        }
        match recent_index(before.recent, keys[n - 1], 0) {
            Some(i) => {
                assert(before.recent[i] == (keys[n - 1], before.recent[i].1));
                lemma_moved(before.recent, i, key);
                assert(is_kept(before.recent, keys[n - 1]));
            },
            None => {
                if is_kept(before.recent, keys[n - 1]) {
                    let k = choose|k: int|
                        0 <= k < before.recent.len() && (#[trigger] before.recent[k]).0 == keys[n
                            - 1];
                }
                if rest.contains(key) {
                    assert(missing[rest.index_of(key)] == key);
                }
                assert(missing[missing.len() - 1] == keys[n - 1]);
            },
        }
    }
}

/// Of what is asked for, exactly that is computed which is not kept from before,
/// over the state of the store that was given.
pub proof fn only_unknown_statistics_are_computed<S>(
    state: StatsView<S>,
    keys: Seq<StatsRequestKey>,
    snapshot: S,
    key: StatsRequestKey,
)
    ensures
        ({
            let now = requested(state, keys, snapshot);
            let computed = now.pending matches Some((missing, _)) && missing.contains(key);
            &&& computed <==> keys.contains(key) && !is_kept(state.recent, key)
            &&& now.pending matches Some((_, over)) ==> over == snapshot
        }),
{
    let fresh = StatsView { current: keys, errors: Map::empty(), ..state };
    lemma_looked_up(fresh, keys, keys.len(), key);
    assert(keys.take(keys.len() as int) =~= keys);
    let (found, missing) = looked_up(fresh, keys, keys.len());
    if missing.contains(key) {
        assert(missing.len() > 0);
    }
}

/// A new result is the latest that is kept, and takes the place of an older one
/// for the same key; others are not touched.
pub proof fn latest_results_are_kept(
    recent: Seq<(StatsRequestKey, FieldStats)>,
    key: StatsRequestKey,
    stats: FieldStats,
    other: StatsRequestKey,
)
    ensures
        with_latest(recent, key, stats).last() == (key, stats),
        bounded(with_latest(recent, key, stats)).last() == (key, stats),
        other != key ==> is_kept(with_latest(recent, key, stats), other) == is_kept(recent, other),
        with_latest(recent, key, stats).len() <= recent.len() + 1,
        is_kept(recent, key) ==> with_latest(recent, key, stats).len() == recent.len(),
{
    lemma_recent(recent, key, 0);
    let now = with_latest(recent, key, stats);
    match recent_index(recent, key, 0) {
        Some(i) => {
            if other != key {
                if is_kept(recent, other) {
                    let k = choose|k: int|
                        0 <= k < recent.len() && (#[trigger] recent[k]).0 == other;
                    if k < i {
                        assert(now[k] == recent[k]);
                    } else {
                        assert(now[k - 1] == recent[k]);
                    }
                }
                if is_kept(now, other) {
                    let k = choose|k: int| 0 <= k < now.len() && (#[trigger] now[k]).0 == other;
                    if k < i {
                        assert(recent[k].0 == other);
                    } else {
                        assert(recent[k + 1].0 == other);
                    }
                }
            }
        },
        None => {
            if is_kept(recent, other) {
                let k = choose|k: int|
                    0 <= k < recent.len() && (#[trigger] recent[k]).0 == other;
                assert(now[k] == recent[k]);
            }
            if other != key && is_kept(now, other) {
                let k = choose|k: int| 0 <= k < now.len() && (#[trigger] now[k]).0 == other;
                assert(recent[k].0 == other);
            }
        },
    }
}

/// The worker is launched on what is pending, and on nothing else; while it runs
/// nothing is launched.
pub proof fn the_worker_takes_what_is_pending<S>(state: StatsView<S>, now: u64)
    ensures
        ({
            let after = launched(state, now);
            &&& state.running is Some ==> after == state
            &&& state.pending is None ==> after == state
            &&& may_launch(state, now) ==> (state.pending matches Some((keys, _)) && after.running
                == Some(keys)) && after.pending is None
            &&& after.displayed == state.displayed
        }),
{
}

/// Numbers are equal to themselves, the two zeros to one another, and what is no
/// number to nothing.
pub proof fn patterns_are_compared_as_numbers(a: u32, b: u32)
    ensures
        equal_numbers(a, b) == equal_numbers(b, a),
        equal_numbers(0, 0x8000_0000),
        a <= 0x7f80_0000 ==> equal_numbers(a, a),
        0x7f80_0000 < a < 0x8000_0000 ==> !equal_numbers(a, b),
        0 < a <= 0x7f80_0000 && equal_numbers(a, b) ==> a == b,
{
}

/// The same holds of numbers of double precision.
pub proof fn wide_patterns_are_compared_as_numbers(a: u64, b: u64)
    ensures
        equal_doubles(a, b) == equal_doubles(b, a),
        equal_doubles(0, 0x8000_0000_0000_0000),
        a <= 0x7ff0_0000_0000_0000 ==> equal_doubles(a, a),
        0x7ff0_0000_0000_0000 < a < 0x8000_0000_0000_0000 ==> !equal_doubles(a, b),
        0 < a <= 0x7ff0_0000_0000_0000 && equal_doubles(a, b) ==> a == b,
{
}

} // verus!
