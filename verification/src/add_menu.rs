//! The menu that adds a node to the canvas.

use crate::graph::optional_text;
use crate::picker::{
    found_fields, hit_views, search_fields, topic_display, topic_name, DataHit, HitView,
};
use crate::registry::{
    all_templates, found_templates, search_templates, template_views, templates, MenuEntry,
    TemplateView, ADD_DATA_INDEX,
};
use crate::snapshot::StoreSnapshot;
use crate::text::{same_text, trim, trimmed};
use vstd::prelude::*;

verus! {

/// What the menu lists.
#[derive(Debug, Clone, Copy, PartialEq, Eq, Structural)]
pub enum AddMenuMode {
    Templates,
    Data,
}

/// The open menu. Positions are bit patterns of coordinates.
pub struct AddMenuState {
    pub screen_pos: [u32; 2],
    pub canvas_pos: [u32; 2],
    pub query: String,
    pub mode: AddMenuMode,
    pub highlighted: usize,
    pub focus_requested: bool,
    pub dismiss_armed: bool,
}

impl AddMenuState {
    pub fn new(screen_pos: [u32; 2], canvas_pos: [u32; 2]) -> (r: AddMenuState)
        ensures
            r.screen_pos == screen_pos,
            r.canvas_pos == canvas_pos,
            r.query@.len() == 0,
            r.mode == AddMenuMode::Templates,
            r.highlighted == 0,
            r.focus_requested,
            !r.dismiss_armed,
    {
        AddMenuState {
            screen_pos,
            canvas_pos,
            query: String::new(),
            mode: AddMenuMode::Templates,
            highlighted: 0,
            focus_requested: true,
            dismiss_armed: false,
        }
    }
}

/// What the user has chosen.
pub enum AddAction {
    Template(usize),
    Data(DataHit),
    Close,
}

#[verifier::ext_equal]
pub ghost enum ActionView {
    Template(usize),
    Data(HitView),
    Close,
}

impl View for AddAction {
    type V = ActionView;

    open spec fn view(&self) -> ActionView {
        match self {
            AddAction::Template(index) => ActionView::Template(*index),
            AddAction::Data(hit) => ActionView::Data(hit@),
            AddAction::Close => ActionView::Close,
        }
    }
}

pub open spec fn action_view(action: Option<AddAction>) -> Option<ActionView> {
    match action {
        Some(action) => Some(action@),
        None => None,
    }
}

/// Whether a click closes the menu: one outside of it, but not the click that
/// opened it.
pub fn should_close_add_menu(was_dismiss_armed: bool, clicked_outside: bool) -> (r: bool)
    ensures
        r == (was_dismiss_armed && clicked_outside),
{
    was_dismiss_armed && clicked_outside
}

/// The row `delta` rows further, round the ends of a list of `len` rows.
pub open spec fn moved_highlight(current: int, len: int, delta: int) -> int {
    if len == 0 {
        0
    } else {
        (current + delta) % len
    }
}

/// Moves the highlight by `delta` rows, round the ends of the list.
pub fn move_highlight(current: usize, len: usize, delta: isize) -> (r: usize)
    ensures
        r == moved_highlight(current as int, len as int, delta as int),
        len > 0 ==> r < len,
{
    if len == 0 {
        return 0;
    }
    let at: i128 = current as i128 + delta as i128;
    let n: i128 = len as i128;
    if at >= 0 {
        (at % n) as usize
    } else {
        let back: i128 = -(at + 1);
        let rest: i128 = back % n;
        proof {
            vstd::arithmetic::div_mod::lemma_fundamental_div_mod(back as int, n as int);
            let q = back as int / n as int;
            assert((-q - 1) * n == -(n * q) - n) by (nonlinear_arith);
            vstd::arithmetic::div_mod::lemma_fundamental_div_mod_converse(
                at as int,
                n as int,
                -q - 1,
                n - 1 - rest,
            );
        }
        (n - 1 - rest) as usize
    }
}

/// Moving the highlight there and back changes nothing.
pub proof fn highlight_moves_are_undone(current: int, len: int, delta: int)
    requires
        0 <= current < len,
    ensures
        moved_highlight(moved_highlight(current, len, delta), len, -delta) == current,
{
    let there = (current + delta) % len;
    vstd::arithmetic::div_mod::lemma_fundamental_div_mod(current + delta, len);
    let q = (current + delta) / len;
    assert((-q) * len == -(len * q)) by (nonlinear_arith);
    vstd::arithmetic::div_mod::lemma_fundamental_div_mod_converse(
        there - delta,
        len,
        -q,
        current,
    );
}

/// The keys that were pressed.
#[derive(Clone, Copy, Debug, PartialEq, Eq, Structural)]
pub struct MenuKeys {
    pub escape: bool,
    pub down: bool,
    pub up: bool,
    pub enter: bool,
}

/// What a key asks for.
#[derive(Clone, Copy, Debug, PartialEq, Eq, Structural)]
pub enum MenuKey {
    Accept,
    Close,
}

/// The highlight after the arrow keys.
pub open spec fn highlight_after(keys: MenuKeys, highlighted: usize, len: usize) -> int {
    let down = if keys.down {
        moved_highlight(highlighted as int, len as int, 1)
    } else {
        highlighted as int
    };
    if keys.up {
        moved_highlight(down, len as int, -1)
    } else {
        down
    }
}

/// What the keys ask for.
pub open spec fn key_outcome(keys: MenuKeys, len: usize) -> Option<MenuKey> {
    if keys.escape {
        Some(MenuKey::Close)
    } else if len > 0 && keys.enter {
        Some(MenuKey::Accept)
    } else {
        None
    }
}

/// Moves the highlight and says what the keys ask for.
pub fn handle_menu_keys(keys: MenuKeys, highlighted: &mut usize, len: usize) -> (r: Option<MenuKey>)
    ensures
        r == key_outcome(keys, len),
        *final(highlighted) == if keys.escape {
            *old(highlighted) as int
        } else {
            highlight_after(keys, *old(highlighted), len)
        },
{
    if keys.escape {
        return Some(MenuKey::Close);
    }
    if keys.down {
        *highlighted = move_highlight(*highlighted, len, 1);
    }
    if keys.up {
        *highlighted = move_highlight(*highlighted, len, -1);
    }
    if len > 0 && keys.enter {
        return Some(MenuKey::Accept);
    }
    None
}

/// What accepting the highlighted row means.
pub open spec fn accepted(
    mode: AddMenuMode,
    highlighted: usize,
    template_hits: Seq<MenuEntry>,
    data_hits: Seq<HitView>,
) -> Option<ActionView> {
    match mode {
        AddMenuMode::Templates => if highlighted == 0 {
            Some(ActionView::Template(ADD_DATA_INDEX))
        } else if highlighted - 1 < template_hits.len() {
            Some(ActionView::Template(template_hits[highlighted - 1].index))
        } else {
            None
        },
        AddMenuMode::Data => if highlighted < data_hits.len() {
            Some(ActionView::Data(data_hits[highlighted as int]))
        } else {
            None
        },
    }
}

/// What accepting the highlighted row means.
pub fn accept_add_action(
    state: &AddMenuState,
    template_hits: &Vec<MenuEntry>,
    data_hits: &Vec<DataHit>,
) -> (r: Option<AddAction>)
    ensures
        action_view(r) == accepted(
            state.mode,
            state.highlighted,
            template_hits@,
            hit_views(data_hits@),
        ),
{
    match state.mode {
        AddMenuMode::Templates => {
            if state.highlighted == 0 {
                Some(AddAction::Template(ADD_DATA_INDEX))
            } else if state.highlighted - 1 < template_hits.len() {
                Some(AddAction::Template(template_hits[state.highlighted - 1].index))
            } else {
                None
            }
        },
        AddMenuMode::Data => {
            if state.highlighted < data_hits.len() {
                Some(AddAction::Data(data_hits[state.highlighted].duplicate()))
            } else {
                None
            }
        },
    }
}

/// Most data fields that the menu lists.
pub const DATA_HIT_LIMIT: usize = 24;

/// What the menu shows in one frame, and what the keys have chosen.
pub struct MenuFrame {
    pub template_hits: Vec<MenuEntry>,
    pub data_hits: Vec<DataHit>,
    pub was_dismiss_armed: bool,
    pub action: Option<AddAction>,
}

/// Number of rows that can be highlighted.
pub open spec fn row_count(
    mode: AddMenuMode,
    template_hits: Seq<MenuEntry>,
    data_hits: Seq<HitView>,
) -> int {
    match mode {
        AddMenuMode::Templates => template_hits.len() as int + 1,
        AddMenuMode::Data => data_hits.len() as int,
    }
}

/// The highlight within the rows there are.
pub open spec fn clamped_highlight(highlighted: usize, rows: int) -> int {
    let last = if rows > 0 {
        rows - 1
    } else {
        0
    };
    if highlighted <= last {
        highlighted as int
    } else {
        last
    }
}

/// The templates listed in a mode.
pub open spec fn listed_templates(mode: AddMenuMode, query: Seq<char>) -> Seq<MenuEntry> {
    if mode == AddMenuMode::Templates {
        found_templates(query)
    } else {
        Seq::empty()
    }
}

/// The fields listed in a mode.
pub open spec fn listed_fields(
    mode: AddMenuMode,
    snapshot: StoreSnapshot,
    query: Seq<char>,
) -> Seq<HitView> {
    if mode == AddMenuMode::Data {
        found_fields(snapshot, query, DATA_HIT_LIMIT as nat)
    } else {
        Seq::empty()
    }
}

/// Opens a frame of the menu: lists the hits, keeps the highlight within them,
/// lets the keys act, and arms the dismissal by a click outside.
pub fn open_menu_frame(
    state: &mut AddMenuState,
    snapshot: &StoreSnapshot,
    keys: MenuKeys,
) -> (r: MenuFrame)
    ensures
        r.was_dismiss_armed == old(state).dismiss_armed,
        final(state).dismiss_armed,
        final(state).query == old(state).query,
        final(state).mode == old(state).mode,
        final(state).screen_pos == old(state).screen_pos,
        final(state).canvas_pos == old(state).canvas_pos,
        final(state).focus_requested == old(state).focus_requested,
        r.template_hits@ == listed_templates(old(state).mode, old(state).query@),
        hit_views(r.data_hits@) == listed_fields(old(state).mode, *snapshot, old(state).query@),
        ({
            let rows = row_count(old(state).mode, r.template_hits@, hit_views(r.data_hits@));
            let clamped = clamped_highlight(old(state).highlighted, rows) as usize;
            let moved = if keys.escape {
                clamped
            } else {
                highlight_after(keys, clamped, rows as usize) as usize
            };
            &&& final(state).highlighted == moved
            &&& action_view(r.action) == match key_outcome(keys, rows as usize) {
                Some(MenuKey::Close) => Some(ActionView::Close),
                Some(MenuKey::Accept) => accepted(
                    old(state).mode,
                    moved,
                    r.template_hits@,
                    hit_views(r.data_hits@),
                ),
                None => None,
            }
        }),
{
    let was_dismiss_armed = state.dismiss_armed;
    state.dismiss_armed = true;
    let template_hits = if state.mode == AddMenuMode::Templates {
        search_templates(state.query.as_str())
    } else {
        Vec::new()
    };
    let data_hits = if state.mode == AddMenuMode::Data {
        search_fields(snapshot, state.query.as_str(), DATA_HIT_LIMIT)
    } else {
        Vec::new()
    };
    proof {
        assert(hit_views(data_hits@).len() == data_hits@.len());
        if state.mode != AddMenuMode::Data {
            assert(hit_views(data_hits@) =~= Seq::<HitView>::empty());
        }
        crate::registry::found_templates_are_few(state.query@);
    }
    let rows: usize = match state.mode {
        AddMenuMode::Templates => template_hits.len() + 1,
        AddMenuMode::Data => data_hits.len(),
    };
    let last: usize = if rows > 0 {
        rows - 1
    } else {
        0
    };
    let mut highlighted: usize = if state.highlighted <= last {
        state.highlighted
    } else {
        last
    };
    let outcome = handle_menu_keys(keys, &mut highlighted, rows);
    state.highlighted = highlighted;
    let action = match outcome {
        Some(MenuKey::Close) => Some(AddAction::Close),
        Some(MenuKey::Accept) => accept_add_action(state, &template_hits, &data_hits),
        None => None,
    };
    MenuFrame { template_hits, data_hits, was_dismiss_armed, action }
}

/// Closes a frame of the menu: a choice counts before a click outside.
pub fn close_menu_frame(
    action: Option<AddAction>,
    was_dismiss_armed: bool,
    clicked_outside: bool,
) -> (r: Option<AddAction>)
    ensures
        action is Some ==> r == action,
        action is None ==> action_view(r) == if was_dismiss_armed && clicked_outside {
            Some(ActionView::Close)
        } else {
            None
        },
{
    if action.is_none() && should_close_add_menu(was_dismiss_armed, clicked_outside) {
        Some(AddAction::Close)
    } else {
        action
    }
}

/// A line of the template list.
#[derive(Clone, Copy, Debug, PartialEq, Eq, Structural)]
pub enum MenuRow {
    /// The category of the templates below; the index is that of the first one.
    Category(usize),
    /// A template, by its index.
    Template(usize),
}

/// The lines of the first `n` hits. Without a search text each change of
/// category is announced.
pub open spec fn menu_lines(
    models: Seq<TemplateView>,
    hits: Seq<MenuEntry>,
    grouped: bool,
    n: nat,
) -> Seq<MenuRow>
    decreases n,
{
    if n == 0 {
        Seq::empty()
    } else {
        let rest = menu_lines(models, hits, grouped, (n - 1) as nat);
        let at = hits[n - 1].index;
        let changed = n == 1 || models[at as int].category != models[hits[n
            - 2].index as int].category;
        if grouped && changed {
            rest.push(MenuRow::Category(at)).push(MenuRow::Template(at))
        } else {
            rest.push(MenuRow::Template(at))
        }
    }
}

/// The lines of the template list.
pub fn menu_rows(query: &str, hits: &Vec<MenuEntry>) -> (r: Vec<MenuRow>)
    requires
        forall|i: int| 0 <= i < hits@.len() ==> (#[trigger] hits@[i]).index < all_templates().len(),
    ensures
        r@ == menu_lines(all_templates(), hits@, trimmed(query@).len() == 0, hits@.len()),
{
    let all = templates();
    let ghost models = all_templates();
    proof {
        assert(template_views(all@).len() == all@.len());
    }
    let word = trim(query);
    let grouped = word.as_str().is_empty();
    let mut out: Vec<MenuRow> = Vec::new();
    let mut i: usize = 0;
    while i < hits.len()
        invariant
            i <= hits@.len(),
            models == template_views(all@),
            models.len() == all@.len(),
            forall|k: int| 0 <= k < hits@.len() ==> (#[trigger] hits@[k]).index < models.len(),
            out@ == menu_lines(models, hits@, grouped, i as nat),
        decreases hits@.len() - i,
    {
        let at = hits[i].index;
        assert(hits@[i as int].index < models.len());
        assert(models[at as int] == all@[at as int]@);
        if grouped {
            let changed = if i == 0 {
                true
            } else {
                let before = hits[i - 1].index;
                assert(hits@[i - 1].index < models.len());
                assert(models[before as int] == all@[before as int]@);
                !same_text(all[at].category, all[before].category)
            };
            if changed {
                out.push(MenuRow::Category(at));
            }
        }
        out.push(MenuRow::Template(at));
        i = i + 1;
    }
    out
}

/// The text that the empty search box shows.
pub fn hint_text(mode: AddMenuMode) -> (r: &'static str)
    ensures
        r@ == match mode {
            AddMenuMode::Templates => "Search nodes"@,
            AddMenuMode::Data => "Search source, topic, field, or unit"@,
        },
{
    match mode {
        AddMenuMode::Templates => "Search nodes",
        AddMenuMode::Data => "Search source, topic, field, or unit",
    }
}

fn text_or_empty(s: &Option<String>) -> (r: String)
    ensures
        r@ == match optional_text(*s) {
            Some(text) => text,
            None => Seq::empty(),
        },
{
    match s {
        Some(s) => s.clone(),
        None => String::new(),
    }
}

/// The cells of a row of the field list: source, topic, field and unit.
pub fn data_cells(hit: &DataHit) -> (r: [String; 4])
    ensures
        r[0]@ == match hit@.selector.source {
            Some(source) => source,
            None => Seq::empty(),
        },
        r[1]@ == topic_name(hit@.selector.topic, hit@.selector.instance),
        r[2]@ == hit@.selector.field,
        r[3]@ == match hit@.unit {
            Some(unit) => unit,
            None => Seq::empty(),
        },
{
    [
        text_or_empty(&hit.selector.source),
        topic_display(&hit.selector),
        hit.selector.field.clone(),
        text_or_empty(&hit.unit),
    ]
}

} // verus!
