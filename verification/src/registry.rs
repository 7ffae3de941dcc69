//! The node templates of the add menu, and the search among them.

use crate::fuzzy::{ascii_lower, fuzzy_match_score, fuzzy_score};
use crate::graph::{
    AlignMode, ConversionKind, KindView, NodeKind, OutputFieldSpec, OutputSpec, PortView,
    ScriptInputSpec, ScriptSpec,
};
use crate::order::{as_ints, order_of, ranks_of, sorted_by, stable_order, RankKey};
use crate::text::{chars_of, trim, trimmed};
use vstd::prelude::*;

verus! {

/// The menu row that asks for a data field in place of a template.
pub const ADD_DATA_INDEX: usize = usize::MAX;

/// What a template makes.
#[derive(Clone, Copy, Debug, PartialEq, Eq, Structural)]
pub enum Blueprint {
    Constant,
    Add,
    Subtract,
    Multiply,
    Divide,
    ScaleOffset,
    Convert(ConversionKind),
    Align,
    Output,
    Script,
}

/// A node that the add menu offers.
pub struct NodeTemplate {
    pub name: &'static str,
    pub category: &'static str,
    pub aliases: Vec<&'static str>,
    pub blueprint: Blueprint,
}

#[verifier::ext_equal]
pub ghost struct TemplateView {
    pub name: Seq<char>,
    pub category: Seq<char>,
    pub aliases: Seq<Seq<char>>,
    pub blueprint: Blueprint,
}

pub open spec fn str_views(v: Seq<&'static str>) -> Seq<Seq<char>> {
    Seq::new(v.len(), |i: int| v[i]@)
}

impl View for NodeTemplate {
    type V = TemplateView;

    open spec fn view(&self) -> TemplateView {
        TemplateView {
            name: self.name@,
            category: self.category@,
            aliases: str_views(self.aliases@),
            blueprint: self.blueprint,
        }
    }
}

pub open spec fn template_views(v: Seq<NodeTemplate>) -> Seq<TemplateView> {
    Seq::new(v.len(), |i: int| v[i]@)
}

/// The bit pattern of the number one.
pub const ONE_BITS: u64 = 0x3ff0_0000_0000_0000;

/// The node that a blueprint makes.
pub open spec fn made(blueprint: Blueprint) -> KindView {
    match blueprint {
        Blueprint::Constant => KindView::Constant { value: 0 },
        Blueprint::Add => KindView::Add,
        Blueprint::Subtract => KindView::Subtract,
        Blueprint::Multiply => KindView::Multiply,
        Blueprint::Divide => KindView::Divide,
        Blueprint::ScaleOffset => KindView::ScaleOffset { multiplier: ONE_BITS, offset: 0 },
        Blueprint::Convert(kind) => KindView::Convert { kind },
        Blueprint::Align => KindView::Align { mode: AlignMode::Prev },
        Blueprint::Output => KindView::Output {
            topic: "derived"@,
            fields: seq![PortView { name: "out"@, unit: None }],
        },
        Blueprint::Script => KindView::Script {
            name: "Script"@,
            inputs: seq!["a"@],
            outputs: seq![PortView { name: "out"@, unit: None }],
            code: "def flow(inputs):\n    return {\"out\": inputs.a.v}\n"@,
        },
    }
}

fn single_output() -> (r: Vec<OutputFieldSpec>)
    ensures
        crate::graph::port_views(r@) == seq![PortView { name: "out"@, unit: None }],
{
    let mut fields: Vec<OutputFieldSpec> = Vec::new();
    fields.push(OutputFieldSpec { name: "out".to_owned(), unit: None });
    proof {
        assert(crate::graph::port_views(fields@) =~= seq![
            PortView { name: "out"@, unit: None },
        ]);
    }
    fields
}

impl NodeTemplate {
    /// A new node of this template.
    pub fn make(&self) -> (r: NodeKind)
        ensures
            r@ == made(self.blueprint),
    {
        match self.blueprint {
            Blueprint::Constant => NodeKind::Constant { value: 0 },
            Blueprint::Add => NodeKind::Add,
            Blueprint::Subtract => NodeKind::Subtract,
            Blueprint::Multiply => NodeKind::Multiply,
            Blueprint::Divide => NodeKind::Divide,
            Blueprint::ScaleOffset => NodeKind::ScaleOffset { multiplier: ONE_BITS, offset: 0 },
            Blueprint::Convert(kind) => NodeKind::Convert { kind },
            Blueprint::Align => NodeKind::Align { mode: AlignMode::Prev },
            Blueprint::Output => NodeKind::Output(
                OutputSpec { topic: "derived".to_owned(), fields: single_output() },
            ),
            Blueprint::Script => {
                let mut inputs: Vec<ScriptInputSpec> = Vec::new();
                inputs.push(ScriptInputSpec { name: "a".to_owned() });
                proof {
                    assert(crate::graph::input_views(inputs@) =~= seq!["a"@]);
                }
                NodeKind::Script(
                    ScriptSpec {
                        name: "Script".to_owned(),
                        inputs,
                        outputs: single_output(),
                        code: "def flow(inputs):\n    return {\"out\": inputs.a.v}\n".to_owned(),
                    },
                )
            },
        }
    }
}

pub open spec fn template_of(
    name: Seq<char>,
    category: Seq<char>,
    aliases: Seq<Seq<char>>,
    blueprint: Blueprint,
) -> TemplateView {
    TemplateView { name, category, aliases, blueprint }
}

/// The templates in the order of the menu.
pub open spec fn all_templates() -> Seq<TemplateView> {
    seq![
        template_of("Constant"@, "Data"@, seq!["const"@, "number"@, "value"@], Blueprint::Constant),
        template_of("Add"@, "Math"@, seq!["+"@, "plus"@, "sum"@], Blueprint::Add),
        template_of("Subtract"@, "Math"@, seq!["-"@, "minus"@], Blueprint::Subtract),
        template_of("Multiply"@, "Math"@, seq!["*"@, "x"@, "times"@], Blueprint::Multiply),
        template_of("Divide"@, "Math"@, seq!["/"@, "over"@], Blueprint::Divide),
        template_of(
            "Scale / Offset"@,
            "Math"@,
            seq!["scale"@, "offset"@, "gain"@],
            Blueprint::ScaleOffset,
        ),
        template_of(
            "Radians to Degrees"@,
            "Convert"@,
            seq!["rad"@, "deg"@, "radians"@, "degrees"@, "convert"@],
            Blueprint::Convert(ConversionKind::RadToDeg),
        ),
        template_of(
            "Degrees to Radians"@,
            "Convert"@,
            seq!["deg"@, "rad"@, "degrees"@, "radians"@, "convert"@],
            Blueprint::Convert(ConversionKind::DegToRad),
        ),
        template_of(
            "Heading 0..360"@,
            "Convert"@,
            seq!["heading"@, "wrap"@, "normalize"@, "angle"@, "yaw"@],
            Blueprint::Convert(ConversionKind::Heading0To360),
        ),
        template_of(
            "Heading -180..180"@,
            "Convert"@,
            seq!["heading"@, "wrap"@, "normalize"@, "angle"@, "yaw"@],
            Blueprint::Convert(ConversionKind::HeadingPm180),
        ),
        template_of(
            "m/s to km/h"@,
            "Convert"@,
            seq!["speed"@, "mps"@, "kmh"@, "kph"@, "velocity"@],
            Blueprint::Convert(ConversionKind::MsToKmh),
        ),
        template_of(
            "km/h to m/s"@,
            "Convert"@,
            seq!["speed"@, "kmh"@, "kph"@, "mps"@, "velocity"@],
            Blueprint::Convert(ConversionKind::KmhToMs),
        ),
        template_of(
            "Meters to Feet"@,
            "Convert"@,
            seq!["meters"@, "feet"@, "ft"@, "altitude"@, "distance"@],
            Blueprint::Convert(ConversionKind::MToFt),
        ),
        template_of(
            "Feet to Meters"@,
            "Convert"@,
            seq!["feet"@, "meters"@, "ft"@, "altitude"@, "distance"@],
            Blueprint::Convert(ConversionKind::FtToM),
        ),
        template_of(
            "Align to Timeline"@,
            "Time"@,
            seq!["align"@, "resample-to"@, "interp"@],
            Blueprint::Align,
        ),
        template_of(
            "Derived Topic Output"@,
            "Output"@,
            seq!["output"@, "publish"@, "emit"@],
            Blueprint::Output,
        ),
        template_of(
            "Python Script"@,
            "Script"@,
            seq!["python"@, "py"@, "script"@, "code"@],
            Blueprint::Script,
        ),
    ]
}

fn two(a: &'static str, b: &'static str) -> (r: Vec<&'static str>)
    ensures
        str_views(r@) == seq![a@, b@],
{
    let mut v: Vec<&'static str> = Vec::new();
    v.push(a);
    v.push(b);
    proof {
        assert(str_views(v@) =~= seq![a@, b@]);
    }
    v
}

fn three(a: &'static str, b: &'static str, c: &'static str) -> (r: Vec<&'static str>)
    ensures
        str_views(r@) == seq![a@, b@, c@],
{
    let mut v = two(a, b);
    v.push(c);
    proof {
        assert(str_views(v@) =~= seq![a@, b@].push(c@));
        assert(str_views(v@) =~= seq![a@, b@, c@]);
    }
    v
}

fn four(a: &'static str, b: &'static str, c: &'static str, d: &'static str) -> (r: Vec<
    &'static str,
>)
    ensures
        str_views(r@) == seq![a@, b@, c@, d@],
{
    let mut v = three(a, b, c);
    v.push(d);
    proof {
        assert(str_views(v@) =~= seq![a@, b@, c@].push(d@));
        assert(str_views(v@) =~= seq![a@, b@, c@, d@]);
    }
    v
}

fn five(
    a: &'static str,
    b: &'static str,
    c: &'static str,
    d: &'static str,
    e: &'static str,
) -> (r: Vec<&'static str>)
    ensures
        str_views(r@) == seq![a@, b@, c@, d@, e@],
{
    let mut v = four(a, b, c, d);
    v.push(e);
    proof {
        assert(str_views(v@) =~= seq![a@, b@, c@, d@].push(e@));
        assert(str_views(v@) =~= seq![a@, b@, c@, d@, e@]);
    }
    v
}

fn add_template(
    out: &mut Vec<NodeTemplate>,
    name: &'static str,
    category: &'static str,
    aliases: Vec<&'static str>,
    blueprint: Blueprint,
)
    ensures
        template_views(final(out)@) == template_views(old(out)@).push(
            template_of(name@, category@, str_views(aliases@), blueprint),
        ),
{
    out.push(NodeTemplate { name, category, aliases, blueprint });
    proof {
        assert(template_views(out@) =~= template_views(old(out)@).push(
            template_of(name@, category@, str_views(aliases@), blueprint),
        ));
    }
}

/// The templates in the order of the menu.
pub fn templates() -> (r: Vec<NodeTemplate>)
    ensures
        template_views(r@) == all_templates(),
{
    let mut out: Vec<NodeTemplate> = Vec::new();
    add_template(&mut out, "Constant", "Data", three("const", "number", "value"), Blueprint::Constant);
    add_template(&mut out, "Add", "Math", three("+", "plus", "sum"), Blueprint::Add);
    add_template(&mut out, "Subtract", "Math", two("-", "minus"), Blueprint::Subtract);
    add_template(&mut out, "Multiply", "Math", three("*", "x", "times"), Blueprint::Multiply);
    add_template(&mut out, "Divide", "Math", two("/", "over"), Blueprint::Divide);
    add_template(
        &mut out,
        "Scale / Offset",
        "Math",
        three("scale", "offset", "gain"),
        Blueprint::ScaleOffset,
    );
    add_template(
        &mut out,
        "Radians to Degrees",
        "Convert",
        five("rad", "deg", "radians", "degrees", "convert"),
        Blueprint::Convert(ConversionKind::RadToDeg),
    );
    add_template(
        &mut out,
        "Degrees to Radians",
        "Convert",
        five("deg", "rad", "degrees", "radians", "convert"),
        Blueprint::Convert(ConversionKind::DegToRad),
    );
    add_template(
        &mut out,
        "Heading 0..360",
        "Convert",
        five("heading", "wrap", "normalize", "angle", "yaw"),
        Blueprint::Convert(ConversionKind::Heading0To360),
    );
    add_template(
        &mut out,
        "Heading -180..180",
        "Convert",
        five("heading", "wrap", "normalize", "angle", "yaw"),
        Blueprint::Convert(ConversionKind::HeadingPm180),
    );
    add_template(
        &mut out,
        "m/s to km/h",
        "Convert",
        five("speed", "mps", "kmh", "kph", "velocity"),
        Blueprint::Convert(ConversionKind::MsToKmh),
    );
    add_template(
        &mut out,
        "km/h to m/s",
        "Convert",
        five("speed", "kmh", "kph", "mps", "velocity"),
        Blueprint::Convert(ConversionKind::KmhToMs),
    );
    add_template(
        &mut out,
        "Meters to Feet",
        "Convert",
        five("meters", "feet", "ft", "altitude", "distance"),
        Blueprint::Convert(ConversionKind::MToFt),
    );
    add_template(
        &mut out,
        "Feet to Meters",
        "Convert",
        five("feet", "meters", "ft", "altitude", "distance"),
        Blueprint::Convert(ConversionKind::FtToM),
    );
    add_template(
        &mut out,
        "Align to Timeline",
        "Time",
        three("align", "resample-to", "interp"),
        Blueprint::Align,
    );
    add_template(
        &mut out,
        "Derived Topic Output",
        "Output",
        three("output", "publish", "emit"),
        Blueprint::Output,
    );
    add_template(
        &mut out,
        "Python Script",
        "Script",
        four("python", "py", "script", "code"),
        Blueprint::Script,
    );
    proof {
        assert(template_views(out@) =~= all_templates());
    }
    out
}

/// Every conversion has a template of its name.
pub proof fn every_conversion_has_a_template(kind: ConversionKind)
    ensures
        exists|i: int|
            0 <= i < all_templates().len() && (#[trigger] all_templates()[i]).name
                == crate::graph::conversion_label(kind) && all_templates()[i].blueprint
                == Blueprint::Convert(kind),
{
    let i: int = match kind {
        ConversionKind::RadToDeg => 6,
        ConversionKind::DegToRad => 7,
        ConversionKind::Heading0To360 => 8,
        ConversionKind::HeadingPm180 => 9,
        ConversionKind::MsToKmh => 10,
        ConversionKind::KmhToMs => 11,
        ConversionKind::MToFt => 12,
        ConversionKind::FtToM => 13,
    };
    assert(all_templates()[i].name == crate::graph::conversion_label(kind));
}

/// A template that the search has found; less is better.
#[derive(Debug, Clone, Copy, PartialEq, Eq, Structural)]
pub struct MenuEntry {
    pub index: usize,
    pub score: u32,
}

/// Whether two texts are equal but for the case of ASCII letters.
pub open spec fn same_ignoring_case(a: Seq<char>, b: Seq<char>) -> bool {
    a.len() == b.len() && forall|i: int|
        0 <= i < a.len() ==> ascii_lower(#[trigger] a[i]) == ascii_lower(b[i])
}

fn lower_ascii(c: char) -> (r: char)
    ensures
        r == ascii_lower(c),
{
    if 'A' <= c && c <= 'Z' {
        (c as u8 + 32) as char
    } else {
        c
    }
}

/// Whether two texts are equal but for the case of ASCII letters.
fn eq_ignore_ascii_case(a: &str, b: &str) -> (r: bool)
    ensures
        r == same_ignoring_case(a@, b@),
{
    let x = chars_of(a);
    let y = chars_of(b);
    if x.len() != y.len() {
        return false;
    }
    let mut i: usize = 0;
    while i < x.len()
        invariant
            i <= x@.len() == y@.len(),
            x@ == a@,
            y@ == b@,
            forall|j: int| 0 <= j < i ==> ascii_lower(#[trigger] a@[j]) == ascii_lower(b@[j]),
        decreases x@.len() - i,
    {
        if lower_ascii(x[i]) != lower_ascii(y[i]) {
            assert(ascii_lower(a@[i as int]) != ascii_lower(b@[i as int]));
            return false;
        }
        i = i + 1;
    }
    true
}

/// How well a search text fits an alias: an alias written out fits best.
pub open spec fn alias_score(query: Seq<char>, alias: Seq<char>) -> Option<nat> {
    if same_ignoring_case(trimmed(query), alias) {
        Some(0)
    } else {
        fuzzy_score(query, alias)
    }
}

/// The better of two scores.
pub open spec fn better(a: Option<nat>, b: Option<nat>) -> Option<nat> {
    match (a, b) {
        (Some(x), Some(y)) => Some(
            if x <= y {
                x
            } else {
                y
            },
        ),
        (Some(x), None) => Some(x),
        (None, hit) => hit,
    }
}

/// The best score of a name and of the first `n` aliases.
pub open spec fn best_score(
    query: Seq<char>,
    name: Seq<char>,
    aliases: Seq<Seq<char>>,
    n: nat,
) -> Option<nat>
    decreases n,
{
    if n == 0 {
        fuzzy_score(query, name)
    } else {
        better(
            best_score(query, name, aliases, (n - 1) as nat),
            alias_score(query, aliases[n - 1]),
        )
    }
}

/// How well a search text fits a template.
pub open spec fn template_score(query: Seq<char>, template: TemplateView) -> Option<nat> {
    best_score(query, template.name, template.aliases, template.aliases.len())
}

/// The entries of the first `n` templates that the search text fits.
pub open spec fn fitting_entries(
    query: Seq<char>,
    templates: Seq<TemplateView>,
    n: nat,
) -> Seq<MenuEntry>
    decreases n,
{
    if n == 0 {
        Seq::empty()
    } else {
        let rest = fitting_entries(query, templates, (n - 1) as nat);
        match template_score(query, templates[n - 1]) {
            Some(score) => rest.push(
                MenuEntry { index: (n - 1) as usize, score: score as u32 },
            ),
            None => rest,
        }
    }
}

pub open spec fn entry_rank(entry: MenuEntry) -> RankKey {
    RankKey { a: entry.score as i64, b: entry.index as i64, c: 0, d: 0 }
}

pub open spec fn entry_ranks(entries: Seq<MenuEntry>) -> Seq<RankKey> {
    Seq::new(entries.len(), |i: int| entry_rank(entries[i]))
}

/// The templates that a search text fits, best first; all of them, in the order
/// of the menu, for a text without words.
pub open spec fn found_templates(query: Seq<char>) -> Seq<MenuEntry> {
    let all = all_templates();
    if trimmed(query).len() == 0 {
        Seq::new(all.len(), |i: int| MenuEntry { index: i as usize, score: 0 })
    } else {
        let hits = fitting_entries(query, all, all.len());
        sorted_by(hits, entry_ranks(hits))
    }
}

fn better_of(a: Option<u32>, b: Option<u32>) -> (r: Option<u32>)
    ensures
        optional_nat(r) == better(optional_nat(a), optional_nat(b)),
{
    match (a, b) {
        (Some(x), Some(y)) => Some(
            if x <= y {
                x
            } else {
                y
            },
        ),
        (Some(x), None) => Some(x),
        (None, hit) => hit,
    }
}

pub open spec fn optional_nat(n: Option<u32>) -> Option<nat> {
    match n {
        Some(n) => Some(n as nat),
        None => None,
    }
}

fn score_template(query: &str, template: &NodeTemplate) -> (r: Option<u32>)
    ensures
        optional_nat(r) == template_score(query@, template@),
{
    let word = trim(query);
    let mut score = fuzzy_match_score(query, template.name);
    let mut i: usize = 0;
    while i < template.aliases.len()
        invariant
            i <= template.aliases@.len(),
            word@ == trimmed(query@),
            optional_nat(score) == best_score(
                query@,
                template@.name,
                template@.aliases,
                i as nat,
            ),
        decreases template.aliases@.len() - i,
    {
        let alias = template.aliases[i];
        assert(template@.aliases[i as int] == alias@);
        let own = if eq_ignore_ascii_case(word.as_str(), alias) {
            Some(0u32)
        } else {
            fuzzy_match_score(query, alias)
        };
        score = better_of(score, own);
        i = i + 1;
    }
    score
}

/// The templates that a search text fits, best first.
pub fn search_templates(query: &str) -> (r: Vec<MenuEntry>)
    ensures
        r@ == found_templates(query@),
{
    let all = templates();
    let ghost models = all_templates();
    proof {
        assert(template_views(all@).len() == all@.len());
    }
    let mut hits: Vec<MenuEntry> = Vec::new();
    let word = trim(query);
    if word.as_str().is_empty() {
        let mut i: usize = 0;
        while i < all.len()
            invariant
                i <= all@.len() == models.len(),
                hits@ == Seq::new(i as nat, |k: int| MenuEntry { index: k as usize, score: 0 }),
            decreases all@.len() - i,
        {
            hits.push(MenuEntry { index: i, score: 0 });
            proof {
                assert(hits@ =~= Seq::new(
                    (i + 1) as nat,
                    |k: int| MenuEntry { index: k as usize, score: 0 },
                ));
            }
            i = i + 1;
        }
        return hits;
    }
    let mut keys: Vec<RankKey> = Vec::new();
    let mut i: usize = 0;
    while i < all.len()
        invariant
            i <= all@.len() == models.len(),
            models.len() == 17,
            models == template_views(all@),
            hits@ == fitting_entries(query@, models, i as nat),
            keys@ == entry_ranks(hits@),
        decreases all@.len() - i,
    {
        assert(models[i as int] == all@[i as int]@);
        if let Some(score) = score_template(query, &all[i]) {
            let ghost before = hits@;
            hits.push(MenuEntry { index: i, score });
            keys.push(RankKey { a: score as i64, b: i as i64, c: 0, d: 0 });
            proof {
                assert(keys@ =~= entry_ranks(hits@));
            }
        }
        i = i + 1;
    }
    let order = stable_order(&keys);
    proof {
        assert(ranks_of(keys@) =~= keys@);
        assert(as_ints(order@).len() == order@.len());
    }
    let mut out: Vec<MenuEntry> = Vec::new();
    let ghost sorted = sorted_by(hits@, entry_ranks(hits@));
    let mut j: usize = 0;
    while j < order.len()
        invariant
            j <= order@.len(),
            order@.len() == hits@.len(),
            sorted == sorted_by(hits@, entry_ranks(hits@)),
            as_ints(order@) == order_of(entry_ranks(hits@)),
            forall|k: int| 0 <= k < order@.len() ==> (#[trigger] order@[k]) < hits@.len(),
            out@ == sorted.take(j as int),
        decreases order@.len() - j,
    {
        out.push(hits[order[j]]);
        proof {
            assert(as_ints(order@)[j as int] == order@[j as int]);
            assert(sorted.take(j + 1) =~= sorted.take(j as int).push(
                hits@[order@[j as int] as int],
            ));
        }
        j = j + 1;
    }
    proof {
        assert(sorted.take(j as int) =~= sorted);
    }
    out
}

proof fn lemma_fitting_len(query: Seq<char>, templates: Seq<TemplateView>, n: nat)
    requires
        n <= templates.len(),
    ensures
        fitting_entries(query, templates, n).len() <= n,
        forall|i: int|
            0 <= i < fitting_entries(query, templates, n).len() ==> (#[trigger] fitting_entries(
                query,
                templates,
                n,
            )[i]).index < n || n > usize::MAX,
    decreases n,
{
    if n > 0 {
        lemma_fitting_len(query, templates, (n - 1) as nat);
    }
}

/// A search never yields more than the templates there are, and only these.
pub proof fn found_templates_are_few(query: Seq<char>)
    ensures
        found_templates(query).len() <= all_templates().len(),
        forall|i: int|
            0 <= i < found_templates(query).len() ==> (#[trigger] found_templates(query)[i]).index
                < all_templates().len(),
{
    let all = all_templates();
    assert(all.len() == 17);
    let hits = fitting_entries(query, all, all.len());
    lemma_fitting_len(query, all, all.len());
    crate::order::stable_order_is_sorted(entry_ranks(hits));
    let out = found_templates(query);
    assert forall|i: int| 0 <= i < out.len() implies (#[trigger] out[i]).index < all.len() by {
        if trimmed(query).len() != 0 {
            let at = order_of(entry_ranks(hits))[i];
            assert(out[i] == hits[at]);
        }
    }
}

} // verus!
