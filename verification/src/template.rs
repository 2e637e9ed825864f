//! The template parser and renderer: a template string becomes an ordered
//! tree of nodes — text, field-with-filters, conditional block — and the
//! renderer walks that tree with a field-value mapping and an optional
//! cloze context, producing the output string.
use crate::cloze::{render_cloze, spec_render_cloze};
use crate::filters::{apply_filter, spec_apply_filter};
use crate::text::{
    chars_eq, chars_to_string, find_sub, is_match_at, lemma_find_sub, lemma_skip_skip, name_is,
    push_range, push_str_chars, starts_with_at, str_to_chars,
};
use vstd::prelude::*;

verus! {

broadcast use vstd::string::group_string_axioms, vstd::std_specs::vec::group_vec_axioms;

/// A parsed template node: plain text, a field substitution with its
/// filter chain (outermost filter first, as written), or a conditional
/// block with its fully parsed children.
#[derive(Debug, PartialEq)]
pub enum TemplateNode {
    /// Plain text content.
    Text(String),
    /// Field substitution: `{{FieldName}}` or `{{filter:FieldName}}`.
    Field { name: String, filters: Vec<String> },
    /// Conditional block: `{{#Field}}...{{/Field}}` or `{{^Field}}...{{/Field}}`.
    Conditional { field: String, children: Vec<TemplateNode>, is_negative: bool },
}

/// The mathematical shape of a template node: its strings and children as
/// sequences.
pub enum NodeV {
    Text { text: Seq<char> },
    Field { name: Seq<char>, filters: Seq<Seq<char>> },
    Conditional { field: Seq<char>, children: Seq<NodeV>, negative: bool },
}

impl TemplateNode {
    /// The node's mathematical shape.
    pub open spec fn node_v(self) -> NodeV
        decreases self,
        via Self::node_v_decreases
    {
        match self {
            TemplateNode::Text(t) => NodeV::Text { text: t@ },
            TemplateNode::Field { name, filters } => NodeV::Field {
                name: name@,
                filters: filters.deep_view(),
            },
            TemplateNode::Conditional { field, children, is_negative } => NodeV::Conditional {
                field: field@,
                children: nodes_v_rec(children@),
                negative: is_negative,
            },
        }
    }

    #[via_fn]
    proof fn node_v_decreases(self) {
        match self {
            TemplateNode::Conditional { field, children, is_negative } => {
                assert(decreases_to!(self => children));
                assert(decreases_to!(children => children@));
            },
            _ => {},
        }
    }
}

impl Clone for TemplateNode {
    /// A deep copy with the same mathematical shape as the original node.
    #[verifier::loop_isolation(false)]
    fn clone(&self) -> (r: TemplateNode)
        ensures
            r.node_v() == self.node_v(),
        decreases self,
    {
        match self {
            TemplateNode::Text(t) => TemplateNode::Text(t.clone()),
            TemplateNode::Field { name, filters } => {
                let fc = filters.clone();
                proof {
                    assert forall|j: int| 0 <= j < fc@.len() implies fc@[j] == filters@[j] by {
                        assert(vstd::pervasive::cloned::<String>(filters[j], fc[j]));
                    }
                    assert(fc@ =~= filters@);
                    assert(fc.deep_view() =~= filters.deep_view());
                }
                TemplateNode::Field { name: name.clone(), filters: fc }
            },
            TemplateNode::Conditional { field, children, is_negative } => {
                let mut kids: Vec<TemplateNode> = Vec::new();
                let mut i: usize = 0;
                while i < children.len()
                    invariant
                        i <= children@.len(),
                        kids@.len() == i,
                        forall|j: int| 0 <= j < i ==> kids@[j].node_v() == children@[j].node_v(),
                    decreases children@.len() - i,
                {
                    proof {
                        assert(decreases_to!(*self => *children));
                        assert(decreases_to!(*children => children@));
                        assert(decreases_to!(children@ => children@[i as int]));
                    }
                    kids.push(children[i].clone());
                    i += 1;
                }
                proof {
                    lemma_nodes_v_rec(kids@);
                    lemma_nodes_v_rec(children@);
                    assert(nodes_v(kids@) =~= nodes_v(children@));
                }
                TemplateNode::Conditional {
                    field: field.clone(),
                    children: kids,
                    is_negative: *is_negative,
                }
            },
        }
    }
}

/// The mathematical shape of a node sequence, element by element.
pub open spec fn nodes_v_rec(s: Seq<TemplateNode>) -> Seq<NodeV>
    decreases s, 0nat,
{
    if s.len() == 0 {
        Seq::empty()
    } else {
        seq![s[0].node_v()] + nodes_v_rec(s.skip(1))
    }
}

/// The mathematical shape of a node sequence.
pub open spec fn nodes_v(s: Seq<TemplateNode>) -> Seq<NodeV> {
    Seq::new(s.len(), |i: int| s[i].node_v())
}

/// The element-by-element shape agrees with the pointwise one.
pub proof fn lemma_nodes_v_rec(s: Seq<TemplateNode>)
    ensures
        nodes_v_rec(s) == nodes_v(s),
    decreases s.len(),
{
    if s.len() == 0 {
        assert(nodes_v_rec(s) =~= nodes_v(s));
    } else {
        lemma_nodes_v_rec(s.skip(1));
        assert forall|i: int| 0 <= i < s.len() implies nodes_v_rec(s)[i] == nodes_v(s)[i] by {
            if i > 0 {
                assert(nodes_v_rec(s)[i] == nodes_v(s.skip(1))[i - 1]);
                assert(s.skip(1)[i - 1] == s[i]);
            }
        }
        assert(nodes_v_rec(s) =~= nodes_v(s));
    }
}

/// One name/value entry of the field mapping.
struct FieldEntry {
    name: Vec<char>,
    value: Vec<char>,
}

/// The field-value mapping handed to a render call: field names to values,
/// a later insertion of a name overriding an earlier one.
pub struct Fields {
    entries: Vec<FieldEntry>,
}

/// The mapping that a list of name/value entries builds up, first to last.
spec fn entries_map(entries: Seq<FieldEntry>) -> Map<Seq<char>, Seq<char>>
    decreases entries.len(),
{
    if entries.len() == 0 {
        Map::empty()
    } else {
        entries_map(entries.drop_last()).insert(entries.last().name@, entries.last().value@)
    }
}

impl View for Fields {
    type V = Map<Seq<char>, Seq<char>>;

    closed spec fn view(&self) -> Map<Seq<char>, Seq<char>> {
        entries_map(self.entries@)
    }
}

/// The value a field name resolves to: the mapped value, or empty where
/// the name is absent.
pub open spec fn field_value(fields: Map<Seq<char>, Seq<char>>, name: Seq<char>) -> Seq<char> {
    if fields.contains_key(name) {
        fields[name]
    } else {
        Seq::empty()
    }
}

impl Fields {
    /// An empty mapping.
    pub fn new() -> (r: Fields)
        ensures
            r@ == Map::<Seq<char>, Seq<char>>::empty(),
    {
        Fields { entries: Vec::new() }
    }

    /// Maps `name` to `value`, overriding any earlier value of `name`.
    pub fn insert(&mut self, name: String, value: String)
        ensures
            final(self)@ == old(self)@.insert(name@, value@),
    {
        let n = str_to_chars(name.as_str());
        let v = str_to_chars(value.as_str());
        self.entries.push(FieldEntry { name: n, value: v });
        proof {
            assert(self.entries@.drop_last() =~= old(self).entries@);
            assert(self.entries@.last().name@ == name@);
            assert(self.entries@.last().value@ == value@);
        }
    }

    /// The value mapped to `name`, or the empty string where `name` is
    /// absent.
    pub fn get_value(&self, name: &str) -> (r: String)
        ensures
            r@ == field_value(self@, name@),
    {
        let key = str_to_chars(name);
        let mut k: usize = self.entries.len();
        proof {
            assert(self.entries@.subrange(0, k as int) =~= self.entries@);
        }
        while k > 0
            invariant
                k <= self.entries@.len(),
                key@ == name@,
                field_value(self@, name@) == field_value(
                    entries_map(self.entries@.subrange(0, k as int)),
                    name@,
                ),
            decreases k,
        {
            k -= 1;
            if chars_eq(self.entries[k].name.as_slice(), key.as_slice()) {
                proof {
                    lemma_entries_step(self.entries@, k as int);
                    assert(self.entries@[k as int].name@ == name@);
                }
                return chars_to_string(&self.entries[k].value);
            }
            proof {
                lemma_entries_step(self.entries@, k as int);
                assert(self.entries@[k as int].name@ != name@);
            }
        }
        proof {
            assert(self.entries@.subrange(0, 0) =~= Seq::<FieldEntry>::empty());
            assert(!entries_map(Seq::<FieldEntry>::empty()).contains_key(name@));
        }
        String::new()
    }
}

/// Cutting the entry list after `k + 1` entries builds the map of the
/// first `k` entries with the entry at `k` inserted on top.
proof fn lemma_entries_step(entries: Seq<FieldEntry>, k: int)
    requires
        0 <= k < entries.len(),
    ensures
        entries_map(entries.subrange(0, k + 1)) == entries_map(entries.subrange(0, k)).insert(
            entries[k].name@,
            entries[k].value@,
        ),
{
    assert(entries.subrange(0, k + 1).drop_last() =~= entries.subrange(0, k));
    assert(entries.subrange(0, k + 1).last() == entries[k]);
}

/// The cloze rendering context: which card ordinal is active, and whether
/// the question side is being rendered.
pub struct ClozeContext {
    pub card_ord: u32,
    pub is_question: bool,
}

/// The context a render call carries, as a plain optional value.
pub open spec fn ctx_v(ctx: Option<&ClozeContext>) -> Option<ClozeContext> {
    match ctx {
        Some(c) => Some(*c),
        None => None,
    }
}

/// One filter application as the renderer performs it: the name `cloze`
/// goes to the cloze engine under the active context — or passes the value
/// through when no context was supplied — and every other name goes to the
/// filter pipeline.
pub open spec fn spec_apply_one(
    name: Seq<char>,
    value: Seq<char>,
    ctx: Option<ClozeContext>,
) -> Seq<char> {
    if name == "cloze"@ {
        match ctx {
            Some(c) => spec_render_cloze(value, c.card_ord, c.is_question),
            None => value,
        }
    } else {
        spec_apply_filter(name, value)
    }
}

/// The filter chain applied in reverse of written order: the rightmost
/// (innermost-written) filter runs first.
pub open spec fn spec_apply_filters(
    filters: Seq<Seq<char>>,
    value: Seq<char>,
    ctx: Option<ClozeContext>,
) -> Seq<char>
    decreases filters.len(),
{
    if filters.len() == 0 {
        value
    } else {
        spec_apply_one(filters[0], spec_apply_filters(filters.skip(1), value, ctx), ctx)
    }
}

/// What one node renders as: text verbatim; a field as its resolved value
/// run through its filter chain; a conditional as its children's rendering
/// where the named field's emptiness agrees with the block's sign, else
/// nothing.
pub open spec fn spec_render_node(
    node: NodeV,
    fields: Map<Seq<char>, Seq<char>>,
    ctx: Option<ClozeContext>,
) -> Seq<char>
    decreases node,
{
    match node {
        NodeV::Text { text } => text,
        NodeV::Field { name, filters } => spec_apply_filters(
            filters,
            field_value(fields, name),
            ctx,
        ),
        NodeV::Conditional { field, children, negative } => {
            if (field_value(fields, field).len() > 0) != negative {
                spec_render_nodes(children, fields, ctx)
            } else {
                Seq::empty()
            }
        },
    }
}

/// What a node sequence renders as: each node in order, concatenated.
pub open spec fn spec_render_nodes(
    nodes: Seq<NodeV>,
    fields: Map<Seq<char>, Seq<char>>,
    ctx: Option<ClozeContext>,
) -> Seq<char>
    decreases nodes,
{
    if nodes.len() == 0 {
        Seq::empty()
    } else {
        spec_render_node(nodes[0], fields, ctx) + spec_render_nodes(nodes.skip(1), fields, ctx)
    }
}

/// One filter application: `cloze` goes to the cloze engine under the
/// context (or passes through without one), other names to the pipeline.
fn apply_one(name: &str, value: &str, ctx: Option<&ClozeContext>) -> (r: String)
    ensures
        r@ == spec_apply_one(name@, value@, ctx_v(ctx)),
{
    if name_is(name, "cloze") {
        match ctx {
            Some(c) => render_cloze(value, c.card_ord, c.is_question),
            None => value.to_owned(),
        }
    } else {
        apply_filter(name, value)
    }
}

/// Renders a node sequence into a character vector.
fn render_nodes_chars(nodes: &[TemplateNode], fields: &Fields, ctx: Option<&ClozeContext>) -> (r:
    Vec<char>)
    ensures
        r@ == spec_render_nodes(nodes_v(nodes@), fields@, ctx_v(ctx)),
    decreases nodes@,
{
    let ghost nv = nodes_v(nodes@);
    let mut out: Vec<char> = Vec::new();
    let mut idx: usize = 0;
    proof {
        assert(nv.skip(0) =~= nv);
        assert(Seq::<char>::empty() + spec_render_nodes(nv, fields@, ctx_v(ctx))
            =~= spec_render_nodes(nv, fields@, ctx_v(ctx)));
    }
    while idx < nodes.len()
        invariant
            idx <= nodes@.len(),
            nv == nodes_v(nodes@),
            spec_render_nodes(nv, fields@, ctx_v(ctx)) == out@ + spec_render_nodes(
                nv.skip(idx as int),
                fields@,
                ctx_v(ctx),
            ),
        decreases nodes@.len() - idx,
    {
        let ghost out0 = out@;
        let ghost tail = nv.skip(idx as int);
        proof {
            assert(tail[0] == nv[idx as int]);
            assert(tail.skip(1) =~= nv.skip(idx + 1));
            assert(spec_render_nodes(tail, fields@, ctx_v(ctx)) == spec_render_node(
                nv[idx as int],
                fields@,
                ctx_v(ctx),
            ) + spec_render_nodes(nv.skip(idx + 1), fields@, ctx_v(ctx)));
        }
        let ghost piece = spec_render_node(nv[idx as int], fields@, ctx_v(ctx));
        match &nodes[idx] {
            TemplateNode::Text(text) => {
                push_str_chars(&mut out, text.as_str());
                proof {
                    assert(piece == text@);
                }
            },
            TemplateNode::Field { name, filters } => {
                let ghost fs = filters.deep_view();
                let mut value = fields.get_value(name.as_str());
                let ghost v0 = field_value(fields@, name@);
                let mut j: usize = filters.len();
                proof {
                    assert(fs.skip(j as int) =~= Seq::<Seq<char>>::empty());
                    assert(spec_apply_filters(fs.skip(j as int), v0, ctx_v(ctx)) == v0);
                }
                while j > 0
                    invariant
                        j <= filters@.len(),
                        fs == filters.deep_view(),
                        v0 == field_value(fields@, name@),
                        value@ == spec_apply_filters(fs.skip(j as int), v0, ctx_v(ctx)),
                    decreases j,
                {
                    j -= 1;
                    value = apply_one(filters[j].as_str(), value.as_str(), ctx);
                    proof {
                        assert(fs.skip(j as int)[0] == fs[j as int]);
                        assert(fs[j as int] == filters@[j as int]@);
                        assert(fs.skip(j as int).skip(1) =~= fs.skip(j + 1));
                        assert(spec_apply_filters(fs.skip(j as int), v0, ctx_v(ctx))
                            == spec_apply_one(
                            fs[j as int],
                            spec_apply_filters(fs.skip(j + 1), v0, ctx_v(ctx)),
                            ctx_v(ctx),
                        ));
                    }
                }
                proof {
                    assert(fs.skip(0) =~= fs);
                    assert(piece == spec_apply_filters(fs, v0, ctx_v(ctx)));
                }
                push_str_chars(&mut out, value.as_str());
            },
            TemplateNode::Conditional { field, children, is_negative } => {
                let value = fields.get_value(field.as_str());
                let has_value = !value.as_str().is_empty();
                let should_render = if *is_negative {
                    !has_value
                } else {
                    has_value
                };
                proof {
                    assert(value@ == field_value(fields@, field@));
                    lemma_nodes_v_rec(children@);
                    assert(nv[idx as int] == NodeV::Conditional {
                        field: field@,
                        children: nodes_v(children@),
                        negative: *is_negative,
                    });
                }
                if should_render {
                    let sub = render_nodes_chars(children.as_slice(), fields, ctx);
                    out.extend_from_slice(sub.as_slice());
                    proof {
                        assert(piece == sub@);
                        assert(out@ =~= out0 + sub@);
                    }
                } else {
                    proof {
                        assert(piece =~= Seq::<char>::empty());
                        assert(out@ =~= out0 + piece);
                    }
                }
            },
        }
        proof {
            let rest = spec_render_nodes(nv.skip(idx + 1), fields@, ctx_v(ctx));
            assert(out@ =~= out0 + piece);
            assert(out0 + (piece + rest) =~= out@ + rest);
        }
        idx += 1;
    }
    proof {
        assert(nv.skip(nv.len() as int) =~= Seq::<NodeV>::empty());
        assert(out@ + Seq::<char>::empty() =~= out@);
    }
    out
}

/// Renders parsed template nodes with the given fields and optional cloze
/// context. A pure function of its three inputs: the tree is only read, so
/// one tree may be rendered again and again with different mappings.
pub fn render_nodes(nodes: &[TemplateNode], fields: &Fields, cloze_ctx: Option<&ClozeContext>) -> (
    r: String)
    ensures
        r@ == spec_render_nodes(nodes_v(nodes@), fields@, ctx_v(cloze_ctx)),
{
    let v = render_nodes_chars(nodes, fields, cloze_ctx);
    chars_to_string(&v)
}

/// Whether a character above ASCII counts as alphanumeric.
///
/// Names the part of char::is_alphanumeric that no short statement
/// covers — the Unicode letter and number categories beyond ASCII.
pub uninterp spec fn is_alphanumeric_above_ascii(c: char) -> bool;

/// Whether the character counts as alphanumeric in the template grammar:
/// below 128 exactly the ASCII letters and digits, above 128 the Unicode
/// letter and number categories.
pub open spec fn is_alphanumeric_char(c: char) -> bool {
    if (c as u32) < 128 {
        (48 <= c as u32 <= 57) || (65 <= c as u32 <= 90) || (97 <= c as u32 <= 122)
    } else {
        is_alphanumeric_above_ascii(c)
    }
}

/// Relies on char::is_alphanumeric: a pure classification of the
/// character, the same on every call; below 128 it holds exactly of the
/// ASCII letters and digits.
pub assume_specification[ char::is_alphanumeric ](c: char) -> (r: bool)
    ensures
        r == is_alphanumeric_char(c),
        (c as u32) >= 128 ==> r == is_alphanumeric_above_ascii(c),
;

/// Whether the character may stand in a field name: alphanumeric,
/// underscore or space.
pub open spec fn is_name_char(c: char) -> bool {
    is_alphanumeric_char(c) || c == '_' || c == ' '
}

/// Whether the character may stand in a filter segment: alphanumeric,
/// hyphen or underscore.
pub open spec fn is_seg_char(c: char) -> bool {
    is_alphanumeric_char(c) || c == '-' || c == '_'
}

/// Length of the run of field-name characters at the head of `s`.
pub open spec fn name_run_len(s: Seq<char>) -> nat
    decreases s.len(),
{
    if s.len() == 0 || !is_name_char(s[0]) {
        0
    } else {
        1 + name_run_len(s.skip(1))
    }
}

/// Length of the run of filter-segment characters at the head of `s`.
pub open spec fn seg_run_len(s: Seq<char>) -> nat
    decreases s.len(),
{
    if s.len() == 0 || !is_seg_char(s[0]) {
        0
    } else {
        1 + seg_run_len(s.skip(1))
    }
}

/// The name run at the head of `s` is exactly the maximal name prefix.
proof fn lemma_name_run_eq(t: Seq<char>, m: int)
    requires
        0 <= m <= t.len(),
        forall|j: int| 0 <= j < m ==> is_name_char(t[j]),
        m < t.len() ==> !is_name_char(t[m]),
    ensures
        name_run_len(t) == m,
    decreases t.len(),
{
    if m == 0 {
    } else {
        lemma_name_run_eq(t.skip(1), m - 1);
    }
}

/// The segment run at the head of `s` is exactly the maximal segment prefix.
proof fn lemma_seg_run_eq(t: Seq<char>, m: int)
    requires
        0 <= m <= t.len(),
        forall|j: int| 0 <= j < m ==> is_seg_char(t[j]),
        m < t.len() ==> !is_seg_char(t[m]),
    ensures
        seg_run_len(t) == m,
    decreases t.len(),
{
    if m == 0 {
    } else {
        lemma_seg_run_eq(t.skip(1), m - 1);
    }
}

/// Whether the character may stand in a field name.
fn name_char_check(c: char) -> (r: bool)
    ensures
        r == is_name_char(c),
{
    c.is_alphanumeric() || c == '_' || c == ' '
}

/// Whether the character may stand in a filter segment.
fn seg_char_check(c: char) -> (r: bool)
    ensures
        r == is_seg_char(c),
{
    c.is_alphanumeric() || c == '-' || c == '_'
}

/// End of the run of field-name characters from `from`, clipped at `to`.
fn name_run_to(s: &[char], from: usize, to: usize) -> (r: usize)
    requires
        from <= to <= s@.len(),
    ensures
        from <= r <= to,
        r - from == name_run_len(s@.subrange(from as int, to as int)),
        forall|j: int| from <= j < r ==> is_name_char(s@[j]),
{
    let mut k: usize = from;
    while k < to && name_char_check(s[k])
        invariant
            from <= k <= to <= s@.len(),
            forall|j: int| from <= j < k ==> is_name_char(s@[j]),
        decreases to - k,
    {
        k += 1;
    }
    proof {
        let t = s@.subrange(from as int, to as int);
        assert(forall|j: int| 0 <= j < k - from ==> t[j] == s@[j + from] && is_name_char(t[j]));
        if (k as int) - (from as int) < t.len() {
            assert(t[k - from] == s@[k as int]);
        }
        lemma_name_run_eq(t, k - from);
    }
    k
}

/// End of the run of filter-segment characters from `from`, clipped at `to`.
fn seg_run_to(s: &[char], from: usize, to: usize) -> (r: usize)
    requires
        from <= to <= s@.len(),
    ensures
        from <= r <= to,
        r - from == seg_run_len(s@.subrange(from as int, to as int)),
        forall|j: int| from <= j < r ==> is_seg_char(s@[j]),
{
    let mut k: usize = from;
    while k < to && seg_char_check(s[k])
        invariant
            from <= k <= to <= s@.len(),
            forall|j: int| from <= j < k ==> is_seg_char(s@[j]),
        decreases to - k,
    {
        k += 1;
    }
    proof {
        let t = s@.subrange(from as int, to as int);
        assert(forall|j: int| 0 <= j < k - from ==> t[j] == s@[j + from] && is_seg_char(t[j]));
        if (k as int) - (from as int) < t.len() {
            assert(t[k - from] == s@[k as int]);
        }
        lemma_seg_run_eq(t, k - from);
    }
    k
}

/// Count of leading spaces of `s`.
pub open spec fn head_spaces(s: Seq<char>) -> nat
    decreases s.len(),
{
    if s.len() == 0 || s[0] != ' ' {
        0
    } else {
        1 + head_spaces(s.skip(1))
    }
}

/// Count of trailing spaces of `s`.
pub open spec fn tail_spaces(s: Seq<char>) -> nat
    decreases s.len(),
{
    if s.len() == 0 || s.last() != ' ' {
        0
    } else {
        1 + tail_spaces(s.drop_last())
    }
}

/// `s` with its leading and trailing spaces removed.
pub open spec fn trim_spaces(s: Seq<char>) -> Seq<char> {
    let rest = s.skip(head_spaces(s) as int);
    rest.take(rest.len() - tail_spaces(rest))
}

/// The leading spaces are exactly the maximal space prefix.
proof fn lemma_head_spaces_eq(t: Seq<char>, m: int)
    requires
        0 <= m <= t.len(),
        forall|j: int| 0 <= j < m ==> t[j] == ' ',
        m < t.len() ==> t[m] != ' ',
    ensures
        head_spaces(t) == m,
    decreases t.len(),
{
    if m == 0 {
    } else {
        lemma_head_spaces_eq(t.skip(1), m - 1);
    }
}

/// The trailing spaces are exactly the maximal space suffix.
proof fn lemma_tail_spaces_eq(t: Seq<char>, m: int)
    requires
        0 <= m <= t.len(),
        forall|j: int| t.len() - m <= j < t.len() ==> t[j] == ' ',
        m < t.len() ==> t[t.len() - m - 1] != ' ',
    ensures
        tail_spaces(t) == m,
    decreases t.len(),
{
    if m == 0 {
    } else {
        assert(t.last() == ' ');
        lemma_tail_spaces_eq(t.drop_last(), m - 1);
    }
}

/// Bounds of the trimmed span `[a, b)` inside `s[from..to]`: spaces are
/// dropped from both ends.
fn trim_range(s: &[char], from: usize, to: usize) -> (r: (usize, usize))
    requires
        from <= to <= s@.len(),
    ensures
        from <= r.0 <= r.1 <= to,
        s@.subrange(r.0 as int, r.1 as int) == trim_spaces(s@.subrange(from as int, to as int)),
{
    let ghost t = s@.subrange(from as int, to as int);
    let mut a: usize = from;
    while a < to && s[a] == ' '
        invariant
            from <= a <= to,
            to <= s@.len(),
            forall|j: int| from <= j < a ==> s@[j] == ' ',
        decreases to - a,
    {
        a += 1;
    }
    proof {
        assert(forall|j: int| 0 <= j < a - from ==> t[j] == s@[j + from] && t[j] == ' ');
        if (a as int) - (from as int) < t.len() {
            assert(t[a - from] == s@[a as int]);
        }
        lemma_head_spaces_eq(t, a - from);
    }
    let mut b: usize = to;
    while b > a && s[b - 1] == ' '
        invariant
            a <= b <= to,
            to <= s@.len(),
            forall|j: int| b <= j < to ==> s@[j] == ' ',
        decreases b,
    {
        b -= 1;
    }
    proof {
        let rest = t.skip(a - from);
        assert(rest =~= s@.subrange(a as int, to as int));
        assert(forall|j: int|
            rest.len() - (to - b) <= j < rest.len() ==> rest[j] == s@[j + a] && rest[j] == ' ');
        if (to as int) - (b as int) < rest.len() {
            assert(rest[rest.len() - (to - b) - 1] == s@[b - 1]);
        }
        lemma_tail_spaces_eq(rest, to - b);
        assert(s@.subrange(a as int, b as int) =~= rest.take(rest.len() - (to - b)));
    }
    (a, b)
}

/// Length consumed by the chain of filter segments at the head of `s`:
/// each a nonempty run of segment characters followed by `:`.
pub open spec fn chain_len(s: Seq<char>) -> nat
    decreases s.len(),
{
    let n = seg_run_len(s) as int;
    if 1 <= n && n < s.len() && s[n] == ':' {
        (n + 1 + chain_len(s.skip(n + 1))) as nat
    } else {
        0
    }
}

/// The filter segments of the chain at the head of `s`, in written order.
pub open spec fn chain_segs(s: Seq<char>) -> Seq<Seq<char>>
    decreases s.len(),
{
    let n = seg_run_len(s) as int;
    if 1 <= n && n < s.len() && s[n] == ':' {
        seq![s.take(n)] + chain_segs(s.skip(n + 1))
    } else {
        Seq::empty()
    }
}

/// The chain at the head of `s` consumes at most all of `s`.
proof fn lemma_chain_len_bound(s: Seq<char>)
    ensures
        chain_len(s) <= s.len(),
    decreases s.len(),
{
    let n = seg_run_len(s) as int;
    if 1 <= n && n < s.len() && s[n] == ':' {
        lemma_chain_len_bound(s.skip(n + 1));
    }
}

/// The field marker standing at the head of `s`, if any: `{{`, a chain of
/// filter segments, a nonempty field name, then `}}`. The node carries the
/// trimmed name and the segments in written order.
pub open spec fn field_at(s: Seq<char>) -> Option<(NodeV, int)> {
    if !is_match_at(s, "{{"@, 0) {
        None
    } else {
        let body = s.skip(2);
        let c = chain_len(body) as int;
        let m = name_run_len(body.skip(c)) as int;
        if 1 <= m && is_match_at(body, "}}"@, c + m) {
            Some(
                (
                    NodeV::Field {
                        name: trim_spaces(body.subrange(c, c + m)),
                        filters: chain_segs(body),
                    },
                    2 + c + m + 2,
                ),
            )
        } else {
            None
        }
    }
}

/// The text node standing at the head of `s`: everything up to the next
/// `{{` or to the end, where that is nonempty.
pub open spec fn text_at(s: Seq<char>) -> Option<(NodeV, int)> {
    match find_sub(s, "{{"@) {
        Some(j) => if j == 0 {
            None
        } else {
            Some((NodeV::Text { text: s.take(j) }, j))
        },
        None => if s.len() > 0 {
            Some((NodeV::Text { text: s }, s.len() as int))
        } else {
            None
        },
    }
}

/// The conditional block standing at the head of `s`, if any: `{{#` or
/// `{{^`, a nonempty name, `}}`, then a body delimited by the first
/// literal occurrence of the close marker `{{/NAME}}` with the same raw
/// name. The body is parsed recursively; what the body leaves unparsed is
/// dropped.
pub open spec fn cond_at(s: Seq<char>) -> Option<(NodeV, int)>
    decreases s.len(), 0nat,
    via cond_at_decreases
{
    if !(s.len() >= 3 && s[0] == '{' && s[1] == '{' && (s[2] == '#' || s[2] == '^')) {
        None
    } else {
        let n = name_run_len(s.skip(3)) as int;
        if n < 1 || !is_match_at(s, "}}"@, 3 + n) {
            None
        } else {
            let rawname = s.subrange(3, 3 + n);
            let close = "{{/"@ + rawname + "}}"@;
            let rem = s.skip(3 + n + 2);
            match find_sub(rem, close) {
                None => None,
                Some(k) => Some(
                    (
                        NodeV::Conditional {
                            field: trim_spaces(rawname),
                            children: spec_parse_nodes(rem.take(k)).0,
                            negative: s[2] == '^',
                        },
                        3 + n + 2 + k + close.len(),
                    ),
                ),
            }
        }
    }
}

#[via_fn]
proof fn cond_at_decreases(s: Seq<char>) {
    reveal_strlit("}}");
    reveal_strlit("{{/");
    if s.len() >= 3 && s[0] == '{' && s[1] == '{' && (s[2] == '#' || s[2] == '^') {
        let n = name_run_len(s.skip(3)) as int;
        lemma_name_run_bound(s.skip(3));
        if 1 <= n && is_match_at(s, "}}"@, 3 + n) {
            let rawname = s.subrange(3, 3 + n);
            let close = "{{/"@ + rawname + "}}"@;
            let rem = s.skip(3 + n + 2);
            assert(3 + n + 2 <= s.len());
            assert(rem.len() < s.len());
            lemma_find_sub(rem, close);
            match find_sub(rem, close) {
                Some(k) => {
                    assert(0 <= k <= rem.len());
                    assert(rem.take(k).len() < s.len());
                },
                None => {},
            }
        }
    }
}

/// The name run at the head of `s` is no longer than `s`.
proof fn lemma_name_run_bound(s: Seq<char>)
    ensures
        name_run_len(s) <= s.len(),
    decreases s.len(),
{
    if s.len() == 0 || !is_name_char(s[0]) {
    } else {
        lemma_name_run_bound(s.skip(1));
    }
}

/// The node standing at the head of `s`, if any: a conditional block where
/// one stands, else a field marker, else a text node.
pub open spec fn node_at(s: Seq<char>) -> Option<(NodeV, int)>
    decreases s.len(), 1nat,
{
    if cond_at(s) is Some {
        cond_at(s)
    } else if field_at(s) is Some {
        field_at(s)
    } else {
        text_at(s)
    }
}

/// The nodes parsed from the head of `s`, as many as parse, and the
/// unparsed remainder. A node consumes between one character and the whole
/// of `s` — the bound on the consumed count never clips in fact.
pub open spec fn spec_parse_nodes(s: Seq<char>) -> (Seq<NodeV>, Seq<char>)
    decreases s.len(), 2nat,
{
    if s.len() == 0 {
        (Seq::empty(), s)
    } else {
        match node_at(s) {
            Some(p) => {
                let c = if 1 <= p.1 <= s.len() {
                    p.1
                } else {
                    1
                };
                let rest = spec_parse_nodes(s.skip(c));
                (seq![p.0] + rest.0, rest.1)
            },
            None => (Seq::empty(), s),
        }
    }
}

/// First position in `[from, to)` where the whole of `pat` stands within
/// the bound, as a position in `s`.
fn find_sub_to(s: &[char], from: usize, to: usize, pat: &[char]) -> (r: Option<usize>)
    requires
        from <= to <= s@.len(),
    ensures
        ({
            let region = s@.subrange(from as int, to as int);
            match r {
                Some(j) => from <= j && j + pat@.len() <= to && find_sub(region, pat@) == Some(
                    j - from,
                ),
                None => find_sub(region, pat@) is None,
            }
        }),
{
    let ghost region = s@.subrange(from as int, to as int);
    let mut k: usize = from;
    while pat.len() <= to - k
        invariant
            from <= k <= to <= s@.len(),
            region == s@.subrange(from as int, to as int),
            forall|j: int| 0 <= j < k - from ==> !is_match_at(region, pat@, j),
        decreases to - k,
    {
        if starts_with_at(s, k, pat) {
            proof {
                lemma_find_sub(region, pat@);
                assert(region.subrange(k - from, k - from + pat@.len()) =~= s@.subrange(
                    k as int,
                    k + pat@.len(),
                ));
                assert(is_match_at(region, pat@, k - from));
                match find_sub(region, pat@) {
                    Some(x) => {
                        if x < k - from {
                            assert(!is_match_at(region, pat@, x));
                        } else if x > k - from {
                            assert(!is_match_at(region, pat@, k - from));
                        }
                    },
                    None => {
                        assert(!is_match_at(region, pat@, k - from));
                    },
                }
            }
            return Some(k);
        }
        proof {
            if pat@.len() == 0 {
                assert(s@.subrange(k as int, k as int) =~= pat@);
                assert(is_match_at(s@, pat@, k as int));
            }
            if is_match_at(region, pat@, k - from) {
                assert(region.subrange(k - from, k - from + pat@.len()) =~= s@.subrange(
                    k as int,
                    k + pat@.len(),
                ));
                assert(is_match_at(s@, pat@, k as int));
            }
        }
        k += 1;
    }
    proof {
        lemma_find_sub(region, pat@);
        match find_sub(region, pat@) {
            Some(x) => {
                assert(is_match_at(region, pat@, x));
                assert(x + pat@.len() <= region.len());
                assert(x < k - from);
            },
            None => {},
        }
    }
    None
}

/// The string holding `s[from..to]`.
fn range_string(s: &[char], from: usize, to: usize) -> (r: String)
    requires
        from <= to <= s@.len(),
    ensures
        r@ == s@.subrange(from as int, to as int),
{
    let mut v: Vec<char> = Vec::new();
    push_range(&mut v, s, from, to);
    proof {
        assert(v@ =~= s@.subrange(from as int, to as int));
    }
    chars_to_string(&v)
}

/// Decides whether a field marker stands at the head of `s[pos..end]`, and
/// builds its node.
#[verifier::rlimit(100)]
fn try_field(s: &[char], pos: usize, end: usize) -> (r: Option<(TemplateNode, usize)>)
    requires
        pos <= end <= s@.len(),
    ensures
        ({
            let u = s@.subrange(pos as int, end as int);
            match r {
                Some(p) => pos < p.1 <= end && field_at(u) == Some((p.0.node_v(), p.1 - pos)),
                None => field_at(u) is None,
            }
        }),
{
    let ghost u = s@.subrange(pos as int, end as int);
    proof {
        reveal_strlit("{{");
        reveal_strlit("}}");
        assert(forall|j: int| 0 <= j < u.len() ==> u[j] == s@[pos + j]);
    }
    if !(end - pos >= 2 && s[pos] == '{' && s[pos + 1] == '{') {
        proof {
            if is_match_at(u, "{{"@, 0) {
                assert(u.subrange(0, 2)[0] == u[0]);
                assert(u.subrange(0, 2)[1] == u[1]);
                assert(false);
            }
        }
        return None;
    }
    proof {
        assert(u.subrange(0, 2) =~= "{{"@);
        assert(is_match_at(u, "{{"@, 0));
    }
    let ghost body = u.skip(2);
    proof {
        assert(body =~= s@.subrange(pos + 2, end as int));
    }
    // consume the chain of filter segments
    let mut q: usize = pos + 2;
    let mut filters: Vec<String> = Vec::new();
    proof {
        assert(body.skip(0) =~= body);
        assert(filters.deep_view() =~= Seq::<Seq<char>>::empty());
        assert(Seq::<Seq<char>>::empty() + chain_segs(body) =~= chain_segs(body));
    }
    loop
        invariant
            pos + 2 <= q <= end <= s@.len(),
            u == s@.subrange(pos as int, end as int),
            body == u.skip(2),
            chain_len(body) == (q - pos - 2) + chain_len(s@.subrange(q as int, end as int)),
            chain_segs(body) == filters.deep_view() + chain_segs(
                s@.subrange(q as int, end as int),
            ),
        ensures
            pos + 2 <= q <= end,
            chain_len(body) == q - pos - 2,
            chain_segs(body) == filters.deep_view(),
        decreases end - q,
    {
        let ghost tq = s@.subrange(q as int, end as int);
        let sr = seg_run_to(s, q, end);
        proof {
            assert(seg_run_len(tq) == sr - q);
        }
        if !(sr > q && sr < end && s[sr] == ':') {
            proof {
                if sr < end {
                    assert(tq[sr - q] == s@[sr as int]);
                }
                assert(chain_len(tq) == 0);
                assert(chain_segs(tq) =~= Seq::<Seq<char>>::empty());
                assert(filters.deep_view() + chain_segs(tq) =~= filters.deep_view());
            }
            break;
        }
        let seg = range_string(s, q, sr);
        let ghost fs0 = filters.deep_view();
        filters.push(seg);
        proof {
            assert(tq[sr - q] == s@[sr as int]);
            let tq2 = s@.subrange(sr + 1, end as int);
            assert(tq.skip(sr - q + 1) =~= tq2);
            assert(chain_len(tq) == (sr - q + 1) + chain_len(tq2));
            assert(chain_segs(tq) == seq![tq.take(sr - q)] + chain_segs(tq2));
            assert(tq.take(sr - q) =~= s@.subrange(q as int, sr as int));
            assert(filters.deep_view() =~= fs0.push(seg@));
            assert(fs0 + (seq![seg@] + chain_segs(tq2)) =~= filters.deep_view() + chain_segs(
                tq2,
            ));
        }
        q = sr + 1;
    }
    let ghost c = chain_len(body) as int;
    proof {
        assert(c == q - pos - 2);
        assert(body.skip(c) =~= s@.subrange(q as int, end as int));
    }
    let mr = name_run_to(s, q, end);
    proof {
        assert(name_run_len(body.skip(c)) == mr - q);
    }
    let ghost m = (mr - q) as int;
    if !(mr > q && end - mr >= 2 && s[mr] == '}' && s[mr + 1] == '}') {
        proof {
            if 1 <= m && is_match_at(body, "}}"@, c + m) {
                assert(body.subrange(c + m, c + m + 2)[0] == body[c + m]);
                assert(body.subrange(c + m, c + m + 2)[1] == body[c + m + 1]);
                assert(body[c + m] == s@[mr as int]);
                assert(body[c + m + 1] == s@[mr + 1]);
                assert(false);
            }
        }
        return None;
    }
    proof {
        assert(body[c + m] == s@[mr as int]);
        assert(body[c + m + 1] == s@[mr + 1]);
        assert(body.subrange(c + m, c + m + 2) =~= "}}"@);
        assert(is_match_at(body, "}}"@, c + m));
    }
    let (a, b) = trim_range(s, q, mr);
    let name = range_string(s, a, b);
    let node = TemplateNode::Field { name, filters };
    proof {
        assert(body.subrange(c, c + m) =~= s@.subrange(q as int, mr as int));
        assert(name@ == trim_spaces(body.subrange(c, c + m)));
    }
    Some((node, mr + 2))
}

/// The pieces of a conditional block standing at the head of a parse
/// region: its sign, its trimmed name, its body's bounds, and the position
/// just past the close marker.
struct CondHit {
    negative: bool,
    name: String,
    body_start: usize,
    body_end: usize,
    next: usize,
}

/// Decides whether a conditional block stands at the head of
/// `s[pos..end]`, and where its parts lie.
#[verifier::rlimit(100)]
fn try_cond(s: &[char], pos: usize, end: usize) -> (r: Option<CondHit>)
    requires
        pos <= end <= s@.len(),
    ensures
        ({
            let u = s@.subrange(pos as int, end as int);
            match r {
                Some(h) => pos < h.body_start <= h.body_end && h.body_end < h.next <= end
                    && cond_at(u) == Some(
                    (
                        NodeV::Conditional {
                            field: h.name@,
                            children: spec_parse_nodes(
                                s@.subrange(h.body_start as int, h.body_end as int),
                            ).0,
                            negative: h.negative,
                        },
                        h.next - pos,
                    ),
                ),
                None => cond_at(u) is None,
            }
        }),
{
    let ghost u = s@.subrange(pos as int, end as int);
    proof {
        reveal_strlit("{{/");
        reveal_strlit("}}");
        assert(forall|j: int| 0 <= j < u.len() ==> u[j] == s@[pos + j]);
    }
    if !(end - pos >= 3 && s[pos] == '{' && s[pos + 1] == '{' && (s[pos + 2] == '#' || s[pos + 2]
        == '^')) {
        return None;
    }
    let negative = s[pos + 2] == '^';
    let nr = name_run_to(s, pos + 3, end);
    proof {
        assert(u.skip(3) =~= s@.subrange(pos + 3, end as int));
        assert(name_run_len(u.skip(3)) == nr - pos - 3);
    }
    let ghost n = (nr - pos - 3) as int;
    if !(nr > pos + 3 && end - nr >= 2 && s[nr] == '}' && s[nr + 1] == '}') {
        proof {
            if 1 <= n && is_match_at(u, "}}"@, 3 + n) {
                assert(u.subrange(3 + n, 3 + n + 2)[0] == u[3 + n]);
                assert(u.subrange(3 + n, 3 + n + 2)[1] == u[3 + n + 1]);
                assert(u[3 + n] == s@[nr as int]);
                assert(u[3 + n + 1] == s@[nr + 1]);
                assert(false);
            }
        }
        return None;
    }
    proof {
        assert(u[3 + n] == s@[nr as int]);
        assert(u[3 + n + 1] == s@[nr + 1]);
        assert(u.subrange(3 + n, 3 + n + 2) =~= "}}"@);
        assert(is_match_at(u, "}}"@, 3 + n));
    }
    let mut close: Vec<char> = Vec::new();
    push_str_chars(&mut close, "{{/");
    push_range(&mut close, s, pos + 3, nr);
    push_str_chars(&mut close, "}}");
    let ghost rawname = u.subrange(3, 3 + n);
    proof {
        assert(rawname =~= s@.subrange(pos + 3, nr as int));
        assert(close@ =~= "{{/"@ + rawname + "}}"@);
        assert(close@.len() == n + 5);
        assert(u.skip(3 + n + 2) =~= s@.subrange(nr + 2, end as int));
    }
    match find_sub_to(s, nr + 2, end, close.as_slice()) {
        Some(cp) => {
            let (a, b) = trim_range(s, pos + 3, nr);
            let name = range_string(s, a, b);
            let h = CondHit {
                negative,
                name,
                body_start: nr + 2,
                body_end: cp,
                next: cp + close.len(),
            };
            proof {
                let rem = u.skip(3 + n + 2);
                assert(find_sub(rem, close@) == Some(cp - (nr + 2)));
                assert(rem.take(cp - (nr + 2)) =~= s@.subrange(nr + 2, cp as int));
                assert(name@ == trim_spaces(rawname));
                assert(3 + n + 2 + (cp - (nr + 2)) + close@.len() == cp + close@.len() - pos);
            }
            Some(h)
        },
        None => {
            proof {
                let rem = u.skip(3 + n + 2);
                assert(find_sub(rem, close@) is None);
            }
            None
        },
    }
}

/// Parses the region `s[start..end]` into nodes, as many as parse,
/// returning them and the position where parsing stopped.
#[verifier::rlimit(100)]
fn parse_range(s: &[char], start: usize, end: usize) -> (r: (Vec<TemplateNode>, usize))
    requires
        start <= end <= s@.len(),
    ensures
        start <= r.1 <= end,
        nodes_v(r.0@) == spec_parse_nodes(s@.subrange(start as int, end as int)).0,
        s@.subrange(r.1 as int, end as int) == spec_parse_nodes(
            s@.subrange(start as int, end as int),
        ).1,
    decreases end - start,
{
    let ghost r0 = s@.subrange(start as int, end as int);
    let mut nodes: Vec<TemplateNode> = Vec::new();
    let mut pos: usize = start;
    let mut done: bool = false;
    proof {
        reveal_strlit("{{");
        assert(r0.skip(0) =~= r0);
        assert(nodes_v(nodes@) =~= Seq::<NodeV>::empty());
        assert(Seq::<NodeV>::empty() + spec_parse_nodes(r0).0 =~= spec_parse_nodes(r0).0);
    }
    while pos < end && !done
        invariant
            start <= pos <= end <= s@.len(),
            r0 == s@.subrange(start as int, end as int),
            spec_parse_nodes(r0).0 == nodes_v(nodes@) + spec_parse_nodes(
                s@.subrange(pos as int, end as int),
            ).0,
            spec_parse_nodes(r0).1 == spec_parse_nodes(s@.subrange(pos as int, end as int)).1,
            done ==> node_at(s@.subrange(pos as int, end as int)) is None,
        decreases end - pos, if done {
            0int
        } else {
            1int
        },
    {
        let ghost u = s@.subrange(pos as int, end as int);
        let ghost nv0 = nodes_v(nodes@);
        let mut node_opt: Option<(TemplateNode, usize)> = None;
        match try_cond(s, pos, end) {
            Some(h) => {
                let (children, inner_rest) = parse_range(s, h.body_start, h.body_end);
                let node = TemplateNode::Conditional {
                    field: h.name,
                    children,
                    is_negative: h.negative,
                };
                proof {
                    lemma_nodes_v_rec(node->Conditional_children@);
                    assert(node.node_v() == NodeV::Conditional {
                        field: node->Conditional_field@,
                        children: spec_parse_nodes(
                            s@.subrange(h.body_start as int, h.body_end as int),
                        ).0,
                        negative: h.negative,
                    });
                    assert(node_at(u) == Some((node.node_v(), h.next - pos)));
                }
                node_opt = Some((node, h.next));
            },
            None => {
                match try_field(s, pos, end) {
                    Some(p) => {
                        proof {
                            assert(node_at(u) == Some((p.0.node_v(), p.1 - pos)));
                        }
                        node_opt = Some(p);
                    },
                    None => {
                        match find_sub_to(s, pos, end, str_to_chars("{{").as_slice()) {
                            Some(j) => {
                                if j > pos {
                                    let node = TemplateNode::Text(range_string(s, pos, j));
                                    proof {
                                        assert(u.take(j - pos) =~= s@.subrange(
                                            pos as int,
                                            j as int,
                                        ));
                                        assert(text_at(u) == Some(
                                            (NodeV::Text { text: u.take(j - pos) }, j - pos),
                                        ));
                                        assert(node_at(u) == Some((node.node_v(), j - pos)));
                                    }
                                    node_opt = Some((node, j));
                                } else {
                                    proof {
                                        assert(text_at(u) is None);
                                        assert(node_at(u) is None);
                                    }
                                }
                            },
                            None => {
                                let node = TemplateNode::Text(range_string(s, pos, end));
                                proof {
                                    assert(u =~= s@.subrange(pos as int, end as int));
                                    assert(u.len() > 0);
                                    assert(text_at(u) == Some(
                                        (NodeV::Text { text: u }, u.len() as int),
                                    ));
                                    assert(node_at(u) == Some((node.node_v(), end - pos)));
                                }
                                node_opt = Some((node, end));
                            },
                        }
                    },
                }
            },
        }
        match node_opt {
            Some((node, next)) => {
                proof {
                    let p = node_at(u)->Some_0;
                    assert(p.1 == next - pos);
                    assert(1 <= p.1 <= u.len());
                    let unext = s@.subrange(next as int, end as int);
                    assert(u.skip(next - pos) =~= unext);
                    assert(spec_parse_nodes(u).0 == seq![p.0] + spec_parse_nodes(unext).0);
                    assert(spec_parse_nodes(u).1 == spec_parse_nodes(unext).1);
                }
                nodes.push(node);
                proof {
                    let p = node_at(u)->Some_0;
                    assert(nodes_v(nodes@) =~= nv0.push(p.0));
                    assert(nv0 + (seq![p.0] + spec_parse_nodes(
                        s@.subrange(next as int, end as int),
                    ).0) =~= nodes_v(nodes@) + spec_parse_nodes(
                        s@.subrange(next as int, end as int),
                    ).0);
                }
                pos = next;
            },
            None => {
                done = true;
            },
        }
    }
    proof {
        let u = s@.subrange(pos as int, end as int);
        if !done {
            assert(pos == end);
            assert(u.len() == 0);
            assert(spec_parse_nodes(u).0 =~= Seq::<NodeV>::empty());
            assert(spec_parse_nodes(u).1 == u);
        } else {
            assert(spec_parse_nodes(u).0 =~= Seq::<NodeV>::empty());
            assert(spec_parse_nodes(u).1 == u);
        }
        assert(nodes_v(nodes@) + Seq::<NodeV>::empty() =~= nodes_v(nodes@));
    }
    (nodes, pos)
}

/// Parses a template string into nodes. Fails — with a message naming the
/// unparsed remainder — exactly where some input is left after as many
/// nodes as possible were parsed: an unterminated marker, a conditional
/// whose close marker never comes, or unrecognized syntax.
pub fn parse_template(template: &str) -> (r: Result<Vec<TemplateNode>, String>)
    ensures
        match r {
            Ok(nodes) => spec_parse_nodes(template@).1.len() == 0 && nodes_v(nodes@)
                == spec_parse_nodes(template@).0,
            Err(e) => spec_parse_nodes(template@).1.len() > 0 && e@
                == "Failed to parse remaining: "@ + spec_parse_nodes(template@).1,
        },
{
    let v = str_to_chars(template);
    let n = v.len();
    proof {
        assert(v@.subrange(0, n as int) =~= template@);
    }
    let (nodes, rest) = parse_range(v.as_slice(), 0, n);
    if rest == n {
        proof {
            assert(v@.subrange(n as int, n as int) =~= Seq::<char>::empty());
        }
        Ok(nodes)
    } else {
        let mut msg: Vec<char> = Vec::new();
        push_str_chars(&mut msg, "Failed to parse remaining: ");
        push_range(&mut msg, v.as_slice(), rest, n);
        proof {
            assert(msg@ == "Failed to parse remaining: "@ + v@.subrange(rest as int, n as int));
        }
        Err(chars_to_string(&msg))
    }
}

/// Renders a template string with the given fields; fails exactly where
/// parsing fails, never on missing fields or unknown filters.
pub fn render(template: &str, fields: &Fields) -> (r: Result<String, String>)
    ensures
        match r {
            Ok(out) => spec_parse_nodes(template@).1.len() == 0 && out@ == spec_render_nodes(
                spec_parse_nodes(template@).0,
                fields@,
                None,
            ),
            Err(e) => spec_parse_nodes(template@).1.len() > 0 && e@
                == "Failed to parse remaining: "@ + spec_parse_nodes(template@).1,
        },
{
    match parse_template(template) {
        Ok(nodes) => Ok(render_nodes(nodes.as_slice(), fields, None)),
        Err(e) => Err(e),
    }
}

/// Renders a template string with cloze support for the given card ordinal
/// and side; fails exactly where parsing fails.
pub fn render_with_cloze(
    template: &str,
    fields: &Fields,
    card_ord: u32,
    is_question: bool,
) -> (r: Result<String, String>)
    ensures
        match r {
            Ok(out) => spec_parse_nodes(template@).1.len() == 0 && out@ == spec_render_nodes(
                spec_parse_nodes(template@).0,
                fields@,
                Some(ClozeContext { card_ord, is_question }),
            ),
            Err(e) => spec_parse_nodes(template@).1.len() > 0 && e@
                == "Failed to parse remaining: "@ + spec_parse_nodes(template@).1,
        },
{
    match parse_template(template) {
        Ok(nodes) => {
            let ctx = ClozeContext { card_ord, is_question };
            Ok(render_nodes(nodes.as_slice(), fields, Some(&ctx)))
        },
        Err(e) => Err(e),
    }
}

/// Identity on plain text: a template without `{{` anywhere parses whole —
/// to nothing when empty, else to one text node — and renders as itself,
/// whatever the field mapping and context.
pub proof fn lemma_plain_text_identity(
    s: Seq<char>,
    fields: Map<Seq<char>, Seq<char>>,
    ctx: Option<ClozeContext>,
)
    requires
        forall|i: int| !is_match_at(s, "{{"@, i),
    ensures
        spec_parse_nodes(s).1.len() == 0,
        spec_render_nodes(spec_parse_nodes(s).0, fields, ctx) == s,
{
    reveal_strlit("{{");
    lemma_find_sub(s, "{{"@);
    match find_sub(s, "{{"@) {
        Some(i) => {
            assert(is_match_at(s, "{{"@, i));
        },
        None => {},
    }
    if s.len() == 0 {
        assert(spec_render_nodes(spec_parse_nodes(s).0, fields, ctx) =~= s);
    } else {
        if s.len() >= 3 && s[0] == '{' && s[1] == '{' {
            assert(s.subrange(0, 2) =~= "{{"@);
            assert(is_match_at(s, "{{"@, 0));
        }
        assert(cond_at(s) is None);
        assert(field_at(s) is None);
        assert(text_at(s) == Some((NodeV::Text { text: s }, s.len() as int)));
        assert(node_at(s) == Some((NodeV::Text { text: s }, s.len() as int)));
        let rest = s.skip(s.len() as int);
        assert(rest.len() == 0);
        assert(spec_parse_nodes(rest).0 == Seq::<NodeV>::empty());
        assert(spec_parse_nodes(rest).1 == rest);
        assert(spec_parse_nodes(s).0 == seq![NodeV::Text { text: s }] + spec_parse_nodes(
            rest,
        ).0);
        assert(spec_parse_nodes(s).1 == spec_parse_nodes(rest).1);
        assert(spec_parse_nodes(s).0 =~= seq![NodeV::Text { text: s }]);
        let nodes = spec_parse_nodes(s).0;
        assert(nodes[0] == NodeV::Text { text: s });
        assert(nodes.skip(1) =~= Seq::<NodeV>::empty());
        assert(spec_render_node(NodeV::Text { text: s }, fields, ctx) == s);
        assert(spec_render_nodes(nodes.skip(1), fields, ctx) == Seq::<char>::empty());
        assert(spec_render_nodes(nodes, fields, ctx) == spec_render_node(
            nodes[0],
            fields,
            ctx,
        ) + spec_render_nodes(nodes.skip(1), fields, ctx));
        assert(spec_render_nodes(nodes, fields, ctx) == s + Seq::<char>::empty());
        assert(s + Seq::<char>::empty() =~= s);
    }
}

/// An unfiltered field whose name is absent from the mapping renders as
/// the empty string.
pub proof fn lemma_absent_field_empty(
    name: Seq<char>,
    fields: Map<Seq<char>, Seq<char>>,
    ctx: Option<ClozeContext>,
)
    requires
        !fields.contains_key(name),
    ensures
        spec_render_node(NodeV::Field { name, filters: Seq::empty() }, fields, ctx)
            == Seq::<char>::empty(),
{
}

/// Filter chain order: a two-filter chain applies the second-written
/// filter to the value first, then the first-written filter to its result.
pub proof fn lemma_filter_chain_order(
    f1: Seq<char>,
    f2: Seq<char>,
    value: Seq<char>,
    ctx: Option<ClozeContext>,
)
    ensures
        spec_apply_filters(seq![f1, f2], value, ctx) == spec_apply_one(
            f1,
            spec_apply_one(f2, value, ctx),
            ctx,
        ),
{
    let fs = seq![f1, f2];
    assert(fs.skip(1) =~= seq![f2]);
    assert(seq![f2].skip(1) =~= Seq::<Seq<char>>::empty());
    assert(spec_apply_filters(seq![f2].skip(1), value, ctx) == value);
    assert(seq![f2][0] == f2);
    assert(spec_apply_filters(seq![f2], value, ctx) == spec_apply_one(f2, value, ctx));
    assert(fs[0] == f1);
    assert(spec_apply_filters(fs, value, ctx) == spec_apply_one(
        f1,
        spec_apply_filters(fs.skip(1), value, ctx),
        ctx,
    ));
}

/// Conditional truth table: the block renders its children exactly where
/// the field's non-emptiness agrees with the block's sign — a positive
/// block on a present, non-empty field, a negative block on an absent or
/// empty one — and renders nothing otherwise.
pub proof fn lemma_conditional_truth_table(
    field: Seq<char>,
    children: Seq<NodeV>,
    negative: bool,
    fields: Map<Seq<char>, Seq<char>>,
    ctx: Option<ClozeContext>,
)
    ensures
        (field_value(fields, field).len() > 0) != negative ==> spec_render_node(
            NodeV::Conditional { field, children, negative },
            fields,
            ctx,
        ) == spec_render_nodes(children, fields, ctx),
        (field_value(fields, field).len() > 0) == negative ==> spec_render_node(
            NodeV::Conditional { field, children, negative },
            fields,
            ctx,
        ) == Seq::<char>::empty(),
{
}


} // verus!
