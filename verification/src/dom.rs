//! The DOM and two HTML parsers: a strict recursive-descent parser
//! that returns a typed error on any structural violation, and a
//! tolerant flat scanner that never fails and collects the visible
//! text runs of malformed input.
use vstd::prelude::*;

use crate::text::{
    alnum_char, alphanumeric, chars_vec, has_prefix, has_prefix_exec, lower_chars, lower_seq,
    scan_while, string_of, trim_chars, trimmed, whitespace, ws_end,
};

verus! {

broadcast use crate::text::lemma_scan_while_ge, crate::text::lemma_scan_while_le, crate::text::lemma_scan_while_props;

// ------------------------------------------------------------------
// Data model
// ------------------------------------------------------------------
#[derive(Debug)]
pub struct DomNode {
    pub node_type: NodeType,
    pub children: Vec<DomNode>,
}

#[derive(Debug)]
pub enum NodeType {
    Element(ElementData),
    Text(String),
}

#[derive(Debug, Clone)]
pub struct ElementData {
    pub tag_name: String,
    pub attributes: AttrMap,
}

/// A mapping from attribute name to attribute value, keys unique.
/// Entries are kept in insertion order; a later entry for the same
/// name replaces the earlier one in the mapping the type denotes.
#[derive(Debug, Clone)]
pub struct AttrMap {
    entries: Vec<(String, String)>,
}

/// The failure of the strict parser, with a distinguishing kind.
#[derive(Debug, Clone, PartialEq)]
pub enum HtmlError {
    MismatchedClosingTag { expected: String, found: String },
    MissingDelimiter { expected: char },
    UnexpectedEof,
}

// ------------------------------------------------------------------
// Mathematical views
// ------------------------------------------------------------------
#[verifier::ext_equal]
pub ghost enum SpecNode {
    Elem { tag: Seq<char>, attrs: Map<Seq<char>, Seq<char>>, children: Seq<SpecNode> },
    Text(Seq<char>),
}

#[verifier::ext_equal]
pub ghost enum SpecHtmlError {
    MismatchedClosingTag { expected: Seq<char>, found: Seq<char> },
    MissingDelimiter { expected: char },
    UnexpectedEof,
}

/// The mapping denoted by a sequence of attribute entries: each entry
/// overrides earlier entries with the same name.
pub open spec fn map_of(entries: Seq<(String, String)>) -> Map<Seq<char>, Seq<char>>
    decreases entries.len(),
{
    if entries.len() == 0 {
        Map::empty()
    } else {
        map_of(entries.drop_last()).insert(entries.last().0@, entries.last().1@)
    }
}

impl View for AttrMap {
    type V = Map<Seq<char>, Seq<char>>;

    closed spec fn view(&self) -> Map<Seq<char>, Seq<char>> {
        map_of(self.entries@)
    }
}

impl View for HtmlError {
    type V = SpecHtmlError;

    open spec fn view(&self) -> SpecHtmlError {
        match self {
            HtmlError::MismatchedClosingTag { expected, found } => (
            SpecHtmlError::MismatchedClosingTag { expected: expected@, found: found@ }),
            HtmlError::MissingDelimiter { expected } => (SpecHtmlError::MissingDelimiter {
                expected: *expected,
            }),
            HtmlError::UnexpectedEof => SpecHtmlError::UnexpectedEof,
        }
    }
}

pub open spec fn node_view(n: DomNode) -> SpecNode
    decreases n, 1int, 0int,
{
    match n.node_type {
        NodeType::Text(s) => SpecNode::Text(s@),
        NodeType::Element(e) => SpecNode::Elem {
            tag: e.tag_name@,
            attrs: e.attributes@,
            children: child_views(n, 0),
        },
    }
}

/// The views of `n`'s children from index `i` on.
pub open spec fn child_views(n: DomNode, i: int) -> Seq<SpecNode>
    decreases n, 0int, n.children@.len() - i,
{
    if 0 <= i < n.children@.len() {
        seq![node_view(n.children@[i])] + child_views(n, i + 1)
    } else {
        Seq::empty()
    }
}

impl View for DomNode {
    type V = SpecNode;

    open spec fn view(&self) -> SpecNode {
        node_view(*self)
    }
}

/// The views of a sequence of nodes.
pub open spec fn node_views(v: Seq<DomNode>) -> Seq<SpecNode>
    decreases v.len(),
{
    if v.len() == 0 {
        Seq::empty()
    } else {
        seq![node_view(v[0])] + node_views(v.drop_first())
    }
}

/// `node_views` maps `node_view` over the sequence.
pub broadcast proof fn lemma_node_views(v: Seq<DomNode>)
    ensures
        (#[trigger] node_views(v)).len() == v.len(),
        forall|i: int| 0 <= i < v.len() ==> node_views(v)[i] == node_view(v[i]),
    decreases v.len(),
{
    if v.len() > 0 {
        lemma_node_views(v.drop_first());
    }
}

/// An element's child views are the views of its child sequence.
proof fn lemma_child_views_eq(n: DomNode, i: int)
    requires
        0 <= i <= n.children@.len(),
    ensures
        child_views(n, i) == node_views(n.children@.subrange(i, n.children@.len() as int)),
    decreases n.children@.len() - i,
{
    let len = n.children@.len() as int;
    if i < len {
        lemma_child_views_eq(n, i + 1);
        assert(n.children@.subrange(i, len)[0] == n.children@[i]);
        assert(n.children@.subrange(i, len).drop_first() =~= n.children@.subrange(i + 1, len));
        assert(child_views(n, i) =~= node_views(n.children@.subrange(i, len)));
    } else {
        assert(child_views(n, i) =~= node_views(n.children@.subrange(i, len)));
    }
}

/// The view of an element node, spelled out.
pub broadcast proof fn lemma_elem_view(n: DomNode)
    requires
        n.node_type is Element,
    ensures
        (#[trigger] node_view(n)) == (SpecNode::Elem {
            tag: n.node_type->Element_0.tag_name@,
            attrs: n.node_type->Element_0.attributes@,
            children: node_views(n.children@),
        }),
{
    lemma_child_views_eq(n, 0);
    assert(n.children@.subrange(0, n.children@.len() as int) =~= n.children@);
}

/// Structural soundness: a text node owns no children.
pub open spec fn node_wf(n: DomNode) -> bool
    decreases n,
{
    match n.node_type {
        NodeType::Text(s) => n.children@.len() == 0,
        NodeType::Element(e) => forall|i: int|
            0 <= i < n.children@.len() ==> node_wf(#[trigger] n.children@[i]),
    }
}

// ------------------------------------------------------------------
// The attribute map
// ------------------------------------------------------------------
/// The value of the last entry whose name is `k` decides the mapping.
proof fn lemma_map_of_found(entries: Seq<(String, String)>, i: int)
    requires
        0 <= i < entries.len(),
        forall|j: int| i < j < entries.len() ==> entries[j].0@ != entries[i].0@,
    ensures
        map_of(entries).contains_key(entries[i].0@),
        map_of(entries)[entries[i].0@] == entries[i].1@,
    decreases entries.len(),
{
    if i < entries.len() - 1 {
        lemma_map_of_found(entries.drop_last(), i);
    }
}

/// A name on no entry is not in the mapping.
proof fn lemma_map_of_absent(entries: Seq<(String, String)>, k: Seq<char>)
    requires
        forall|j: int| 0 <= j < entries.len() ==> entries[j].0@ != k,
    ensures
        !map_of(entries).contains_key(k),
    decreases entries.len(),
{
    if entries.len() > 0 {
        lemma_map_of_absent(entries.drop_last(), k);
    }
}

impl AttrMap {
    /// An empty attribute map.
    pub fn new() -> (r: AttrMap)
        ensures
            r@ == Map::<Seq<char>, Seq<char>>::empty(),
    {
        AttrMap { entries: Vec::new() }
    }

    /// Binds `name` to `value`, replacing any earlier binding.
    pub fn insert(&mut self, name: String, value: String)
        ensures
            final(self)@ == old(self)@.insert(name@, value@),
    {
        let ghost pre = self.entries@;
        self.entries.push((name, value));
        proof {
            assert(self.entries@.drop_last() =~= pre);
        }
    }

    /// The value bound to `name`, if any.
    pub fn get(&self, name: &String) -> (r: Option<&String>)
        ensures
            match r {
                Some(v) => self@.contains_key(name@) && v@ == self@[name@],
                None => !self@.contains_key(name@),
            },
    {
        let mut i: usize = self.entries.len();
        while i > 0
            invariant
                i <= self.entries@.len(),
                forall|j: int| i <= j < self.entries@.len() ==> self.entries@[j].0@ != name@,
            decreases i,
        {
            i = i - 1;
            if self.entries[i].0 == *name {
                proof {
                    lemma_map_of_found(self.entries@, i as int);
                }
                return Some(&self.entries[i].1);
            }
        }
        proof {
            lemma_map_of_absent(self.entries@, name@);
        }
        None
    }

}

impl DomNode {
    /// A text node.
    pub fn text(data: String) -> (r: DomNode)
        ensures
            r@ == SpecNode::Text(data@),
            node_wf(r),
    {
        DomNode { node_type: NodeType::Text(data), children: vec![] }
    }

    /// An element node.
    pub fn elem(name: String, attrs: AttrMap, children: Vec<DomNode>) -> (r: DomNode)
        ensures
            r@ == (SpecNode::Elem {
                tag: name@,
                attrs: attrs@,
                children: node_views(children@),
            }),
            (forall|i: int| 0 <= i < children@.len() ==> node_wf(#[trigger] children@[i]))
                ==> node_wf(r),
    {
        let r = DomNode {
            node_type: NodeType::Element(ElementData { tag_name: name, attributes: attrs }),
            children,
        };
        proof {
            lemma_elem_view(r);
            lemma_node_views(r.children@);
        }
        r
    }
}

// ------------------------------------------------------------------
// The strict parsing model
// ------------------------------------------------------------------
pub open spec fn alnum_end(s: Seq<char>, p: int) -> int {
    scan_while(s, p, |c: char| alnum_char(c))
}

pub open spec fn tag_at(s: Seq<char>, p: int) -> Seq<char> {
    s.subrange(p, alnum_end(s, p))
}

/// The position of the first character equal to `quote` at or after
/// `p`, or the end.
pub open spec fn quote_end(s: Seq<char>, p: int, quote: char) -> int {
    scan_while(s, p, |c: char| c != quote)
}

/// Whether a closing-tag marker `</` stands at `p`.
pub open spec fn starts_close(s: Seq<char>, p: int) -> bool {
    p + 1 < s.len() && s[p] == '<' && s[p + 1] == '/'
}

/// The attribute list: `name="value"` or `name='value'` pairs
/// separated by whitespace, ending at `>` (not consumed). A missing
/// `=` or quote is a missing delimiter; input ending mid-construct is
/// an unexpected end.
pub open spec fn spec_parse_attributes(
    s: Seq<char>,
    p: int,
    attrs: Map<Seq<char>, Seq<char>>,
) -> Result<(Map<Seq<char>, Seq<char>>, int), SpecHtmlError>
    decreases s.len() - p,
    when 0 <= p <= s.len()
    via spec_parse_attributes_decreases
{
    let w = ws_end(s, p);
    if w >= s.len() {
        Err(SpecHtmlError::UnexpectedEof)
    } else if s[w] == '>' {
        Ok((attrs, w))
    } else {
        let ne = alnum_end(s, w);
        if ne >= s.len() {
            Err(SpecHtmlError::UnexpectedEof)
        } else if s[ne] != '=' {
            Err(SpecHtmlError::MissingDelimiter { expected: '=' })
        } else {
            let q = ne + 1;
            if q >= s.len() {
                Err(SpecHtmlError::UnexpectedEof)
            } else if s[q] != '"' && s[q] != '\'' {
                Err(SpecHtmlError::MissingDelimiter { expected: '"' })
            } else {
                let ve = quote_end(s, q + 1, s[q]);
                if ve >= s.len() {
                    Err(SpecHtmlError::UnexpectedEof)
                } else {
                    spec_parse_attributes(
                        s,
                        ve + 1,
                        attrs.insert(s.subrange(w, ne), s.subrange(q + 1, ve)),
                    )
                }
            }
        }
    }
}

#[via_fn]
proof fn spec_parse_attributes_decreases(s: Seq<char>, p: int, attrs: Map<Seq<char>, Seq<char>>) {
    broadcast use crate::text::lemma_scan_while_ge, crate::text::lemma_scan_while_le;

}

pub broadcast proof fn lemma_parse_attributes_bounds(
    s: Seq<char>,
    p: int,
    attrs: Map<Seq<char>, Seq<char>>,
)
    requires
        0 <= p <= s.len(),
    ensures
        (#[trigger] spec_parse_attributes(s, p, attrs)) matches Ok(r) ==> p <= r.1 < s.len()
            && s[r.1] == '>',
    decreases s.len() - p,
{
    let w = ws_end(s, p);
    if w < s.len() && s[w] != '>' {
        let ne = alnum_end(s, w);
        if ne < s.len() && s[ne] == '=' {
            let q = ne + 1;
            if q < s.len() && (s[q] == '"' || s[q] == '\'') {
                let ve = quote_end(s, q + 1, s[q]);
                if ve < s.len() {
                    lemma_parse_attributes_bounds(
                        s,
                        ve + 1,
                        attrs.insert(s.subrange(w, ne), s.subrange(q + 1, ve)),
                    );
                }
            }
        }
    }
}

/// Sibling nodes up to the end of input or a closing-tag marker.
pub open spec fn spec_parse_nodes(s: Seq<char>, p: int) -> Result<
    (Seq<SpecNode>, int),
    SpecHtmlError,
>
    decreases s.len() - p, 2int,
    when 0 <= p <= s.len()
    via spec_parse_nodes_decreases
{
    let w = ws_end(s, p);
    if w >= s.len() || starts_close(s, w) {
        Ok((Seq::empty(), w))
    } else {
        match spec_parse_node(s, w) {
            Err(e) => Err(e),
            Ok((n, p2)) => match spec_parse_nodes(s, clamp_after(s, w, p2)) {
                Err(e) => Err(e),
                Ok((rest, p3)) => Ok((seq![n] + rest, p3)),
            },
        }
    }
}

/// `p2` itself whenever it lies properly past `w` and within the
/// input, which a parsed node's end always does; the fallback only
/// keeps the recursion well-founded.
pub open spec fn clamp_after(s: Seq<char>, w: int, p2: int) -> int {
    if w < p2 <= s.len() {
        p2
    } else {
        w + 1
    }
}

/// One node: `<` opens an element, anything else starts a text run up
/// to the next `<`.
pub open spec fn spec_parse_node(s: Seq<char>, p: int) -> Result<(SpecNode, int), SpecHtmlError>
    decreases s.len() - p, 1int,
    when 0 <= p <= s.len()
{
    if p >= s.len() {
        Err(SpecHtmlError::UnexpectedEof)
    } else if s[p] == '<' {
        spec_parse_element(s, p)
    } else {
        Ok((SpecNode::Text(s.subrange(p, quote_end(s, p, '<'))), quote_end(s, p, '<')))
    }
}

/// One element: `<`, tag name, attributes, `>`, children, and an
/// exactly matching `</tagname>`.
pub open spec fn spec_parse_element(s: Seq<char>, p: int) -> Result<(SpecNode, int), SpecHtmlError>
    decreases s.len() - p, 0int,
    when 0 <= p < s.len()
    via spec_parse_element_decreases
{
    let te = alnum_end(s, p + 1);
    let tag = s.subrange(p + 1, te);
    match spec_parse_attributes(s, te, Map::empty()) {
        Err(e) => Err(e),
        Ok((attrs, g)) => match spec_parse_nodes(s, g + 1) {
            Err(e) => Err(e),
            Ok((kids, q)) => {
                if q >= s.len() {
                    Err(SpecHtmlError::UnexpectedEof)
                } else if s[q] != '<' {
                    Err(SpecHtmlError::MissingDelimiter { expected: '<' })
                } else if q + 1 >= s.len() {
                    Err(SpecHtmlError::UnexpectedEof)
                } else if s[q + 1] != '/' {
                    Err(SpecHtmlError::MissingDelimiter { expected: '/' })
                } else {
                    let ce = alnum_end(s, q + 2);
                    let ctag = s.subrange(q + 2, ce);
                    if ctag != tag {
                        Err(SpecHtmlError::MismatchedClosingTag { expected: tag, found: ctag })
                    } else if ce >= s.len() {
                        Err(SpecHtmlError::UnexpectedEof)
                    } else if s[ce] != '>' {
                        Err(SpecHtmlError::MissingDelimiter { expected: '>' })
                    } else {
                        Ok((SpecNode::Elem { tag, attrs, children: kids }, ce + 1))
                    }
                }
            },
        },
    }
}

#[via_fn]
proof fn spec_parse_nodes_decreases(s: Seq<char>, p: int) {
    broadcast use crate::text::lemma_scan_while_ge, crate::text::lemma_scan_while_le;

}

#[via_fn]
proof fn spec_parse_element_decreases(s: Seq<char>, p: int) {
    broadcast use crate::text::lemma_scan_while_ge, crate::text::lemma_scan_while_le, lemma_parse_attributes_bounds;

}

/// A parsed node ends strictly after it began and within the input.
pub proof fn lemma_parse_node_bounds(s: Seq<char>, p: int)
    requires
        0 <= p <= s.len(),
    ensures
        spec_parse_node(s, p) matches Ok(r) ==> p < r.1 <= s.len(),
    decreases s.len() - p, 1int,
{
    broadcast use crate::text::lemma_scan_while_ge, crate::text::lemma_scan_while_le, crate::text::lemma_scan_while_props;

    if p < s.len() && s[p] == '<' {
        lemma_parse_element_bounds(s, p);
    }
}

pub proof fn lemma_parse_element_bounds(s: Seq<char>, p: int)
    requires
        0 <= p < s.len(),
    ensures
        spec_parse_element(s, p) matches Ok(r) ==> p < r.1 <= s.len(),
    decreases s.len() - p, 0int,
{
    broadcast use crate::text::lemma_scan_while_ge, crate::text::lemma_scan_while_le, lemma_parse_attributes_bounds;

    let te = alnum_end(s, p + 1);
    match spec_parse_attributes(s, te, Map::empty()) {
        Err(e) => {},
        Ok((attrs, g)) => {
            lemma_parse_nodes_bounds(s, g + 1);
        },
    }
}

pub proof fn lemma_parse_nodes_bounds(s: Seq<char>, p: int)
    requires
        0 <= p <= s.len(),
    ensures
        spec_parse_nodes(s, p) matches Ok(r) ==> p <= r.1 <= s.len(),
    decreases s.len() - p, 2int,
{
    broadcast use crate::text::lemma_scan_while_ge, crate::text::lemma_scan_while_le;

    let w = ws_end(s, p);
    if w < s.len() && !starts_close(s, w) {
        lemma_parse_node_bounds(s, w);
        match spec_parse_node(s, w) {
            Err(e) => {},
            Ok((n, p2)) => {
                lemma_parse_nodes_bounds(s, clamp_after(s, w, p2));
            },
        }
    }
}

/// The meaning of strict parsing: the parsed top-level siblings
/// wrapped in a synthetic `html` root with no attributes; trailing
/// input after a top-level closing-tag marker is ignored.
pub open spec fn spec_parse_html(s: Seq<char>) -> Result<SpecNode, SpecHtmlError> {
    match spec_parse_nodes(s, 0) {
        Err(e) => Err(e),
        Ok((kids, p)) => Ok(
            SpecNode::Elem {
                tag: seq!['h', 't', 'm', 'l'],
                attrs: Map::empty(),
                children: kids,
            },
        ),
    }
}

/// Appending one node to a view sequence.
pub proof fn lemma_node_views_push(v: Seq<DomNode>, n: DomNode)
    ensures
        node_views(v.push(n)) == node_views(v).push(node_view(n)),
{
    lemma_node_views(v.push(n));
    lemma_node_views(v);
    assert(node_views(v.push(n)) =~= node_views(v).push(node_view(n)));
}

/// The loop invariant of sibling parsing: what remains at `p`
/// composes with the accumulator to what the whole run denotes.
pub open spec fn nodes_inv(s: Seq<char>, p0: int, acc: Seq<SpecNode>, p: int) -> bool {
    match spec_parse_nodes(s, p) {
        Ok(r) => spec_parse_nodes(s, p0) == Ok::<(Seq<SpecNode>, int), SpecHtmlError>(
            (acc + r.0, r.1),
        ),
        Err(e) => spec_parse_nodes(s, p0) == Err::<(Seq<SpecNode>, int), SpecHtmlError>(e),
    }
}

// ------------------------------------------------------------------
// The executable strict parser
// ------------------------------------------------------------------
struct Parser {
    pos: usize,
    input: Vec<char>,
}

impl Parser {
    spec fn wf(&self) -> bool {
        self.pos <= self.input@.len()
    }

    spec fn s(&self) -> Seq<char> {
        self.input@
    }

    #[verifier::loop_isolation(false)]
    fn consume_whitespace(&mut self)
        requires
            old(self).wf(),
        ensures
            final(self).wf(),
            final(self).input == old(self).input,
            final(self).pos == ws_end(old(self).s(), old(self).pos as int),
            old(self).pos <= final(self).pos,
    {
        while self.pos < self.input.len() && whitespace(self.input[self.pos])
            invariant
                self.wf(),
                self.input == old(self).input,
                old(self).pos <= self.pos,
                ws_end(self.s(), self.pos as int) == ws_end(old(self).s(), old(self).pos as int),
            decreases self.s().len() - self.pos,
        {
            self.pos = self.pos + 1;
        }
        proof {
            assert(ws_end(self.s(), self.pos as int) == self.pos as int);
        }
    }

    /// The alphanumeric run under the cursor, consumed.
    #[verifier::loop_isolation(false)]
    fn parse_tag_name(&mut self) -> (r: String)
        requires
            old(self).wf(),
        ensures
            final(self).wf(),
            final(self).input == old(self).input,
            final(self).pos == alnum_end(old(self).s(), old(self).pos as int),
            r@ == tag_at(old(self).s(), old(self).pos as int),
            old(self).pos <= final(self).pos,
    {
        let mut v: Vec<char> = Vec::new();
        while self.pos < self.input.len() && alphanumeric(self.input[self.pos])
            invariant
                self.wf(),
                self.input == old(self).input,
                old(self).pos <= self.pos,
                v@ == self.s().subrange(old(self).pos as int, self.pos as int),
                alnum_end(self.s(), self.pos as int) == alnum_end(
                    old(self).s(),
                    old(self).pos as int,
                ),
            decreases self.s().len() - self.pos,
        {
            v.push(self.input[self.pos]);
            self.pos = self.pos + 1;
            proof {
                assert(v@ =~= self.s().subrange(old(self).pos as int, self.pos as int));
            }
        }
        proof {
            assert(alnum_end(self.s(), self.pos as int) == self.pos as int);
        }
        string_of(&v)
    }

    /// Whether a closing-tag marker `</` stands at the cursor.
    fn starts_with_close(&self) -> (r: bool)
        requires
            self.wf(),
        ensures
            r == starts_close(self.s(), self.pos as int),
    {
        if self.pos < self.input.len() && self.pos + 1 < self.input.len() {
            self.input[self.pos] == '<' && self.input[self.pos + 1] == '/'
        } else {
            false
        }
    }

    /// The characters up to (not including) `stop`, consumed.
    #[verifier::loop_isolation(false)]
    fn consume_until_char(&mut self, stop: char) -> (r: Vec<char>)
        requires
            old(self).wf(),
        ensures
            final(self).wf(),
            final(self).input == old(self).input,
            final(self).pos == quote_end(old(self).s(), old(self).pos as int, stop),
            r@ == old(self).s().subrange(old(self).pos as int, final(self).pos as int),
            old(self).pos <= final(self).pos,
    {
        let mut v: Vec<char> = Vec::new();
        while self.pos < self.input.len() && self.input[self.pos] != stop
            invariant
                self.wf(),
                self.input == old(self).input,
                old(self).pos <= self.pos,
                v@ == self.s().subrange(old(self).pos as int, self.pos as int),
                quote_end(self.s(), self.pos as int, stop) == quote_end(
                    old(self).s(),
                    old(self).pos as int,
                    stop,
                ),
            decreases self.s().len() - self.pos,
        {
            v.push(self.input[self.pos]);
            self.pos = self.pos + 1;
            proof {
                assert(v@ =~= self.s().subrange(old(self).pos as int, self.pos as int));
            }
        }
        proof {
            assert(quote_end(self.s(), self.pos as int, stop) == self.pos as int);
        }
        v
    }

    /// The attribute list up to `>` (not consumed).
    fn parse_attributes(&mut self) -> (r: Result<AttrMap, HtmlError>)
        requires
            old(self).wf(),
        ensures
            final(self).wf(),
            final(self).input == old(self).input,
            old(self).pos <= final(self).pos,
            (r is Ok) == (spec_parse_attributes(old(self).s(), old(self).pos as int, Map::empty())
                is Ok),
            r matches Ok(am) ==> spec_parse_attributes(old(self).s(), old(self).pos as int, Map::empty())
                matches Ok(m) && am@ == m.0 && final(self).pos == m.1,
            r matches Err(e) ==> spec_parse_attributes(old(self).s(), old(self).pos as int, Map::empty())
                matches Err(me) && e@ == me,
    {
        let mut attrs = AttrMap::new();
        loop
            invariant_except_break
                spec_parse_attributes(self.s(), old(self).pos as int, Map::empty())
                    == spec_parse_attributes(self.s(), self.pos as int, attrs@),
            invariant
                self.wf(),
                self.input == old(self).input,
                old(self).pos <= self.pos,
            ensures
                spec_parse_attributes(self.s(), old(self).pos as int, Map::empty())
                    == Ok::<(Map<Seq<char>, Seq<char>>, int), SpecHtmlError>(
                    (attrs@, self.pos as int),
                ),
            decreases self.s().len() - self.pos,
        {
            let ghost p_top = self.pos as int;
            let ghost attrs_top = attrs@;
            self.consume_whitespace();
            if self.pos >= self.input.len() {
                return Err(HtmlError::UnexpectedEof);
            }
            if self.input[self.pos] == '>' {
                break ;
            }
            let name = self.parse_tag_name();
            if self.pos >= self.input.len() {
                return Err(HtmlError::UnexpectedEof);
            }
            if self.input[self.pos] != '=' {
                return Err(HtmlError::MissingDelimiter { expected: '=' });
            }
            self.pos = self.pos + 1;
            if self.pos >= self.input.len() {
                return Err(HtmlError::UnexpectedEof);
            }
            let quote = self.input[self.pos];
            if quote != '"' && quote != '\'' {
                return Err(HtmlError::MissingDelimiter { expected: '"' });
            }
            self.pos = self.pos + 1;
            let value = self.consume_until_char(quote);
            if self.pos >= self.input.len() {
                return Err(HtmlError::UnexpectedEof);
            }
            self.pos = self.pos + 1;
            attrs.insert(name, string_of(&value));
        }
        Ok(attrs)
    }

    /// One node, dispatched on the character under the cursor.
    fn parse_node(&mut self) -> (r: Result<DomNode, HtmlError>)
        requires
            old(self).wf(),
        ensures
            final(self).wf(),
            final(self).input == old(self).input,
            old(self).pos <= final(self).pos,
            (r is Ok) == (spec_parse_node(old(self).s(), old(self).pos as int) is Ok),
            r matches Ok(n) ==> spec_parse_node(old(self).s(), old(self).pos as int) matches Ok(m)
                && n@ == m.0 && final(self).pos == m.1 && node_wf(n),
            r matches Err(e) ==> spec_parse_node(old(self).s(), old(self).pos as int)
                matches Err(me) && e@ == me,
        decreases self.s().len() - self.pos, 1int,
    {
        if self.pos >= self.input.len() {
            return Err(HtmlError::UnexpectedEof);
        }
        if self.input[self.pos] == '<' {
            self.parse_element()
        } else {
            let t = self.consume_until_char('<');
            Ok(DomNode::text(string_of(&t)))
        }
    }

    /// One element with its matching closing tag.
    fn parse_element(&mut self) -> (r: Result<DomNode, HtmlError>)
        requires
            old(self).wf(),
            old(self).pos < old(self).s().len(),
        ensures
            final(self).wf(),
            final(self).input == old(self).input,
            old(self).pos <= final(self).pos,
            (r is Ok) == (spec_parse_element(old(self).s(), old(self).pos as int) is Ok),
            r matches Ok(n) ==> spec_parse_element(old(self).s(), old(self).pos as int)
                matches Ok(m) && n@ == m.0 && final(self).pos == m.1 && node_wf(n),
            r matches Err(e) ==> spec_parse_element(old(self).s(), old(self).pos as int)
                matches Err(me) && e@ == me,
        decreases self.s().len() - self.pos, 0int,
    {
        proof {
            broadcast use vstd::std_specs::vec::axiom_spec_len;

            assert(self.input@.len() == vstd::std_specs::vec::spec_vec_len(&self.input));
        }
        self.pos = self.pos + 1;
        let tag_name = self.parse_tag_name();
        let attrs = match self.parse_attributes() {
            Ok(a) => a,
            Err(e) => {
                return Err(e);
            },
        };
        proof {
            lemma_parse_attributes_bounds(
                self.s(),
                alnum_end(self.s(), old(self).pos + 1 as int),
                Map::empty(),
            );
        }
        self.pos = self.pos + 1;
        let children = match self.parse_nodes() {
            Ok(c) => c,
            Err(e) => {
                return Err(e);
            },
        };
        if self.pos >= self.input.len() {
            return Err(HtmlError::UnexpectedEof);
        }
        if self.input[self.pos] != '<' {
            return Err(HtmlError::MissingDelimiter { expected: '<' });
        }
        self.pos = self.pos + 1;
        if self.pos >= self.input.len() {
            return Err(HtmlError::UnexpectedEof);
        }
        if self.input[self.pos] != '/' {
            return Err(HtmlError::MissingDelimiter { expected: '/' });
        }
        self.pos = self.pos + 1;
        let closing = self.parse_tag_name();
        if !(closing == tag_name) {
            return Err(HtmlError::MismatchedClosingTag { expected: tag_name, found: closing });
        }
        if self.pos >= self.input.len() {
            return Err(HtmlError::UnexpectedEof);
        }
        if self.input[self.pos] != '>' {
            return Err(HtmlError::MissingDelimiter { expected: '>' });
        }
        self.pos = self.pos + 1;
        Ok(DomNode::elem(tag_name, attrs, children))
    }

    /// Sibling nodes up to the end or a closing-tag marker.
    fn parse_nodes(&mut self) -> (r: Result<Vec<DomNode>, HtmlError>)
        requires
            old(self).wf(),
        ensures
            final(self).wf(),
            final(self).input == old(self).input,
            old(self).pos <= final(self).pos,
            (r is Ok) == (spec_parse_nodes(old(self).s(), old(self).pos as int) is Ok),
            r matches Ok(ns) ==> spec_parse_nodes(old(self).s(), old(self).pos as int)
                matches Ok(m) && node_views(ns@) == m.0 && final(self).pos == m.1 && (forall|
                i: int,
            |
                0 <= i < ns@.len() ==> node_wf(#[trigger] ns@[i])),
            r matches Err(e) ==> spec_parse_nodes(old(self).s(), old(self).pos as int)
                matches Err(me) && e@ == me,
        decreases self.s().len() - self.pos, 2int,
    {
        let mut nodes: Vec<DomNode> = Vec::new();
        proof {
            lemma_node_views(nodes@);
            assert(nodes_inv(self.s(), old(self).pos as int, node_views(nodes@), self.pos as int))
                by {
                match spec_parse_nodes(self.s(), self.pos as int) {
                    Ok(r2) => {
                        assert(node_views(nodes@) + r2.0 =~= r2.0);
                    },
                    Err(e) => {},
                }
            }
        }
        loop
            invariant_except_break
                nodes_inv(self.s(), old(self).pos as int, node_views(nodes@), self.pos as int),
            invariant
                self.wf(),
                self.input == old(self).input,
                old(self).pos <= self.pos,
                forall|i: int| 0 <= i < nodes@.len() ==> node_wf(#[trigger] nodes@[i]),
            ensures
                forall|i: int| 0 <= i < nodes@.len() ==> node_wf(#[trigger] nodes@[i]),
                spec_parse_nodes(self.s(), old(self).pos as int) == Ok::<
                    (Seq<SpecNode>, int),
                    SpecHtmlError,
                >((node_views(nodes@), self.pos as int)),
            decreases self.s().len() - self.pos,
        {
            let ghost p_top = self.pos as int;
            let ghost acc_top = node_views(nodes@);
            self.consume_whitespace();
            if self.pos >= self.input.len() {
                proof {
                    assert(acc_top + Seq::<SpecNode>::empty() =~= acc_top);
                }
                break ;
            }
            if self.starts_with_close() {
                proof {
                    assert(acc_top + Seq::<SpecNode>::empty() =~= acc_top);
                }
                break ;
            }
            let ghost w = self.pos as int;
            match self.parse_node() {
                Err(e) => {
                    return Err(e);
                },
                Ok(n) => {
                    proof {
                        lemma_parse_node_bounds(self.input@, w);
                    }
                    let ghost nodes_pre = nodes@;
                    nodes.push(n);
                    proof {
                        lemma_node_views_push(nodes_pre, n);
                        let s = self.s();
                        let nv = node_view(n);
                        let p2 = self.pos as int;
                        assert(spec_parse_node(s, w) == Ok::<(SpecNode, int), SpecHtmlError>(
                            (nv, p2),
                        ));
                        assert(clamp_after(s, w, p2) == p2);
                        assert(node_views(nodes@) == acc_top.push(nv));
                        match spec_parse_nodes(s, p2) {
                            Ok(r2) => {
                                assert(spec_parse_nodes(s, p_top) == Ok::<
                                    (Seq<SpecNode>, int),
                                    SpecHtmlError,
                                >((seq![nv] + r2.0, r2.1)));
                                assert(acc_top.push(nv) + r2.0 =~= acc_top + (seq![nv] + r2.0));
                            },
                            Err(e2) => {
                                assert(spec_parse_nodes(s, p_top) == Err::<
                                    (Seq<SpecNode>, int),
                                    SpecHtmlError,
                                >(e2));
                            },
                        }
                    }
                },
            }
        }
        Ok(nodes)
    }
}

/// Parses a whole document strictly. The parsed top-level siblings
/// are wrapped in a synthetic `html` root element with an empty
/// attribute map; every structural violation is a typed error.
pub fn parse_html(source: &str) -> (r: Result<DomNode, HtmlError>)
    ensures
        (r is Ok) == (spec_parse_html(source@) is Ok),
        r matches Ok(n) ==> spec_parse_html(source@) matches Ok(m) && n@ == m && node_wf(n),
        r matches Err(e) ==> spec_parse_html(source@) matches Err(me) && e@ == me,
{
    let mut parser = Parser { pos: 0, input: chars_vec(source) };
    match parser.parse_nodes() {
        Ok(nodes) => {
            proof {
                reveal_strlit("html");
                assert("html"@ =~= seq!['h', 't', 'm', 'l']);
            }
            let root = DomNode::elem(String::from_str("html"), AttrMap::new(), nodes);
            Ok(root)
        },
        Err(e) => Err(e),
    }
}

// ------------------------------------------------------------------
// The recovery scanner
// ------------------------------------------------------------------
/// The scanner's state: collected text runs, the run being built,
/// and whether the cursor is inside a tag, a script region or a
/// style region.
#[verifier::ext_equal]
pub ghost struct ScanState {
    pub texts: Seq<Seq<char>>,
    pub buf: Seq<char>,
    pub in_tag: bool,
    pub in_script: bool,
    pub in_style: bool,
}

pub open spec fn scan_init() -> ScanState {
    ScanState {
        texts: Seq::empty(),
        buf: Seq::empty(),
        in_tag: false,
        in_script: false,
        in_style: false,
    }
}

/// The buffered run, trimmed, joins the collected texts when it is
/// non-empty and the cursor is outside script and style regions.
pub open spec fn flush_texts(st: ScanState) -> Seq<Seq<char>> {
    if trimmed(st.buf).len() > 0 && !st.in_script && !st.in_style {
        st.texts.push(trimmed(st.buf))
    } else {
        st.texts
    }
}

/// One scanner step: `<` flushes the run and opens a tag, `>` closes
/// it and toggles script/style suppression by case-insensitive prefix
/// match on the tag text, anything else accumulates.
pub open spec fn scan_step(st: ScanState, c: char) -> ScanState {
    if c == '<' {
        ScanState {
            texts: flush_texts(st),
            buf: Seq::empty(),
            in_tag: true,
            in_script: st.in_script,
            in_style: st.in_style,
        }
    } else if c == '>' {
        let lower = lower_seq(st.buf);
        let is_scr = has_prefix(lower, seq!['s', 'c', 'r', 'i', 'p', 't']);
        let is_escr = has_prefix(lower, seq!['/', 's', 'c', 'r', 'i', 'p', 't']);
        let is_sty = has_prefix(lower, seq!['s', 't', 'y', 'l', 'e']);
        let is_esty = has_prefix(lower, seq!['/', 's', 't', 'y', 'l', 'e']);
        ScanState {
            texts: st.texts,
            buf: Seq::empty(),
            in_tag: false,
            in_script: if is_scr {
                true
            } else if is_escr {
                false
            } else {
                st.in_script
            },
            in_style: if is_scr || is_escr {
                st.in_style
            } else if is_sty {
                true
            } else if is_esty {
                false
            } else {
                st.in_style
            },
        }
    } else {
        if (!st.in_tag && !st.in_script && !st.in_style) || st.in_tag {
            ScanState {
                texts: st.texts,
                buf: st.buf.push(c),
                in_tag: st.in_tag,
                in_script: st.in_script,
                in_style: st.in_style,
            }
        } else {
            st
        }
    }
}

/// The scanner's state after the first `i` characters.
pub open spec fn scan_upto(s: Seq<char>, i: int) -> ScanState
    decreases i,
{
    if i <= 0 {
        scan_init()
    } else {
        scan_step(scan_upto(s, i - 1), s[i - 1])
    }
}

/// The text runs the scanner yields for an input, the final run
/// flushed.
pub open spec fn spec_scan_texts(s: Seq<char>) -> Seq<Seq<char>> {
    flush_texts(scan_upto(s, s.len() as int))
}

/// Text nodes holding the given runs.
pub open spec fn text_nodes(ts: Seq<Seq<char>>) -> Seq<SpecNode> {
    ts.map_values(|t: Seq<char>| SpecNode::Text(t))
}

proof fn lemma_text_nodes_push(ts: Seq<Seq<char>>, t: Seq<char>)
    ensures
        text_nodes(ts.push(t)) == text_nodes(ts).push(SpecNode::Text(t)),
{
    assert(text_nodes(ts.push(t)) =~= text_nodes(ts).push(SpecNode::Text(t)));
}

/// The always-succeeding fallback for malformed input: a flat `body`
/// element whose children are the visible text runs, in order; no
/// element structure and no attributes are recovered.
#[verifier::loop_isolation(false)]
pub fn parse_html_simple(html: &str) -> (r: DomNode)
    ensures
        r@ == (SpecNode::Elem {
            tag: seq!['b', 'o', 'd', 'y'],
            attrs: Map::empty(),
            children: text_nodes(spec_scan_texts(html@)),
        }),
        node_wf(r),
{
    let chars = chars_vec(html);
    let mut children: Vec<DomNode> = Vec::new();
    let mut current_text: Vec<char> = Vec::new();
    let mut in_tag = false;
    let mut in_script = false;
    let mut in_style = false;
    let mut i: usize = 0;
    proof {
        lemma_node_views(children@);
        assert(node_views(children@) =~= text_nodes(scan_upto(chars@, 0).texts));
    }
    while i < chars.len()
        invariant
            i <= chars@.len(),
            scan_upto(chars@, i as int).buf == current_text@,
            scan_upto(chars@, i as int).in_tag == in_tag,
            scan_upto(chars@, i as int).in_script == in_script,
            scan_upto(chars@, i as int).in_style == in_style,
            node_views(children@) == text_nodes(scan_upto(chars@, i as int).texts),
            forall|k: int| 0 <= k < children@.len() ==> node_wf(#[trigger] children@[k]),
        decreases chars@.len() - i,
    {
        let ghost st = scan_upto(chars@, i as int);
        let c = chars[i];
        if c == '<' {
            let t = trim_chars(&current_text);
            if t.len() > 0 && !in_script && !in_style {
                let ghost pre = children@;
                children.push(DomNode::text(string_of(&t)));
                proof {
                    lemma_node_views_push(pre, children@.last());
                    lemma_text_nodes_push(st.texts, trimmed(st.buf));
                }
            }
            current_text.clear();
            in_tag = true;
        } else if c == '>' {
            let lv = lower_chars(&current_text);
            let pat_scr: Vec<char> = vec!['s', 'c', 'r', 'i', 'p', 't'];
            let pat_escr: Vec<char> = vec!['/', 's', 'c', 'r', 'i', 'p', 't'];
            let pat_sty: Vec<char> = vec!['s', 't', 'y', 'l', 'e'];
            let pat_esty: Vec<char> = vec!['/', 's', 't', 'y', 'l', 'e'];
            proof {
                assert(pat_scr@ =~= seq!['s', 'c', 'r', 'i', 'p', 't']);
                assert(pat_escr@ =~= seq!['/', 's', 'c', 'r', 'i', 'p', 't']);
                assert(pat_sty@ =~= seq!['s', 't', 'y', 'l', 'e']);
                assert(pat_esty@ =~= seq!['/', 's', 't', 'y', 'l', 'e']);
            }
            if has_prefix_exec(&lv, &pat_scr) {
                in_script = true;
            } else if has_prefix_exec(&lv, &pat_escr) {
                in_script = false;
            } else if has_prefix_exec(&lv, &pat_sty) {
                in_style = true;
            } else if has_prefix_exec(&lv, &pat_esty) {
                in_style = false;
            }
            current_text.clear();
            in_tag = false;
        } else {
            if !in_tag && !in_script && !in_style {
                current_text.push(c);
            } else if in_tag {
                current_text.push(c);
            }
        }
        i = i + 1;
        proof {
            assert(scan_upto(chars@, i as int) == scan_step(st, chars@[i - 1]));
        }
    }
    let t = trim_chars(&current_text);
    if t.len() > 0 && !in_script && !in_style {
        let ghost pre = children@;
        children.push(DomNode::text(string_of(&t)));
        proof {
            lemma_node_views_push(pre, children@.last());
            lemma_text_nodes_push(
                scan_upto(chars@, chars@.len() as int).texts,
                trimmed(current_text@),
            );
        }
    }
    proof {
        reveal_strlit("body");
        assert("body"@ =~= seq!['b', 'o', 'd', 'y']);
    }
    DomNode::elem(String::from_str("body"), AttrMap::new(), children)
}

} // verus!
