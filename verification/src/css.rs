//! CSS parsing: a character-cursor recursive-descent parser producing a
//! `Stylesheet`. The parser is total: every input string yields a
//! stylesheet, malformed constructs are skipped by the documented
//! recovery rules.
//!
//! Lengths carry no fractional machine numbers; a numeric value is held
//! in thousandths of its unit (`10px` is `Length(10000, Px)`), parsed
//! from the decimal literal with truncation beyond the third fractional
//! digit and saturation at `u64::MAX`.
use vstd::prelude::*;

use crate::text::{
    ascii_lower_char, chars_vec, digit_val, hex_digit, hex_digit_val, is_digit, is_hex_digit,
    is_ident_char, lemma_scan_while_exact, lemma_scan_while_ge, lemma_scan_while_le, lower_seq,
    scan_while, string_of, valid_identifier_char, whitespace, ws_end,
};

verus! {

broadcast use crate::text::lemma_scan_while_ge, crate::text::lemma_scan_while_le, crate::text::lemma_scan_while_props;

// ------------------------------------------------------------------
// Data model
// ------------------------------------------------------------------
#[derive(Debug, Clone, PartialEq)]
pub struct Stylesheet {
    pub rules: Vec<Rule>,
}

#[derive(Debug, Clone, PartialEq)]
pub struct Rule {
    pub selectors: Vec<Selector>,
    pub declarations: Vec<Declaration>,
}

#[derive(Debug, Clone, PartialEq)]
pub enum Selector {
    Simple(SimpleSelector),
}

#[derive(Debug, Clone, PartialEq)]
pub struct SimpleSelector {
    pub tag_name: Option<String>,
    pub id: Option<String>,
    pub class: Vec<String>,
}

pub type Specificity = (usize, usize, usize);

#[derive(Debug, Clone, PartialEq)]
pub struct Declaration {
    pub name: String,
    pub value: Value,
}

/// A property value. A `Length` holds thousandths of its unit.
#[derive(Debug, Clone, PartialEq)]
pub enum Value {
    Keyword(String),
    Length(u64, Unit),
    ColorValue(Color),
}

#[derive(Debug, Clone, Copy, PartialEq)]
pub enum Unit {
    Px,
    Pt,
    Em,
    Rem,
    Percent,
}

#[derive(Debug, Clone, Copy, PartialEq, Eq, Structural, Default)]
pub struct Color {
    pub r: u8,
    pub g: u8,
    pub b: u8,
    pub a: u8,
}

impl Color {
    /// A color from its four channels.
    pub fn new(r: u8, g: u8, b: u8, a: u8) -> (c: Color)
        ensures
            c == (Color { r, g, b, a }),
    {
        Color { r, g, b, a }
    }
}

// ------------------------------------------------------------------
// Mathematical views
// ------------------------------------------------------------------
#[verifier::ext_equal]
pub ghost struct SpecSelector {
    pub tag: Option<Seq<char>>,
    pub id: Option<Seq<char>>,
    pub classes: Seq<Seq<char>>,
}

#[verifier::ext_equal]
pub ghost enum SpecValue {
    Keyword(Seq<char>),
    Length(u64, Unit),
    ColorValue(Color),
}

#[verifier::ext_equal]
pub ghost struct SpecDeclaration {
    pub name: Seq<char>,
    pub value: SpecValue,
}

#[verifier::ext_equal]
pub ghost struct SpecRule {
    pub selectors: Seq<SpecSelector>,
    pub declarations: Seq<SpecDeclaration>,
}

pub open spec fn opt_str_view(o: Option<String>) -> Option<Seq<char>> {
    match o {
        Some(s) => Some(s@),
        None => None,
    }
}

/// The views of a sequence of strings.
pub open spec fn str_views(v: Seq<String>) -> Seq<Seq<char>> {
    v.map_values(|s: String| s@)
}

impl View for SimpleSelector {
    type V = SpecSelector;

    open spec fn view(&self) -> SpecSelector {
        SpecSelector {
            tag: opt_str_view(self.tag_name),
            id: opt_str_view(self.id),
            classes: str_views(self.class@),
        }
    }
}

impl View for Selector {
    type V = SpecSelector;

    open spec fn view(&self) -> SpecSelector {
        match self {
            Selector::Simple(s) => s@,
        }
    }
}

impl View for Value {
    type V = SpecValue;

    open spec fn view(&self) -> SpecValue {
        match self {
            Value::Keyword(s) => SpecValue::Keyword(s@),
            Value::Length(n, u) => SpecValue::Length(*n, *u),
            Value::ColorValue(c) => SpecValue::ColorValue(*c),
        }
    }
}

impl View for Declaration {
    type V = SpecDeclaration;

    open spec fn view(&self) -> SpecDeclaration {
        SpecDeclaration { name: self.name@, value: self.value@ }
    }
}

/// The views of a sequence of selectors.
pub open spec fn sel_views(v: Seq<Selector>) -> Seq<SpecSelector> {
    v.map_values(|x: Selector| x@)
}

/// The views of a sequence of declarations.
pub open spec fn decl_views(v: Seq<Declaration>) -> Seq<SpecDeclaration> {
    v.map_values(|x: Declaration| x@)
}

impl View for Rule {
    type V = SpecRule;

    open spec fn view(&self) -> SpecRule {
        SpecRule {
            selectors: sel_views(self.selectors@),
            declarations: decl_views(self.declarations@),
        }
    }
}

/// The views of a sequence of rules.
pub open spec fn rule_views(v: Seq<Rule>) -> Seq<SpecRule> {
    v.map_values(|x: Rule| x@)
}

impl View for Stylesheet {
    type V = Seq<SpecRule>;

    open spec fn view(&self) -> Seq<SpecRule> {
        rule_views(self.rules@)
    }
}

// ------------------------------------------------------------------
// Specificity
// ------------------------------------------------------------------
/// The specificity of a selector: id present, class count, tag present,
/// compared lexicographically.
pub open spec fn spec_specificity(s: SpecSelector) -> (int, int, int) {
    (
        (if s.id is Some {
            1int
        } else {
            0int
        }),
        s.classes.len() as int,
        (if s.tag is Some {
            1int
        } else {
            0int
        }),
    )
}

/// Lexicographic order on specificity triples.
pub open spec fn spec_ge(a: (int, int, int), b: (int, int, int)) -> bool {
    a.0 > b.0 || (a.0 == b.0 && (a.1 > b.1 || (a.1 == b.1 && a.2 >= b.2)))
}

impl Selector {
    /// The selector's specificity triple: id present, class count,
    /// tag present.
    pub fn specificity(&self) -> (r: Specificity)
        ensures
            (r.0 as int, r.1 as int, r.2 as int) == spec_specificity(self@),
    {
        let Selector::Simple(simple) = self;
        let a: usize = if simple.id.is_some() {
            1
        } else {
            0
        };
        let b: usize = simple.class.len();
        let c: usize = if simple.tag_name.is_some() {
            1
        } else {
            0
        };
        (a, b, c)
    }
}

/// Decides `spec_ge` on executable specificity triples.
pub fn specificity_ge(a: Specificity, b: Specificity) -> (r: bool)
    ensures
        r == spec_ge((a.0 as int, a.1 as int, a.2 as int), (b.0 as int, b.1 as int, b.2 as int)),
{
    a.0 > b.0 || (a.0 == b.0 && (a.1 > b.1 || (a.1 == b.1 && a.2 >= b.2)))
}

// ------------------------------------------------------------------
// The parsing model: position functions
// ------------------------------------------------------------------
pub open spec fn ident_end(s: Seq<char>, p: int) -> int {
    scan_while(s, p, |c: char| is_ident_char(c))
}

pub open spec fn ident_at(s: Seq<char>, p: int) -> Seq<char> {
    s.subrange(p, ident_end(s, p))
}

pub open spec fn number_end(s: Seq<char>, p: int) -> int {
    scan_while(s, p, |c: char| is_digit(c) || c == '.')
}

/// The position after the first `;` or `}` at or after `p`, or the end.
pub open spec fn delim_end(s: Seq<char>, p: int) -> int
    decreases s.len() - p,
{
    if p < 0 || p >= s.len() {
        p
    } else if s[p] == ';' || s[p] == '}' {
        p + 1
    } else {
        delim_end(s, p + 1)
    }
}

pub broadcast proof fn lemma_delim_end_bounds(s: Seq<char>, p: int)
    requires
        0 <= p <= s.len(),
    ensures
        p <= #[trigger] delim_end(s, p) <= s.len(),
        p < s.len() ==> p + 1 <= delim_end(s, p),
    decreases s.len() - p,
{
    if 0 <= p < s.len() && !(s[p] == ';' || s[p] == '}') {
        lemma_delim_end_bounds(s, p + 1);
    }
}

// ------------------------------------------------------------------
// The parsing model: numbers
// ------------------------------------------------------------------
/// The value of a run of decimal digits.
pub open spec fn int_val(d: Seq<char>) -> int
    decreases d.len(),
{
    if d.len() == 0 {
        0
    } else {
        int_val(d.drop_last()) * 10 + digit_val(d.last())
    }
}

/// Thousandths contributed by the fractional digits; digits beyond the
/// third are truncated.
pub open spec fn frac_millis(f: Seq<char>) -> int {
    (if f.len() >= 1 {
        100 * digit_val(f[0])
    } else {
        0
    }) + (if f.len() >= 2 {
        10 * digit_val(f[1])
    } else {
        0
    }) + (if f.len() >= 3 {
        digit_val(f[2])
    } else {
        0
    })
}

pub open spec fn dot_count(d: Seq<char>) -> int
    decreases d.len(),
{
    if d.len() == 0 {
        0
    } else {
        dot_count(d.drop_last()) + (if d.last() == '.' {
            1int
        } else {
            0int
        })
    }
}

/// The index of the first `.` in `d`, or `d.len()` if there is none.
pub open spec fn first_dot(d: Seq<char>) -> int {
    scan_while(d, 0, |c: char| c != '.')
}

pub open spec fn sat_u64(x: int) -> u64 {
    if x > u64::MAX {
        u64::MAX
    } else if x < 0 {
        0
    } else {
        x as u64
    }
}

/// The value, in thousandths, of a decimal literal made of digits and
/// dots. More than one dot is a malformed number and yields 0, as a
/// failed numeric conversion does.
pub open spec fn dec_millis(d: Seq<char>) -> u64 {
    if dot_count(d) == 0 {
        sat_u64(int_val(d) * 1000)
    } else if dot_count(d) == 1 {
        sat_u64(
            int_val(d.subrange(0, first_dot(d))) * 1000 + frac_millis(
                d.subrange(first_dot(d) + 1, d.len() as int),
            ),
        )
    } else {
        0
    }
}

// ------------------------------------------------------------------
// The parsing model: values
// ------------------------------------------------------------------
/// One two-digit hexadecimal channel: two characters are consumed if
/// available and yield their value when both are hexadecimal digits,
/// otherwise 0; with fewer than two characters left, nothing is
/// consumed and the channel is 0.
pub open spec fn pair_val(c1: char, c2: char) -> u8 {
    if is_hex_digit(c1) && is_hex_digit(c2) {
        (16 * hex_digit_val(c1) + hex_digit_val(c2)) as u8
    } else {
        0
    }
}

pub open spec fn spec_hex_pair(s: Seq<char>, p: int) -> (u8, int) {
    if 0 <= p && p + 2 <= s.len() {
        (pair_val(s[p], s[p + 1]), p + 2)
    } else {
        (0u8, p)
    }
}

/// A color after the `#`: three channels, alpha 255.
pub open spec fn spec_parse_color(s: Seq<char>, p: int) -> (SpecValue, int) {
    let (r, p1) = spec_hex_pair(s, p);
    let (g, p2) = spec_hex_pair(s, p1);
    let (b, p3) = spec_hex_pair(s, p2);
    (SpecValue::ColorValue(Color { r, g, b, a: 255 }), p3)
}

/// The unit keyword, ASCII case-insensitive; anything unrecognized
/// defaults to `Px`.
pub open spec fn unit_of(id: Seq<char>) -> Unit {
    if id == seq!['p', 'x'] {
        Unit::Px
    } else if id == seq!['p', 't'] {
        Unit::Pt
    } else if id == seq!['e', 'm'] {
        Unit::Em
    } else if id == seq!['r', 'e', 'm'] {
        Unit::Rem
    } else if id == seq!['%'] {
        Unit::Percent
    } else {
        Unit::Px
    }
}

pub open spec fn spec_parse_unit(s: Seq<char>, p: int) -> (Unit, int) {
    (unit_of(lower_seq(ident_at(s, p))), ident_end(s, p))
}

/// A value: leading digit makes a length, leading `#` a color,
/// anything else a keyword.
pub open spec fn spec_parse_value(s: Seq<char>, p: int) -> (SpecValue, int) {
    if 0 <= p < s.len() && is_digit(s[p]) {
        let (u, p2) = spec_parse_unit(s, number_end(s, p));
        (SpecValue::Length(dec_millis(s.subrange(p, number_end(s, p))), u), p2)
    } else if 0 <= p < s.len() && s[p] == '#' {
        spec_parse_color(s, p + 1)
    } else {
        (SpecValue::Keyword(ident_at(s, p)), ident_end(s, p))
    }
}

// ------------------------------------------------------------------
// The parsing model: declarations
// ------------------------------------------------------------------
/// One declaration: identifier, optional whitespace, mandatory `:`,
/// value, optional trailing `;`. A missing colon yields `None` with the
/// cursor after the identifier and whitespace.
pub open spec fn spec_parse_declaration(s: Seq<char>, p: int) -> (Option<SpecDeclaration>, int) {
    let n_end = ident_end(s, p);
    let p1 = ws_end(s, n_end);
    if !(0 <= p1 < s.len()) || s[p1] != ':' {
        (None, p1)
    } else {
        let p2 = ws_end(s, p1 + 1);
        let (v, p3) = spec_parse_value(s, p2);
        let p4 = ws_end(s, p3);
        let p5 = if 0 <= p4 < s.len() && s[p4] == ';' {
            p4 + 1
        } else {
            p4
        };
        (Some(SpecDeclaration { name: s.subrange(p, n_end), value: v }), p5)
    }
}

pub broadcast proof fn lemma_parse_declaration_bounds(s: Seq<char>, p: int)
    requires
        0 <= p <= s.len(),
    ensures
        p <= (#[trigger] spec_parse_declaration(s, p)).1 <= s.len(),
        spec_parse_declaration(s, p).0 is Some ==> p + 1 <= spec_parse_declaration(s, p).1,
{
    broadcast use lemma_scan_while_ge, lemma_scan_while_le;

    let n_end = ident_end(s, p);
    let p1 = ws_end(s, n_end);
    if 0 <= p1 < s.len() && s[p1] == ':' {
        let p2 = ws_end(s, p1 + 1);
        lemma_parse_value_bounds(s, p2);
    }
}

pub broadcast proof fn lemma_parse_value_bounds(s: Seq<char>, p: int)
    requires
        0 <= p <= s.len(),
    ensures
        p <= (#[trigger] spec_parse_value(s, p)).1 <= s.len(),
{
    broadcast use lemma_scan_while_ge, lemma_scan_while_le;

    if 0 <= p < s.len() && is_digit(s[p]) {
        assert(p <= number_end(s, p) <= s.len());
    }
}

/// The declaration block body: skip whitespace, stop at `}` (consumed)
/// or the end; a malformed declaration is skipped up to the next `;`
/// or `}`.
pub open spec fn decls_loop(s: Seq<char>, p: int, acc: Seq<SpecDeclaration>) -> (
    Seq<SpecDeclaration>,
    int,
)
    decreases s.len() - p,
    when 0 <= p <= s.len()
    via decls_loop_decreases
{
    let p1 = ws_end(s, p);
    if p1 >= s.len() {
        (acc, p1)
    } else if s[p1] == '}' {
        (acc, p1 + 1)
    } else {
        let (od, p2) = spec_parse_declaration(s, p1);
        match od {
            Some(d) => decls_loop(s, p2, acc.push(d)),
            None => decls_loop(s, delim_end(s, p2), acc),
        }
    }
}

#[via_fn]
proof fn decls_loop_decreases(s: Seq<char>, p: int, acc: Seq<SpecDeclaration>) {
    broadcast use lemma_scan_while_ge, lemma_scan_while_le, lemma_parse_declaration_bounds, lemma_delim_end_bounds;

    let p1 = ws_end(s, p);
    if p1 < s.len() && s[p1] != '}' {
        assert(p <= p1 <= s.len());
    }
}

/// A declaration block: a literal `{` opens it; without one the
/// declaration list is empty and the cursor does not move.
pub open spec fn spec_parse_declarations(s: Seq<char>, p: int) -> (Seq<SpecDeclaration>, int) {
    if 0 <= p < s.len() && s[p] == '{' {
        decls_loop(s, p + 1, Seq::empty())
    } else {
        (Seq::empty(), p)
    }
}

// ------------------------------------------------------------------
// The parsing model: selectors
// ------------------------------------------------------------------
/// One simple selector: `#id`, `.class`, `*` and a tag name combine;
/// the cursor stops at the first character that fits none of them.
/// `None` means nothing was recognized.
pub open spec fn sss_step(s: Seq<char>, p: int, sel: SpecSelector, found: bool) -> (
    Option<SpecSelector>,
    int,
)
    decreases s.len() - p,
    when 0 <= p <= s.len()
    via sss_step_decreases
{
    if p >= s.len() {
        ((if found {
            Some(sel)
        } else {
            None
        }), p)
    } else if s[p] == '#' {
        sss_step(
            s,
            ident_end(s, p + 1),
            SpecSelector { tag: sel.tag, id: Some(ident_at(s, p + 1)), classes: sel.classes },
            true,
        )
    } else if s[p] == '.' {
        sss_step(
            s,
            ident_end(s, p + 1),
            SpecSelector {
                tag: sel.tag,
                id: sel.id,
                classes: sel.classes.push(ident_at(s, p + 1)),
            },
            true,
        )
    } else if s[p] == '*' {
        sss_step(s, p + 1, sel, true)
    } else if is_ident_char(s[p]) {
        sss_step(
            s,
            ident_end(s, p),
            SpecSelector { tag: Some(ident_at(s, p)), id: sel.id, classes: sel.classes },
            true,
        )
    } else {
        ((if found {
            Some(sel)
        } else {
            None
        }), p)
    }
}

#[via_fn]
proof fn sss_step_decreases(s: Seq<char>, p: int, sel: SpecSelector, found: bool) {
    broadcast use lemma_scan_while_ge, lemma_scan_while_le;

    if 0 <= p < s.len() {
        if is_ident_char(s[p]) {
            assert(scan_while(s, p, |c: char| is_ident_char(c)) == scan_while(
                s,
                p + 1,
                |c: char| is_ident_char(c),
            ));
        }
    }
}

pub open spec fn empty_selector() -> SpecSelector {
    SpecSelector { tag: None, id: None, classes: Seq::empty() }
}

pub open spec fn spec_parse_simple_selector(s: Seq<char>, p: int) -> (Option<SpecSelector>, int) {
    sss_step(s, p, empty_selector(), false)
}

pub broadcast proof fn lemma_sss_step_bounds(s: Seq<char>, p: int, sel: SpecSelector, found: bool)
    requires
        0 <= p <= s.len(),
    ensures
        p <= (#[trigger] sss_step(s, p, sel, found)).1 <= s.len(),
        sss_step(s, p, sel, found).0 is Some && !found ==> p + 1 <= sss_step(s, p, sel, found).1,
    decreases s.len() - p,
{
    broadcast use lemma_scan_while_ge, lemma_scan_while_le;

    if p < s.len() {
        if s[p] == '#' || s[p] == '.' {
            lemma_sss_step_bounds(s, ident_end(s, p + 1), sss_next_sel(s, p, sel), true);
        } else if s[p] == '*' {
            lemma_sss_step_bounds(s, p + 1, sel, true);
        } else if is_ident_char(s[p]) {
            assert(scan_while(s, p, |c: char| is_ident_char(c)) == scan_while(
                s,
                p + 1,
                |c: char| is_ident_char(c),
            ));
            lemma_sss_step_bounds(
                s,
                ident_end(s, p),
                SpecSelector { tag: Some(ident_at(s, p)), id: sel.id, classes: sel.classes },
                true,
            );
        }
    }
}

/// The selector under construction after one `#` or `.` step; only a
/// helper for stating the induction above.
pub open spec fn sss_next_sel(s: Seq<char>, p: int, sel: SpecSelector) -> SpecSelector {
    if s[p] == '#' {
        SpecSelector { tag: sel.tag, id: Some(ident_at(s, p + 1)), classes: sel.classes }
    } else {
        SpecSelector { tag: sel.tag, id: sel.id, classes: sel.classes.push(ident_at(s, p + 1)) }
    }
}

/// The comma-separated selector list; parsing stops at `{`, at any
/// unexpected character, or at the end.
pub open spec fn sel_loop(s: Seq<char>, p: int, acc: Seq<SpecSelector>) -> (Seq<SpecSelector>, int)
    decreases s.len() - p,
    when 0 <= p <= s.len()
    via sel_loop_decreases
{
    let (osel, p1) = spec_parse_simple_selector(s, p);
    let acc1 = match osel {
        Some(x) => acc.push(x),
        None => acc,
    };
    let p2 = ws_end(s, p1);
    if p2 >= s.len() {
        (acc1, p2)
    } else if s[p2] == ',' {
        sel_loop(s, ws_end(s, p2 + 1), acc1)
    } else {
        (acc1, p2)
    }
}

#[via_fn]
proof fn sel_loop_decreases(s: Seq<char>, p: int, acc: Seq<SpecSelector>) {
    broadcast use lemma_scan_while_ge, lemma_scan_while_le, lemma_sss_step_bounds;

}

/// Insertion of a selector into a list sorted by descending
/// specificity, after all entries of no smaller specificity: the
/// stable descending sort order.
pub open spec fn insert_desc(sorted: Seq<SpecSelector>, x: SpecSelector) -> Seq<SpecSelector>
    decreases sorted.len(),
{
    if sorted.len() == 0 {
        seq![x]
    } else if spec_ge(spec_specificity(sorted[0]), spec_specificity(x)) {
        seq![sorted[0]] + insert_desc(sorted.drop_first(), x)
    } else {
        seq![x] + sorted
    }
}

/// Stable sort by descending specificity.
pub open spec fn sort_desc(s: Seq<SpecSelector>) -> Seq<SpecSelector>
    decreases s.len(),
{
    if s.len() == 0 {
        Seq::empty()
    } else {
        insert_desc(sort_desc(s.drop_last()), s.last())
    }
}

pub open spec fn spec_parse_selectors(s: Seq<char>, p: int) -> (Seq<SpecSelector>, int) {
    let (lst, p1) = sel_loop(s, p, Seq::empty());
    (sort_desc(lst), p1)
}

pub broadcast proof fn lemma_sel_loop_bounds(s: Seq<char>, p: int, acc: Seq<SpecSelector>)
    requires
        0 <= p <= s.len(),
    ensures
        p <= (#[trigger] sel_loop(s, p, acc)).1 <= s.len(),
        sel_loop(s, p, acc).0.len() > acc.len() ==> p + 1 <= sel_loop(s, p, acc).1,
    decreases s.len() - p,
{
    broadcast use lemma_scan_while_ge, lemma_scan_while_le, lemma_sss_step_bounds;

    let (osel, p1) = spec_parse_simple_selector(s, p);
    let acc1 = match osel {
        Some(x) => acc.push(x),
        None => acc,
    };
    let p2 = ws_end(s, p1);
    if p2 < s.len() && s[p2] == ',' {
        lemma_sel_loop_bounds(s, ws_end(s, p2 + 1), acc1);
    }
}

// ------------------------------------------------------------------
// The parsing model: rules
// ------------------------------------------------------------------
/// One rule: a non-empty selector list followed by a declaration
/// block; an empty selector list yields `None`.
pub open spec fn spec_parse_rule(s: Seq<char>, p: int) -> (Option<SpecRule>, int) {
    let (sels, p1) = spec_parse_selectors(s, p);
    if sels.len() == 0 {
        (None, p1)
    } else {
        let (ds, p2) = spec_parse_declarations(s, p1);
        (Some(SpecRule { selectors: sels, declarations: ds }), p2)
    }
}

pub broadcast proof fn lemma_parse_rule_bounds(s: Seq<char>, p: int)
    requires
        0 <= p <= s.len(),
    ensures
        p <= (#[trigger] spec_parse_rule(s, p)).1 <= s.len(),
        spec_parse_rule(s, p).0 is Some ==> p + 1 <= spec_parse_rule(s, p).1,
{
    broadcast use lemma_scan_while_ge, lemma_scan_while_le, lemma_sel_loop_bounds;

    let (lst, p1) = sel_loop(s, p, Seq::<SpecSelector>::empty());
    lemma_sort_desc_len(lst);
    if lst.len() > 0 {
        if 0 <= p1 < s.len() && s[p1] == '{' {
            lemma_decls_loop_bounds(s, p1 + 1, Seq::empty());
        }
    }
}

pub proof fn lemma_sort_desc_len(s: Seq<SpecSelector>)
    ensures
        sort_desc(s).len() == s.len(),
    decreases s.len(),
{
    if s.len() > 0 {
        lemma_sort_desc_len(s.drop_last());
        lemma_insert_desc_len(sort_desc(s.drop_last()), s.last());
    }
}

pub proof fn lemma_insert_desc_len(s: Seq<SpecSelector>, x: SpecSelector)
    ensures
        insert_desc(s, x).len() == s.len() + 1,
    decreases s.len(),
{
    if s.len() > 0 && spec_ge(spec_specificity(s[0]), spec_specificity(x)) {
        lemma_insert_desc_len(s.drop_first(), x);
    }
}

pub broadcast proof fn lemma_decls_loop_bounds(s: Seq<char>, p: int, acc: Seq<SpecDeclaration>)
    requires
        0 <= p <= s.len(),
    ensures
        p <= (#[trigger] decls_loop(s, p, acc)).1 <= s.len(),
    decreases s.len() - p,
{
    broadcast use lemma_scan_while_ge, lemma_scan_while_le, lemma_parse_declaration_bounds, lemma_delim_end_bounds;

    let p1 = ws_end(s, p);
    if p1 < s.len() && s[p1] != '}' {
        let (od, p2) = spec_parse_declaration(s, p1);
        match od {
            Some(d) => {
                lemma_decls_loop_bounds(s, p2, acc.push(d));
            },
            None => {
                lemma_decls_loop_bounds(s, delim_end(s, p2), acc);
            },
        }
    }
}

/// The whole stylesheet: skip whitespace, try a rule, and on failure
/// discard one character to guarantee progress.
pub open spec fn rules_loop(s: Seq<char>, p: int) -> Seq<SpecRule>
    decreases s.len() - p,
    when 0 <= p <= s.len()
    via rules_loop_decreases
{
    let p1 = ws_end(s, p);
    if p1 >= s.len() {
        Seq::empty()
    } else {
        let (orule, p2) = spec_parse_rule(s, p1);
        match orule {
            Some(r) => seq![r] + rules_loop(s, p2),
            None => {
                if p2 >= s.len() {
                    Seq::empty()
                } else {
                    rules_loop(s, p2 + 1)
                }
            },
        }
    }
}

#[via_fn]
proof fn rules_loop_decreases(s: Seq<char>, p: int) {
    broadcast use lemma_scan_while_ge, lemma_scan_while_le, lemma_parse_rule_bounds;

}

/// The meaning of CSS parsing: the stylesheet any input denotes.
pub open spec fn spec_parse(s: Seq<char>) -> Seq<SpecRule> {
    rules_loop(s, 0)
}

/// A selector list in descending specificity order.
pub open spec fn sorted_desc(sels: Seq<SpecSelector>) -> bool {
    forall|a: int, b: int|
        0 <= a <= b < sels.len() ==> spec_ge(
            spec_specificity(#[trigger] sels[a]),
            spec_specificity(#[trigger] sels[b]),
        )
}

proof fn lemma_insert_desc_sorted(s: Seq<SpecSelector>, x: SpecSelector)
    requires
        sorted_desc(s),
    ensures
        sorted_desc(insert_desc(s, x)),
    decreases s.len(),
{
    let ins = insert_desc(s, x);
    lemma_insert_desc_len(s, x);
    if s.len() == 0 {
    } else if spec_ge(spec_specificity(s[0]), spec_specificity(x)) {
        let tail = s.drop_first();
        assert forall|a: int, b: int| 0 <= a <= b < tail.len() implies spec_ge(
            spec_specificity(#[trigger] tail[a]),
            spec_specificity(#[trigger] tail[b]),
        ) by {
            assert(tail[a] == s[a + 1] && tail[b] == s[b + 1]);
        }
        lemma_insert_desc_sorted(tail, x);
        let rec = insert_desc(tail, x);
        lemma_insert_desc_len(tail, x);
        lemma_insert_desc_elems(tail, x);
        assert forall|a: int, b: int| 0 <= a <= b < ins.len() implies spec_ge(
            spec_specificity(#[trigger] ins[a]),
            spec_specificity(#[trigger] ins[b]),
        ) by {
            if a == 0 {
                assert(ins[0] == s[0]);
                if b > 0 {
                    assert(ins[b] == rec[b - 1]);
                    if rec[b - 1] == x {
                    } else {
                        let q = choose|q: int| 0 <= q < tail.len() && tail[q] == rec[b - 1];
                        assert(tail[q] == s[q + 1]);
                        assert(spec_ge(spec_specificity(s[0]), spec_specificity(s[q + 1])));
                    }
                }
            } else {
                assert(ins[a] == rec[a - 1] && ins[b] == rec[b - 1]);
            }
        }
    } else {
        assert forall|a: int, b: int| 0 <= a <= b < ins.len() implies spec_ge(
            spec_specificity(#[trigger] ins[a]),
            spec_specificity(#[trigger] ins[b]),
        ) by {
            if a == 0 {
                if b > 0 {
                    assert(ins[b] == s[b - 1]);
                    assert(spec_ge(spec_specificity(s[0]), spec_specificity(s[b - 1])));
                }
            } else {
                assert(ins[a] == s[a - 1] && ins[b] == s[b - 1]);
            }
        }
    }
}

/// Every element of an insertion is the inserted one or came from the
/// list.
proof fn lemma_insert_desc_elems(s: Seq<SpecSelector>, x: SpecSelector)
    ensures
        forall|m: int|
            0 <= m < insert_desc(s, x).len() ==> (#[trigger] insert_desc(s, x)[m]) == x
                || s.contains(insert_desc(s, x)[m]),
    decreases s.len(),
{
    let ins = insert_desc(s, x);
    if s.len() > 0 && spec_ge(spec_specificity(s[0]), spec_specificity(x)) {
        let tail = s.drop_first();
        lemma_insert_desc_elems(tail, x);
        let rec = insert_desc(tail, x);
        assert forall|m: int| 0 <= m < ins.len() implies (#[trigger] ins[m]) == x || s.contains(
            ins[m],
        ) by {
            if m == 0 {
                assert(ins[0] == s[0]);
            } else {
                assert(ins[m] == rec[m - 1]);
                if rec[m - 1] != x {
                    let q = choose|q: int| 0 <= q < tail.len() && tail[q] == rec[m - 1];
                    assert(s[q + 1] == tail[q]);
                }
            }
        }
    }
}

/// The stable descending sort is sorted.
pub proof fn lemma_sort_desc_sorted(s: Seq<SpecSelector>)
    ensures
        sorted_desc(sort_desc(s)),
    decreases s.len(),
{
    if s.len() > 0 {
        lemma_sort_desc_sorted(s.drop_last());
        lemma_insert_desc_sorted(sort_desc(s.drop_last()), s.last());
    }
}

/// Every rule the parser yields carries its selector list in
/// descending specificity order.
pub proof fn lemma_parsed_selectors_sorted(s: Seq<char>, p: int)
    requires
        0 <= p <= s.len(),
    ensures
        forall|i: int|
            0 <= i < rules_loop(s, p).len() ==> sorted_desc(
                (#[trigger] rules_loop(s, p)[i]).selectors,
            ),
    decreases s.len() - p,
{
    broadcast use lemma_parse_rule_bounds;

    let p1 = ws_end(s, p);
    if p1 >= s.len() {
        assert(rules_loop(s, p) =~= Seq::<SpecRule>::empty());
    } else {
        let (orule, p2) = spec_parse_rule(s, p1);
        match orule {
            Some(r) => {
                let (lst, q) = sel_loop(s, p1, Seq::<SpecSelector>::empty());
                assert(r.selectors == sort_desc(lst));
                lemma_sort_desc_sorted(lst);
                lemma_parsed_selectors_sorted(s, p2);
                assert(rules_loop(s, p) == seq![r] + rules_loop(s, p2));
                assert forall|i: int| 0 <= i < rules_loop(s, p).len() implies sorted_desc(
                    (#[trigger] rules_loop(s, p)[i]).selectors,
                ) by {
                    if i == 0 {
                        assert(rules_loop(s, p)[0] == r);
                    } else {
                        assert(rules_loop(s, p)[i] == rules_loop(s, p2)[i - 1]);
                        assert(sorted_desc(rules_loop(s, p2)[i - 1].selectors));
                    }
                }
            },
            None => {
                if p2 < s.len() {
                    lemma_parsed_selectors_sorted(s, p2 + 1);
                    assert(rules_loop(s, p) == rules_loop(s, p2 + 1));
                } else {
                    assert(rules_loop(s, p) =~= Seq::<SpecRule>::empty());
                }
            },
        }
    }
}

// ------------------------------------------------------------------
// The executable parser: cursor primitives
// ------------------------------------------------------------------
struct Parser {
    pos: usize,
    input: Vec<char>,
}

impl Parser {
    spec fn wf(&self) -> bool {
        self.pos <= self.input@.len()
    }

    spec fn s(&self) -> Seq<char> {
        self.input@
    }

    fn eof(&self) -> (r: bool)
        requires
            self.wf(),
        ensures
            r == (self.pos == self.s().len()),
    {
        self.pos >= self.input.len()
    }

    /// The character under the cursor, or `'\0'` at the end.
    fn next_char(&self) -> (r: char)
        requires
            self.wf(),
        ensures
            self.pos < self.s().len() ==> r == self.s()[self.pos as int],
            self.pos == self.s().len() ==> r == '\0',
    {
        if self.pos < self.input.len() {
            self.input[self.pos]
        } else {
            '\0'
        }
    }

    /// Advances past the character under the cursor and returns it;
    /// at the end it returns `'\0'` and does not move.
    fn consume_char(&mut self) -> (r: char)
        requires
            old(self).wf(),
        ensures
            final(self).wf(),
            final(self).input == old(self).input,
            old(self).pos <= final(self).pos,
            old(self).pos < old(self).s().len() ==> final(self).pos == old(self).pos + 1 && r
                == old(self).s()[old(self).pos as int],
            old(self).pos == old(self).s().len() ==> final(self).pos == old(self).pos && r == '\0',
    {
        if self.pos < self.input.len() {
            let c = self.input[self.pos];
            self.pos = self.pos + 1;
            c
        } else {
            '\0'
        }
    }

    #[verifier::loop_isolation(false)]
    fn consume_whitespace(&mut self)
        requires
            old(self).wf(),
        ensures
            final(self).wf(),
            final(self).input == old(self).input,
            final(self).pos == ws_end(old(self).s(), old(self).pos as int),
            old(self).pos <= final(self).pos,
    {
        while self.pos < self.input.len() && whitespace(self.input[self.pos])
            invariant
                self.wf(),
                self.input == old(self).input,
                old(self).pos <= self.pos,
                ws_end(self.s(), self.pos as int) == ws_end(old(self).s(), old(self).pos as int),
            decreases self.s().len() - self.pos,
        {
            self.pos = self.pos + 1;
        }
        proof {
            assert(ws_end(self.s(), self.pos as int) == self.pos as int);
        }
    }

    /// The identifier characters under the cursor, consumed.
    #[verifier::loop_isolation(false)]
    fn consume_ident_chars(&mut self) -> (r: Vec<char>)
        requires
            old(self).wf(),
        ensures
            final(self).wf(),
            final(self).input == old(self).input,
            final(self).pos == ident_end(old(self).s(), old(self).pos as int),
            r@ == ident_at(old(self).s(), old(self).pos as int),
            old(self).pos <= final(self).pos,
    {
        let mut r: Vec<char> = Vec::new();
        while self.pos < self.input.len() && valid_identifier_char(self.input[self.pos])
            invariant
                self.wf(),
                self.input == old(self).input,
                old(self).pos <= self.pos,
                r@ == self.s().subrange(old(self).pos as int, self.pos as int),
                ident_end(self.s(), self.pos as int) == ident_end(
                    old(self).s(),
                    old(self).pos as int,
                ),
            decreases self.s().len() - self.pos,
        {
            r.push(self.input[self.pos]);
            self.pos = self.pos + 1;
            proof {
                assert(r@ =~= self.s().subrange(old(self).pos as int, self.pos as int));
            }
        }
        proof {
            assert(ident_end(self.s(), self.pos as int) == self.pos as int);
        }
        r
    }

    fn parse_identifier(&mut self) -> (r: String)
        requires
            old(self).wf(),
        ensures
            final(self).wf(),
            final(self).input == old(self).input,
            final(self).pos == ident_end(old(self).s(), old(self).pos as int),
            r@ == ident_at(old(self).s(), old(self).pos as int),
            old(self).pos <= final(self).pos,
    {
        let v = self.consume_ident_chars();
        string_of(&v)
    }

    /// The digit-and-dot characters under the cursor, consumed.
    #[verifier::loop_isolation(false)]
    fn consume_number_chars(&mut self) -> (r: Vec<char>)
        requires
            old(self).wf(),
        ensures
            final(self).wf(),
            final(self).input == old(self).input,
            final(self).pos == number_end(old(self).s(), old(self).pos as int),
            r@ == old(self).s().subrange(
                old(self).pos as int,
                number_end(old(self).s(), old(self).pos as int),
            ),
            forall|k: int| 0 <= k < r@.len() ==> is_digit(r@[k]) || r@[k] == '.',
            old(self).pos <= final(self).pos,
    {
        let mut r: Vec<char> = Vec::new();
        while self.pos < self.input.len() && (('0' <= self.input[self.pos] && self.input[self.pos]
            <= '9') || self.input[self.pos] == '.')
            invariant
                self.wf(),
                self.input == old(self).input,
                old(self).pos <= self.pos,
                r@ == self.s().subrange(old(self).pos as int, self.pos as int),
                forall|k: int| 0 <= k < r@.len() ==> is_digit(r@[k]) || r@[k] == '.',
                number_end(self.s(), self.pos as int) == number_end(
                    old(self).s(),
                    old(self).pos as int,
                ),
            decreases self.s().len() - self.pos,
        {
            r.push(self.input[self.pos]);
            self.pos = self.pos + 1;
            proof {
                assert(r@ =~= self.s().subrange(old(self).pos as int, self.pos as int));
            }
        }
        proof {
            assert(number_end(self.s(), self.pos as int) == self.pos as int);
        }
        r
    }

    // --------------------------------------------------------------
    // Values
    // --------------------------------------------------------------
    /// One two-digit hexadecimal color channel.
    fn parse_hex_pair(&mut self) -> (r: u8)
        requires
            old(self).wf(),
        ensures
            final(self).wf(),
            final(self).input == old(self).input,
            (r, final(self).pos as int) == spec_hex_pair(old(self).s(), old(self).pos as int),
            old(self).pos <= final(self).pos,
    {
        if self.pos < self.input.len() && self.pos + 1 < self.input.len() {
            let c1 = self.input[self.pos];
            let c2 = self.input[self.pos + 1];
            self.pos = self.pos + 2;
            match (hex_digit(c1), hex_digit(c2)) {
                (Some(a), Some(b)) => 16 * a + b,
                _ => 0,
            }
        } else {
            0
        }
    }

    fn parse_color(&mut self) -> (r: Value)
        requires
            old(self).wf(),
            old(self).pos < old(self).s().len(),
            old(self).s()[old(self).pos as int] == '#',
        ensures
            final(self).wf(),
            final(self).input == old(self).input,
            (r@, final(self).pos as int) == spec_parse_color(
                old(self).s(),
                old(self).pos + 1 as int,
            ),
            old(self).pos < final(self).pos,
    {
        self.consume_char();
        let r = self.parse_hex_pair();
        let g = self.parse_hex_pair();
        let b = self.parse_hex_pair();
        Value::ColorValue(Color { r, g, b, a: 255 })
    }

    fn parse_unit(&mut self) -> (r: Unit)
        requires
            old(self).wf(),
        ensures
            final(self).wf(),
            final(self).input == old(self).input,
            (r, final(self).pos as int) == spec_parse_unit(old(self).s(), old(self).pos as int),
            old(self).pos <= final(self).pos,
    {
        let v = self.consume_ident_chars();
        let mut lv: Vec<char> = Vec::new();
        let mut i: usize = 0;
        while i < v.len()
            invariant
                i <= v@.len(),
                lv@ == lower_seq(v@).subrange(0, i as int),
            decreases v@.len() - i,
        {
            lv.push(ascii_lower_char(v[i]));
            i = i + 1;
            proof {
                assert(lv@ =~= lower_seq(v@).subrange(0, i as int));
            }
        }
        proof {
            assert(lv@ =~= lower_seq(v@));
        }
        if lv.len() == 2 && lv[0] == 'p' && lv[1] == 'x' {
            proof {
                assert(lv@ =~= seq!['p', 'x']);
            }
            Unit::Px
        } else if lv.len() == 2 && lv[0] == 'p' && lv[1] == 't' {
            proof {
                assert(lv@ =~= seq!['p', 't']);
            }
            Unit::Pt
        } else if lv.len() == 2 && lv[0] == 'e' && lv[1] == 'm' {
            proof {
                assert(lv@ =~= seq!['e', 'm']);
            }
            Unit::Em
        } else if lv.len() == 3 && lv[0] == 'r' && lv[1] == 'e' && lv[2] == 'm' {
            proof {
                assert(lv@ =~= seq!['r', 'e', 'm']);
            }
            Unit::Rem
        } else if lv.len() == 1 && lv[0] == '%' {
            proof {
                assert(lv@ =~= seq!['%']);
            }
            Unit::Percent
        } else {
            Unit::Px
        }
    }

    /// The decimal literal under the cursor, in thousandths.
    fn parse_decimal(&mut self) -> (r: u64)
        requires
            old(self).wf(),
        ensures
            final(self).wf(),
            final(self).input == old(self).input,
            final(self).pos == number_end(old(self).s(), old(self).pos as int),
            r == dec_millis(
                old(self).s().subrange(
                    old(self).pos as int,
                    number_end(old(self).s(), old(self).pos as int),
                ),
            ),
            old(self).pos <= final(self).pos,
    {
        let run = self.consume_number_chars();
        millis_of(&run)
    }

    fn parse_value(&mut self) -> (r: Value)
        requires
            old(self).wf(),
        ensures
            final(self).wf(),
            final(self).input == old(self).input,
            r@ == spec_parse_value(old(self).s(), old(self).pos as int).0,
            final(self).pos == spec_parse_value(old(self).s(), old(self).pos as int).1,
            old(self).pos <= final(self).pos,
    {
        let c = self.next_char();
        if '0' <= c && c <= '9' {
            self.parse_length()
        } else if c == '#' {
            self.parse_color()
        } else {
            Value::Keyword(self.parse_identifier())
        }
    }

    fn parse_declaration(&mut self) -> (r: Option<Declaration>)
        requires
            old(self).wf(),
        ensures
            final(self).wf(),
            final(self).input == old(self).input,
            final(self).pos == spec_parse_declaration(old(self).s(), old(self).pos as int).1,
            (r is Some) == (spec_parse_declaration(old(self).s(), old(self).pos as int).0
                is Some),
            r matches Some(d) ==> spec_parse_declaration(old(self).s(), old(self).pos as int).0
                matches Some(sd) && d@ == sd,
            old(self).pos <= final(self).pos,
            r is Some ==> old(self).pos < final(self).pos,
    {
        let property_name = self.parse_identifier();
        self.consume_whitespace();
        if self.next_char() != ':' {
            return None;
        }
        self.consume_char();
        self.consume_whitespace();
        let value = self.parse_value();
        self.consume_whitespace();
        if self.next_char() == ';' {
            self.consume_char();
        }
        Some(Declaration { name: property_name, value })
    }

    #[verifier::loop_isolation(false)]
    fn consume_until_delimiter(&mut self)
        requires
            old(self).wf(),
        ensures
            final(self).wf(),
            final(self).input == old(self).input,
            final(self).pos == delim_end(old(self).s(), old(self).pos as int),
            old(self).pos <= final(self).pos,
            old(self).pos < old(self).s().len() ==> old(self).pos < final(self).pos,
    {
        while self.pos < self.input.len() && !(self.input[self.pos] == ';' || self.input[self.pos]
            == '}')
            invariant
                self.wf(),
                self.input == old(self).input,
                old(self).pos <= self.pos,
                delim_end(self.s(), self.pos as int) == delim_end(
                    old(self).s(),
                    old(self).pos as int,
                ),
            decreases self.s().len() - self.pos,
        {
            self.pos = self.pos + 1;
        }
        if self.pos < self.input.len() {
            proof {
                assert(delim_end(self.s(), self.pos as int) == self.pos + 1);
            }
            self.pos = self.pos + 1;
        }
    }

    fn parse_declarations(&mut self) -> (r: Vec<Declaration>)
        requires
            old(self).wf(),
        ensures
            final(self).wf(),
            final(self).input == old(self).input,
            decl_views(r@) == spec_parse_declarations(
                old(self).s(),
                old(self).pos as int,
            ).0,
            final(self).pos == spec_parse_declarations(old(self).s(), old(self).pos as int).1,
            old(self).pos <= final(self).pos,
    {
        if self.next_char() != '{' {
            let r: Vec<Declaration> = Vec::new();
            proof {
                assert(decl_views(r@) =~= Seq::<SpecDeclaration>::empty());
            }
            return r;
        }
        self.consume_char();
        let ghost start = self.pos as int;
        let mut declarations: Vec<Declaration> = Vec::new();
        proof {
            assert(decl_views(declarations@) =~= Seq::<
                SpecDeclaration,
            >::empty());
        }
        loop
            invariant_except_break
                decls_loop(self.s(), start, Seq::empty()) == decls_loop(
                    self.s(),
                    self.pos as int,
                    decl_views(declarations@),
                ),
            invariant
                self.wf(),
                self.input == old(self).input,
                0 <= start <= self.pos,
            ensures
                decls_loop(self.s(), start, Seq::empty()) == (
                    decl_views(declarations@),
                    self.pos as int,
                ),
            decreases self.s().len() - self.pos,
        {
            let ghost p_top = self.pos as int;
            let ghost acc_top = decl_views(declarations@);
            self.consume_whitespace();
            if self.eof() {
                break ;
            }
            if self.next_char() == '}' {
                self.consume_char();
                break ;
            }
            match self.parse_declaration() {
                Some(decl) => {
                    declarations.push(decl);
                    proof {
                        assert(decl_views(declarations@) =~= acc_top.push(
                            decl@,
                        ));
                    }
                },
                None => {
                    self.consume_until_delimiter();
                },
            }
        }
        declarations
    }

    fn parse_simple_selector(&mut self) -> (r: Option<SimpleSelector>)
        requires
            old(self).wf(),
        ensures
            final(self).wf(),
            final(self).input == old(self).input,
            final(self).pos == spec_parse_simple_selector(old(self).s(), old(self).pos as int).1,
            (r is Some) == (spec_parse_simple_selector(old(self).s(), old(self).pos as int).0
                is Some),
            r matches Some(sel) ==> spec_parse_simple_selector(
                old(self).s(),
                old(self).pos as int,
            ).0 matches Some(m) && sel@ == m,
            old(self).pos <= final(self).pos,
            r is Some ==> old(self).pos < final(self).pos,
    {
        let mut selector = SimpleSelector { tag_name: None, id: None, class: Vec::new() };
        let mut found_something = false;
        proof {
            assert(selector@ =~= empty_selector());
        }
        loop
            invariant_except_break
                sss_step(self.s(), old(self).pos as int, empty_selector(), false) == sss_step(
                    self.s(),
                    self.pos as int,
                    selector@,
                    found_something,
                ),
            invariant
                self.wf(),
                self.input == old(self).input,
                old(self).pos <= self.pos,
                found_something ==> old(self).pos < self.pos,
            ensures
                found_something ==> old(self).pos < self.pos,
                sss_step(self.s(), old(self).pos as int, empty_selector(), false) == (
                    (if found_something {
                        Some(selector@)
                    } else {
                        None
                    }),
                    self.pos as int,
                ),
            decreases self.s().len() - self.pos,
        {
            let ghost sel_top = selector@;
            if self.pos >= self.input.len() {
                break ;
            }
            let c = self.input[self.pos];
            if c == '#' {
                self.pos = self.pos + 1;
                let id = self.parse_identifier();
                selector.id = Some(id);
                found_something = true;
            } else if c == '.' {
                self.pos = self.pos + 1;
                let cls = self.parse_identifier();
                selector.class.push(cls);
                found_something = true;
                proof {
                    assert(selector@.classes =~= sel_top.classes.push(cls@));
                }
            } else if c == '*' {
                self.pos = self.pos + 1;
                found_something = true;
            } else if valid_identifier_char(c) {
                proof {
                    assert(ident_end(self.s(), self.pos as int) > self.pos as int);
                }
                let t = self.parse_identifier();
                selector.tag_name = Some(t);
                found_something = true;
            } else {
                break ;
            }
        }
        if found_something {
            Some(selector)
        } else {
            None
        }
    }

    fn parse_selectors(&mut self) -> (r: Vec<Selector>)
        requires
            old(self).wf(),
        ensures
            final(self).wf(),
            final(self).input == old(self).input,
            sel_views(r@) == spec_parse_selectors(
                old(self).s(),
                old(self).pos as int,
            ).0,
            final(self).pos == spec_parse_selectors(old(self).s(), old(self).pos as int).1,
            old(self).pos <= final(self).pos,
            r@.len() > 0 ==> old(self).pos < final(self).pos,
    {
        let mut selectors: Vec<Selector> = Vec::new();
        proof {
            assert(sel_views(selectors@) =~= Seq::<SpecSelector>::empty());
        }
        loop
            invariant_except_break
                sel_loop(self.s(), old(self).pos as int, Seq::empty()) == sel_loop(
                    self.s(),
                    self.pos as int,
                    sel_views(selectors@),
                ),
            invariant
                self.wf(),
                self.input == old(self).input,
                old(self).pos <= self.pos,
                selectors@.len() > 0 ==> old(self).pos < self.pos,
            ensures
                selectors@.len() > 0 ==> old(self).pos < self.pos,
                sel_loop(self.s(), old(self).pos as int, Seq::empty()) == (
                    sel_views(selectors@),
                    self.pos as int,
                ),
            decreases self.s().len() - self.pos,
        {
            let ghost acc_top = sel_views(selectors@);
            match self.parse_simple_selector() {
                Some(sel) => {
                    selectors.push(Selector::Simple(sel));
                    proof {
                        assert(sel_views(selectors@) =~= acc_top.push(sel@));
                    }
                },
                None => {},
            }
            self.consume_whitespace();
            if self.next_char() == ',' {
                self.consume_char();
                self.consume_whitespace();
            } else {
                break ;
            }
        }
        proof {
            lemma_sort_desc_len(sel_views(selectors@));
        }
        sort_selectors_desc(selectors)
    }

    fn parse_rule(&mut self) -> (r: Option<Rule>)
        requires
            old(self).wf(),
        ensures
            final(self).wf(),
            final(self).input == old(self).input,
            final(self).pos == spec_parse_rule(old(self).s(), old(self).pos as int).1,
            (r is Some) == (spec_parse_rule(old(self).s(), old(self).pos as int).0 is Some),
            r matches Some(rule) ==> spec_parse_rule(old(self).s(), old(self).pos as int).0
                matches Some(m) && rule@ == m,
            old(self).pos <= final(self).pos,
            r is Some ==> old(self).pos < final(self).pos,
    {
        let selectors = self.parse_selectors();
        if selectors.is_empty() {
            return None;
        }
        let declarations = self.parse_declarations();
        Some(Rule { selectors, declarations })
    }

    fn parse_rules(&mut self) -> (r: Vec<Rule>)
        requires
            old(self).wf(),
        ensures
            final(self).wf(),
            rule_views(r@) == rules_loop(old(self).s(), old(self).pos as int),
    {
        let mut rules: Vec<Rule> = Vec::new();
        proof {
            assert(rule_views(rules@) =~= Seq::<SpecRule>::empty());
        }
        loop
            invariant_except_break
                rules_loop(old(self).s(), old(self).pos as int) == rule_views(rules@) + rules_loop(self.s(), self.pos as int),
            invariant
                self.wf(),
                self.input == old(self).input,
                old(self).pos <= self.pos,
            ensures
                rules_loop(old(self).s(), old(self).pos as int) == rule_views(rules@),
            decreases self.s().len() - self.pos,
        {
            let ghost acc_top = rule_views(rules@);
            self.consume_whitespace();
            if self.eof() {
                proof {
                    assert(acc_top + Seq::<SpecRule>::empty() =~= acc_top);
                }
                break ;
            }
            match self.parse_rule() {
                Some(rule) => {
                    rules.push(rule);
                    proof {
                        assert(rule_views(rules@) =~= acc_top.push(rule@));
                        assert(acc_top + (seq![rule@] + rules_loop(self.s(), self.pos as int))
                            =~= acc_top.push(rule@) + rules_loop(self.s(), self.pos as int));
                    }
                },
                None => {
                    if self.eof() {
                        proof {
                            assert(acc_top + Seq::<SpecRule>::empty() =~= acc_top);
                        }
                        break ;
                    }
                    self.consume_char();
                },
            }
        }
        rules
    }

    fn parse_length(&mut self) -> (r: Value)
        requires
            old(self).wf(),
        ensures
            final(self).wf(),
            final(self).input == old(self).input,
            ({
                let n_end = number_end(old(self).s(), old(self).pos as int);
                let (u, p2) = spec_parse_unit(old(self).s(), n_end);
                r@ == SpecValue::Length(
                    dec_millis(old(self).s().subrange(old(self).pos as int, n_end)),
                    u,
                ) && final(self).pos == p2
            }),
            old(self).pos <= final(self).pos,
    {
        let m = self.parse_decimal();
        let u = self.parse_unit();
        Value::Length(m, u)
    }
}

// ------------------------------------------------------------------
// Sorting selectors by descending specificity
// ------------------------------------------------------------------
/// `insert_desc` places the element exactly at the first position
/// whose specificity is smaller.
proof fn lemma_insert_desc_at(s: Seq<SpecSelector>, x: SpecSelector, k: int)
    requires
        0 <= k <= s.len(),
        forall|m: int| 0 <= m < k ==> spec_ge(spec_specificity(s[m]), spec_specificity(x)),
        k < s.len() ==> !spec_ge(spec_specificity(s[k]), spec_specificity(x)),
    ensures
        insert_desc(s, x) == s.insert(k, x),
    decreases s.len(),
{
    if s.len() == 0 {
        assert(insert_desc(s, x) =~= s.insert(0, x));
    } else if k == 0 {
        assert(seq![x] + s =~= s.insert(0, x));
    } else {
        lemma_insert_desc_at(s.drop_first(), x, k - 1);
        assert(seq![s[0]] + s.drop_first().insert(k - 1, x) =~= s.insert(k, x));
    }
}

/// Stable insertion sort by descending specificity.
#[verifier::loop_isolation(false)]
fn sort_selectors_desc(v: Vec<Selector>) -> (r: Vec<Selector>)
    ensures
        sel_views(r@) == sort_desc(sel_views(v@)),
{
    let ghost orig = sel_views(v@);
    let mut rest = v;
    let mut out: Vec<Selector> = Vec::new();
    proof {
        assert(sel_views(out@) =~= sort_desc(orig.subrange(0, 0)));
        assert(sel_views(rest@) =~= orig.subrange(0, orig.len() as int));
    }
    while rest.len() > 0
        invariant
            rest@.len() <= orig.len(),
            sel_views(rest@) == orig.subrange(
                orig.len() - rest@.len(),
                orig.len() as int,
            ),
            sel_views(out@) == sort_desc(
                orig.subrange(0, orig.len() - rest@.len()),
            ),
        decreases rest@.len(),
    {
        let ghost done = orig.len() - rest@.len();
        let ghost out_v = sel_views(out@);
        let ghost rest_pre = rest@;
        let x = rest.remove(0);
        proof {
            assert(sel_views(rest_pre)[0] == x@);
            assert(x@ == orig[done]);
            assert forall|i: int| 0 <= i < rest@.len() implies sel_views(rest@)[i] == orig[done + 1
                + i] by {
                assert(rest@[i] == rest_pre[i + 1]);
                assert(sel_views(rest_pre)[i + 1] == orig.subrange(done, orig.len() as int)[i
                    + 1]);
            }
            assert(sel_views(rest@) =~= orig.subrange(done + 1, orig.len() as int));
        }
        let xs = x.specificity();
        let mut k: usize = 0;
        while k < out.len() && specificity_ge(out[k].specificity(), xs)
            invariant
                k <= out@.len(),
                forall|m: int|
                    0 <= m < k ==> spec_ge(
                        spec_specificity(out_v[m]),
                        spec_specificity(x@),
                    ),
            decreases out@.len() - k,
        {
            k = k + 1;
        }
        proof {
            lemma_insert_desc_at(out_v, x@, k as int);
        }
        out.insert(k, x);
        proof {
            assert(sel_views(out@) =~= out_v.insert(k as int, x@));
            assert(orig.subrange(0, done + 1).drop_last() =~= orig.subrange(0, done));
            assert(orig.subrange(0, done + 1).last() == orig[done]);
        }
    }
    proof {
        assert(orig.subrange(0, orig.len() as int) =~= orig);
    }
    out
}

// ------------------------------------------------------------------
// The public entry point
// ------------------------------------------------------------------
/// Parses a stylesheet. Total: every input string yields exactly the
/// stylesheet that `spec_parse` denotes, and parsing never fails.
pub fn parse(source: &str) -> (r: Stylesheet)
    ensures
        r@ == spec_parse(source@),
{
    let mut parser = Parser { pos: 0, input: chars_vec(source) };
    let rules = parser.parse_rules();
    Stylesheet { rules }
}

// ------------------------------------------------------------------
// Decimal literals
// ------------------------------------------------------------------
/// `int_val` of a run of digits is not negative.
proof fn lemma_int_val_nonneg(d: Seq<char>)
    requires
        forall|k: int| 0 <= k < d.len() ==> is_digit(d[k]),
    ensures
        int_val(d) >= 0,
    decreases d.len(),
{
    if d.len() > 0 {
        lemma_int_val_nonneg(d.drop_last());
    }
}

/// The dot count is never negative.
proof fn lemma_dot_count_nonneg(d: Seq<char>)
    ensures
        dot_count(d) >= 0,
    decreases d.len(),
{
    if d.len() > 0 {
        lemma_dot_count_nonneg(d.drop_last());
    }
}

/// A dot somewhere in the run makes the count positive.
proof fn lemma_dot_at_counts(d: Seq<char>, i: int)
    requires
        0 <= i < d.len(),
        d[i] == '.',
    ensures
        dot_count(d) >= 1,
    decreases d.len(),
{
    if i < d.len() - 1 {
        lemma_dot_at_counts(d.drop_last(), i);
    } else {
        lemma_dot_count_nonneg(d.drop_last());
    }
}

/// Two dots at distinct positions make the count at least two.
proof fn lemma_two_dots(d: Seq<char>, i: int, j: int)
    requires
        0 <= i < j < d.len(),
        d[i] == '.',
        d[j] == '.',
    ensures
        dot_count(d) >= 2,
    decreases d.len(),
{
    if j == d.len() - 1 {
        lemma_dot_at_counts(d.drop_last(), i);
    } else {
        lemma_two_dots(d.drop_last(), i, j);
    }
}

/// The value, in thousandths, of a run of digits and dots.
#[verifier::loop_isolation(false)]
fn millis_of(v: &Vec<char>) -> (r: u64)
    requires
        forall|k: int| 0 <= k < v@.len() ==> is_digit(v@[k]) || v@[k] == '.',
    ensures
        r == dec_millis(v@),
{
    // Count the dots and find the first.
    let mut dots: usize = 0;
    let mut dot_idx: usize = v.len();
    let mut i: usize = 0;
    while i < v.len()
        invariant
            i <= v@.len(),
            dots <= i,
            dots as int == dot_count(v@.subrange(0, i as int)),
            dots == 0 ==> dot_idx == v@.len() && (forall|k: int| 0 <= k < i ==> v@[k] != '.'),
            dots > 0 ==> dot_idx < i && v@[dot_idx as int] == '.' && (forall|k: int|
                0 <= k < dot_idx ==> v@[k] != '.'),
        decreases v@.len() - i,
    {
        if v[i] == '.' {
            if dots == 0 {
                dot_idx = i;
            }
            dots = dots + 1;
        }
        i = i + 1;
        proof {
            assert(v@.subrange(0, i as int).drop_last() =~= v@.subrange(0, i - 1));
        }
    }
    proof {
        assert(v@.subrange(0, v@.len() as int) =~= v@);
        lemma_scan_while_exact(v@, 0, dot_idx as int, |c: char| c != '.');
    }
    if dots >= 2 {
        return 0;
    }
    // The whole-number digits end at the first dot or at the end.
    let int_len: usize = dot_idx;
    let ghost ip = v@.subrange(0, int_len as int);
    assert(forall|k: int| 0 <= k < ip.len() ==> is_digit(ip[k]));
    let mut acc: u64 = 0;
    let mut j: usize = 0;
    while j < int_len
        invariant
            j <= int_len <= v@.len(),
            ip == v@.subrange(0, int_len as int),
            forall|k: int| 0 <= k < ip.len() ==> is_digit(ip[k]),
            acc == sat_u64(int_val(ip.subrange(0, j as int))),
        decreases int_len - j,
    {
        let c = v[j];
        assert(is_digit(c));
        let d: u64 = (c as u32 - '0' as u32) as u64;
        let ghost pre = ip.subrange(0, j as int);
        let ghost pre1 = ip.subrange(0, j + 1 as int);
        proof {
            assert(pre1.drop_last() =~= pre);
            assert(pre1.last() == ip[j as int]);
            lemma_int_val_nonneg(pre);
        }
        let t: u128 = acc as u128 * 10 + d as u128;
        if t > u64::MAX as u128 {
            acc = u64::MAX;
            proof {
                assert(int_val(pre) * 10 >= int_val(pre)) by (nonlinear_arith)
                    requires
                        int_val(pre) >= 0,
                ;
                if int_val(pre) > u64::MAX {
                    assert(int_val(pre1) > u64::MAX);
                }
            }
        } else {
            acc = t as u64;
            proof {
                if int_val(pre) > u64::MAX {
                    assert(int_val(pre) * 10 >= int_val(pre)) by (nonlinear_arith)
                        requires
                            int_val(pre) >= 0,
                    ;
                    assert(false);
                }
            }
        }
        j = j + 1;
    }
    proof {
        assert(ip.subrange(0, int_len as int) =~= ip);
        lemma_int_val_nonneg(ip);
    }
    // The first three fractional digits, in thousandths.
    let mut fm: u64 = 0;
    if dots == 1 {
        let ghost f = v@.subrange(dot_idx + 1, v@.len() as int);
        proof {
            assert forall|k: int| dot_idx < k < v@.len() implies v@[k] != '.' by {
                if v@[k] == '.' {
                    lemma_two_dots(v@, dot_idx as int, k);
                }
            }
        }
        if dot_idx + 1 < v.len() {
            let c = v[dot_idx + 1];
            assert(f[0] == v@[dot_idx + 1] && is_digit(f[0]));
            fm = 100 * ((c as u32 - '0' as u32) as u64);
            if dot_idx + 2 < v.len() {
                let c2 = v[dot_idx + 2];
                assert(f[1] == v@[dot_idx + 2] && is_digit(f[1]));
                fm = fm + 10 * ((c2 as u32 - '0' as u32) as u64);
                if dot_idx + 3 < v.len() {
                    let c3 = v[dot_idx + 3];
                    assert(f[2] == v@[dot_idx + 3] && is_digit(f[2]));
                    fm = fm + (c3 as u32 - '0' as u32) as u64;
                }
            }
        }
        assert(fm as int == frac_millis(f));
    }
    // Combine, saturating at u64::MAX.
    let total: u128 = acc as u128 * 1000 + fm as u128;
    let r: u64 = if total > u64::MAX as u128 {
        u64::MAX
    } else {
        total as u64
    };
    proof {
        let whole = if dots == 0 {
            int_val(ip) * 1000
        } else {
            int_val(ip) * 1000 + frac_millis(v@.subrange(dot_idx + 1, v@.len() as int))
        };
        if int_val(ip) > u64::MAX {
            assert(int_val(ip) * 1000 >= int_val(ip)) by (nonlinear_arith)
                requires
                    int_val(ip) >= 0,
            ;
        }
        if dots == 0 {
            assert(ip =~= v@);
        } else {
            assert(first_dot(v@) == dot_idx);
        }
    }
    r
}

} // verus!

