//! The cascade resolver: matches stylesheet rules against an element,
//! computes specificity, merges declarations into a property map by
//! the cascade order, and projects a fixed computed-style record.
use vstd::prelude::*;

use crate::css::{
    sel_views, spec_ge, spec_specificity, specificity_ge, Color, Rule, Selector, SimpleSelector,
    SpecDeclaration, SpecRule, SpecSelector, SpecValue, Specificity, Stylesheet, Unit, Value,
};
use crate::dom::ElementData;
use crate::text::{chars_vec, scan_while, string_of};
use vstd::string::StringExecFns;

verus! {

broadcast use crate::text::lemma_scan_while_ge, crate::text::lemma_scan_while_le, crate::text::lemma_scan_while_props;

// ------------------------------------------------------------------
// Selector matching
// ------------------------------------------------------------------
/// The position of the first space at or after `p`.
pub open spec fn space_end(s: Seq<char>, p: int) -> int {
    scan_while(s, p, |c: char| c != ' ')
}

/// The pieces of `s` between single spaces, empty pieces included.
pub open spec fn split_sp(s: Seq<char>) -> Seq<Seq<char>>
    decreases s.len(),
{
    let j = space_end(s, 0);
    if j >= s.len() {
        seq![s]
    } else {
        seq![s.subrange(0, j)] + split_sp(s.subrange(j + 1, s.len() as int))
    }
}

/// The classes of an element: its `class` attribute value split on
/// spaces; no attribute means no classes.
pub open spec fn elem_classes_spec(e: ElementData) -> Seq<Seq<char>> {
    if e.attributes@.contains_key(seq!['c', 'l', 'a', 's', 's']) {
        split_sp(e.attributes@[seq!['c', 'l', 'a', 's', 's']])
    } else {
        Seq::empty()
    }
}

/// The id of an element: its `id` attribute value, if any.
pub open spec fn elem_id_spec(e: ElementData) -> Option<Seq<char>> {
    if e.attributes@.contains_key(seq!['i', 'd']) {
        Some(e.attributes@[seq!['i', 'd']])
    } else {
        None
    }
}

/// Whether a simple selector matches an element: the tag, if present,
/// equals the element's tag; the id, if present, equals the element's
/// `id` attribute; every listed class is among the element's classes.
/// A selector with none of these matches unconditionally.
pub open spec fn spec_matches(e: ElementData, sel: SpecSelector) -> bool {
    &&& (sel.tag matches Some(t) ==> e.tag_name@ == t)
    &&& (sel.id matches Some(id) ==> elem_id_spec(e) == Some(id))
    &&& (forall|i: int|
        0 <= i < sel.classes.len() ==> elem_classes_spec(e).contains(#[trigger] sel.classes[i]))
}

/// Splits a class attribute value on single spaces.
#[verifier::loop_isolation(false)]
pub fn split_spaces(s: &String) -> (r: Vec<String>)
    ensures
        crate::css::str_views(r@) == split_sp(s@),
{
    let chars = chars_vec(s.as_str());
    let mut pieces: Vec<String> = Vec::new();
    let mut buf: Vec<char> = Vec::new();
    let mut start: usize = 0;
    let mut i: usize = 0;
    proof {
        assert(crate::css::str_views(pieces@) =~= Seq::<Seq<char>>::empty());
        assert(chars@.subrange(0, chars@.len() as int) =~= chars@);
        assert(crate::css::str_views(pieces@) + split_sp(chars@) =~= split_sp(chars@));
    }
    while i < chars.len()
        invariant
            start <= i <= chars@.len(),
            buf@ == chars@.subrange(start as int, i as int),
            forall|k: int| start <= k < i ==> chars@[k] != ' ',
            split_sp(chars@) == crate::css::str_views(pieces@) + split_sp(
                chars@.subrange(start as int, chars@.len() as int),
            ),
        decreases chars@.len() - i,
    {
        let c = chars[i];
        if c == ' ' {
            let ghost rest = chars@.subrange(start as int, chars@.len() as int);
            let ghost pieces_pre = pieces@;
            pieces.push(string_of(&buf));
            buf = Vec::new();
            proof {
                crate::text::lemma_scan_while_exact(rest, 0, i - start, |c: char| c != ' ');
                assert(rest.subrange(0, i - start) =~= chars@.subrange(start as int, i as int));
                assert(rest.subrange(i - start + 1, rest.len() as int) =~= chars@.subrange(
                    i + 1,
                    chars@.len() as int,
                ));
                assert(crate::css::str_views(pieces@) =~= crate::css::str_views(pieces_pre).push(
                    chars@.subrange(start as int, i as int),
                ));
                assert(crate::css::str_views(pieces_pre) + (seq![
                    chars@.subrange(start as int, i as int),
                ] + split_sp(chars@.subrange(i + 1, chars@.len() as int)))
                    =~= crate::css::str_views(pieces@) + split_sp(
                    chars@.subrange(i + 1, chars@.len() as int),
                ));
            }
            start = i + 1;
            i = i + 1;
            proof {
                assert(buf@ =~= chars@.subrange(start as int, i as int));
            }
        } else {
            buf.push(c);
            i = i + 1;
            proof {
                assert(buf@ =~= chars@.subrange(start as int, i as int));
            }
        }
    }
    let ghost rest = chars@.subrange(start as int, chars@.len() as int);
    let ghost pieces_pre = pieces@;
    pieces.push(string_of(&buf));
    proof {
        crate::text::lemma_scan_while_exact(rest, 0, rest.len() as int, |c: char| c != ' ');
        assert(split_sp(rest) =~= seq![rest]);
        assert(crate::css::str_views(pieces@) =~= crate::css::str_views(pieces_pre).push(rest));
        assert(crate::css::str_views(pieces_pre) + seq![rest] =~= crate::css::str_views(pieces@));
        assert(chars@ == s@);
    }
    pieces
}

/// The element's `id` attribute value, if any.
pub fn elem_id<'a>(elem: &'a ElementData) -> (r: Option<&'a String>)
    ensures
        match r {
            Some(v) => elem_id_spec(*elem) == Some(v@),
            None => elem_id_spec(*elem) is None,
        },
{
    proof {
        reveal_strlit("id");
        assert("id"@ =~= seq!['i', 'd']);
    }
    let k = String::from_str("id");
    elem.attributes.get(&k)
}

/// The element's classes, split from its `class` attribute.
pub fn elem_classes(elem: &ElementData) -> (r: Vec<String>)
    ensures
        crate::css::str_views(r@) == elem_classes_spec(*elem),
{
    proof {
        reveal_strlit("class");
        assert("class"@ =~= seq!['c', 'l', 'a', 's', 's']);
    }
    let k = String::from_str("class");
    match elem.attributes.get(&k) {
        Some(classlist) => split_spaces(classlist),
        None => {
            let r: Vec<String> = Vec::new();
            proof {
                assert(crate::css::str_views(r@) =~= Seq::<Seq<char>>::empty());
            }
            r
        },
    }
}

/// Whether some string of `v` reads `x`.
fn contains_string(v: &Vec<String>, x: &String) -> (r: bool)
    ensures
        r == crate::css::str_views(v@).contains(x@),
{
    let mut i: usize = 0;
    while i < v.len()
        invariant
            i <= v@.len(),
            forall|j: int| 0 <= j < i ==> crate::css::str_views(v@)[j] != x@,
        decreases v@.len() - i,
    {
        if v[i] == *x {
            proof {
                assert(crate::css::str_views(v@)[i as int] == x@);
            }
            return true;
        }
        i = i + 1;
    }
    proof {
        if crate::css::str_views(v@).contains(x@) {
            let j = choose|j: int|
                0 <= j < crate::css::str_views(v@).len() && crate::css::str_views(v@)[j] == x@;
            assert(false);
        }
    }
    false
}

/// Decides `spec_matches`.
pub fn matches_simple_selector(elem: &ElementData, selector: &SimpleSelector) -> (r: bool)
    ensures
        r == spec_matches(*elem, selector@),
{
    match &selector.tag_name {
        Some(name) => {
            if !(elem.tag_name == *name) {
                return false;
            }
        },
        None => {},
    }
    match &selector.id {
        Some(id) => {
            match elem_id(elem) {
                Some(v) => {
                    if !(*v == *id) {
                        return false;
                    }
                },
                None => {
                    return false;
                },
            }
        },
        None => {},
    }
    let classes = elem_classes(elem);
    let mut ci: usize = 0;
    while ci < selector.class.len()
        invariant
            ci <= selector.class@.len(),
            forall|j: int|
                0 <= j < ci ==> elem_classes_spec(*elem).contains(#[trigger] selector@.classes[j]),
            crate::css::str_views(classes@) == elem_classes_spec(*elem),
        decreases selector.class@.len() - ci,
    {
        if !contains_string(&classes, &selector.class[ci]) {
            proof {
                assert(selector@.classes[ci as int] == selector.class@[ci as int]@);
            }
            return false;
        }
        ci = ci + 1;
    }
    true
}

/// Whether a selector matches an element.
pub fn selector_matches(elem: &ElementData, selector: &Selector) -> (r: bool)
    ensures
        r == spec_matches(*elem, selector@),
{
    let Selector::Simple(simple) = selector;
    matches_simple_selector(elem, simple)
}

// ------------------------------------------------------------------
// Matching a rule
// ------------------------------------------------------------------
/// The specificity of the first matching selector, if any; with the
/// selector list sorted by descending specificity, this is the
/// maximum among the matching selectors.
pub open spec fn first_match(e: ElementData, sels: Seq<SpecSelector>) -> Option<(int, int, int)>
    decreases sels.len(),
{
    if sels.len() == 0 {
        None
    } else if spec_matches(e, sels[0]) {
        Some(spec_specificity(sels[0]))
    } else {
        first_match(e, sels.drop_first())
    }
}

pub open spec fn spec_match_rule(e: ElementData, r: SpecRule) -> Option<(int, int, int)> {
    first_match(e, r.selectors)
}

/// A rule fails to match exactly when none of its selectors does.
pub proof fn lemma_first_match_none(e: ElementData, sels: Seq<SpecSelector>)
    ensures
        (first_match(e, sels) is None) == (forall|k: int|
            0 <= k < sels.len() ==> !spec_matches(e, #[trigger] sels[k])),
    decreases sels.len(),
{
    if sels.len() == 0 {
    } else if spec_matches(e, sels[0]) {
        assert(!(forall|k: int| 0 <= k < sels.len() ==> !spec_matches(e, #[trigger] sels[k])));
    } else {
        let tail = sels.drop_first();
        lemma_first_match_none(e, tail);
        if first_match(e, sels) is None {
            assert forall|k: int| 0 <= k < sels.len() implies !spec_matches(
                e,
                #[trigger] sels[k],
            ) by {
                if k > 0 {
                    assert(tail[k - 1] == sels[k]);
                    assert(!spec_matches(e, tail[k - 1]));
                }
            }
        } else {
            assert(exists|k: int| 0 <= k < tail.len() && spec_matches(e, #[trigger] tail[k]));
            let k = choose|k: int| 0 <= k < tail.len() && spec_matches(e, #[trigger] tail[k]);
            assert(sels[k + 1] == tail[k]);
            assert(spec_matches(e, sels[k + 1]));
        }
    }
}

/// On a selector list sorted by descending specificity — the order
/// the parser produces — the first matching selector's specificity is
/// the maximum among all matching selectors.
pub proof fn lemma_first_match_is_max(e: ElementData, sels: Seq<SpecSelector>)
    requires
        crate::css::sorted_desc(sels),
    ensures
        first_match(e, sels) matches Some(sp) ==> forall|k: int|
            0 <= k < sels.len() && spec_matches(e, #[trigger] sels[k]) ==> spec_ge(
                sp,
                spec_specificity(sels[k]),
            ),
    decreases sels.len(),
{
    if sels.len() > 0 && !spec_matches(e, sels[0]) {
        let tail = sels.drop_first();
        assert forall|a: int, b: int| 0 <= a <= b < tail.len() implies spec_ge(
            spec_specificity(#[trigger] tail[a]),
            spec_specificity(#[trigger] tail[b]),
        ) by {
            assert(tail[a] == sels[a + 1] && tail[b] == sels[b + 1]);
        }
        lemma_first_match_is_max(e, tail);
        match first_match(e, tail) {
            Some(sp) => {
                assert forall|k: int|
                    0 <= k < sels.len() && spec_matches(e, #[trigger] sels[k]) implies spec_ge(
                    sp,
                    spec_specificity(sels[k]),
                ) by {
                    assert(k > 0);
                    assert(tail[k - 1] == sels[k]);
                }
            },
            None => {},
        }
    }
}

/// Decides `spec_match_rule`.
pub fn match_rule(elem: &ElementData, rule: &Rule) -> (r: Option<Specificity>)
    ensures
        (r is Some) == (spec_match_rule(*elem, rule@) is Some),
        r matches Some(sp) ==> spec_match_rule(*elem, rule@) matches Some(m) && (
        sp.0 as int,
        sp.1 as int,
        sp.2 as int,
        ) == m,
{
    let mut i: usize = 0;
    proof {
        assert(sel_views(rule.selectors@).skip(0) =~= sel_views(rule.selectors@));
    }
    while i < rule.selectors.len()
        invariant
            i <= rule.selectors@.len(),
            first_match(*elem, sel_views(rule.selectors@)) == first_match(
                *elem,
                sel_views(rule.selectors@).skip(i as int),
            ),
        decreases rule.selectors@.len() - i,
    {
        let ghost sels = sel_views(rule.selectors@);
        proof {
            assert(sels.skip(i as int)[0] == sels[i as int]);
        }
        if selector_matches(elem, &rule.selectors[i]) {
            return Some(rule.selectors[i].specificity());
        }
        proof {
            assert(sels.skip(i as int).drop_first() =~= sels.skip(i + 1));
        }
        i = i + 1;
    }
    proof {
        assert(sel_views(rule.selectors@).skip(rule.selectors@.len() as int) =~= Seq::<
            SpecSelector,
        >::empty());
    }
    None
}

// ------------------------------------------------------------------
// The property map
// ------------------------------------------------------------------
/// A mapping from property name to value; a later binding for the
/// same name replaces the earlier one.
#[derive(Debug, Clone)]
pub struct PropertyMap {
    entries: Vec<(String, Value)>,
}

/// The mapping denoted by a sequence of bindings.
pub open spec fn pmap_of(entries: Seq<(String, Value)>) -> Map<Seq<char>, SpecValue>
    decreases entries.len(),
{
    if entries.len() == 0 {
        Map::empty()
    } else {
        pmap_of(entries.drop_last()).insert(entries.last().0@, entries.last().1@)
    }
}

impl View for PropertyMap {
    type V = Map<Seq<char>, SpecValue>;

    closed spec fn view(&self) -> Map<Seq<char>, SpecValue> {
        pmap_of(self.entries@)
    }
}

proof fn lemma_pmap_found(entries: Seq<(String, Value)>, i: int)
    requires
        0 <= i < entries.len(),
        forall|j: int| i < j < entries.len() ==> entries[j].0@ != entries[i].0@,
    ensures
        pmap_of(entries).contains_key(entries[i].0@),
        pmap_of(entries)[entries[i].0@] == entries[i].1@,
    decreases entries.len(),
{
    if i < entries.len() - 1 {
        lemma_pmap_found(entries.drop_last(), i);
    }
}

proof fn lemma_pmap_absent(entries: Seq<(String, Value)>, k: Seq<char>)
    requires
        forall|j: int| 0 <= j < entries.len() ==> entries[j].0@ != k,
    ensures
        !pmap_of(entries).contains_key(k),
    decreases entries.len(),
{
    if entries.len() > 0 {
        lemma_pmap_absent(entries.drop_last(), k);
    }
}

impl PropertyMap {
    /// An empty property map.
    pub fn new() -> (r: PropertyMap)
        ensures
            r@ == Map::<Seq<char>, SpecValue>::empty(),
    {
        PropertyMap { entries: Vec::new() }
    }

    /// Binds `name` to `value`, replacing any earlier binding.
    pub fn insert(&mut self, name: String, value: Value)
        ensures
            final(self)@ == old(self)@.insert(name@, value@),
    {
        let ghost pre = self.entries@;
        self.entries.push((name, value));
        proof {
            assert(self.entries@.drop_last() =~= pre);
        }
    }

    /// The value bound to `name`, if any.
    pub fn get(&self, name: &String) -> (r: Option<&Value>)
        ensures
            match r {
                Some(v) => self@.contains_key(name@) && v@ == self@[name@],
                None => !self@.contains_key(name@),
            },
    {
        let mut i: usize = self.entries.len();
        while i > 0
            invariant
                i <= self.entries@.len(),
                forall|j: int| i <= j < self.entries@.len() ==> self.entries@[j].0@ != name@,
            decreases i,
        {
            i = i - 1;
            if self.entries[i].0 == *name {
                proof {
                    lemma_pmap_found(self.entries@, i as int);
                }
                return Some(&self.entries[i].1);
            }
        }
        proof {
            lemma_pmap_absent(self.entries@, name@);
        }
        None
    }
}

// ------------------------------------------------------------------
// The cascade pipeline
// ------------------------------------------------------------------
/// The rules of the sheet that match the element, in source order,
/// each with the specificity of its first matching selector.
pub open spec fn matched_upto(e: ElementData, sheet: Seq<SpecRule>, n: int) -> Seq<
    ((int, int, int), int),
>
    decreases n,
{
    if n <= 0 {
        Seq::empty()
    } else {
        matched_upto(e, sheet, n - 1) + (match first_match(e, sheet[n - 1].selectors) {
            Some(sp) => seq![(sp, n - 1)],
            None => Seq::empty(),
        })
    }
}

pub open spec fn matched_list(e: ElementData, sheet: Seq<SpecRule>) -> Seq<((int, int, int), int)> {
    matched_upto(e, sheet, sheet.len() as int)
}

/// Insertion into a list sorted by ascending specificity, after all
/// entries of no larger specificity: the stable ascending sort order.
pub open spec fn insert_asc(sorted: Seq<((int, int, int), int)>, x: ((int, int, int), int)) -> Seq<
    ((int, int, int), int),
>
    decreases sorted.len(),
{
    if sorted.len() == 0 {
        seq![x]
    } else if spec_ge(x.0, sorted[0].0) {
        seq![sorted[0]] + insert_asc(sorted.drop_first(), x)
    } else {
        seq![x] + sorted
    }
}

/// Stable sort by ascending specificity.
pub open spec fn sort_asc(s: Seq<((int, int, int), int)>) -> Seq<((int, int, int), int)>
    decreases s.len(),
{
    if s.len() == 0 {
        Seq::empty()
    } else {
        insert_asc(sort_asc(s.drop_last()), s.last())
    }
}

/// Applying a declaration block to a map: later declarations
/// overwrite earlier ones.
pub open spec fn apply_decls(m: Map<Seq<char>, SpecValue>, ds: Seq<SpecDeclaration>) -> Map<
    Seq<char>,
    SpecValue,
>
    decreases ds.len(),
{
    if ds.len() == 0 {
        m
    } else {
        apply_decls(m, ds.drop_last()).insert(ds.last().name, ds.last().value)
    }
}

/// Applying the declaration blocks of the listed rules, in list
/// order.
pub open spec fn apply_rules(
    sheet: Seq<SpecRule>,
    sorted: Seq<((int, int, int), int)>,
    m: Map<Seq<char>, SpecValue>,
) -> Map<Seq<char>, SpecValue>
    decreases sorted.len(),
{
    if sorted.len() == 0 {
        m
    } else {
        apply_decls(
            apply_rules(sheet, sorted.drop_last(), m),
            sheet[sorted.last().1].declarations,
        )
    }
}

/// The cascade: the declarations of every matching rule, applied in
/// ascending order of specificity with source order breaking ties, so
/// that the highest specificity wins and, among equals, the rule
/// declared later.
pub open spec fn spec_specified(e: ElementData, sheet: Seq<SpecRule>) -> Map<Seq<char>, SpecValue> {
    apply_rules(sheet, sort_asc(matched_list(e, sheet)), Map::empty())
}

/// The views of a sequence of specificity-index pairs.
pub open spec fn pair_views(v: Seq<(Specificity, usize)>) -> Seq<((int, int, int), int)> {
    v.map_values(|x: (Specificity, usize)| (((x.0).0 as int, (x.0).1 as int, (x.0).2 as int), x.1 as int))
}

/// `insert_asc` places the element exactly at the first position
/// whose specificity is larger.
proof fn lemma_insert_asc_at(s: Seq<((int, int, int), int)>, x: ((int, int, int), int), k: int)
    requires
        0 <= k <= s.len(),
        forall|m: int| 0 <= m < k ==> spec_ge(x.0, (#[trigger] s[m]).0),
        k < s.len() ==> !spec_ge(x.0, s[k].0),
    ensures
        insert_asc(s, x) == s.insert(k, x),
    decreases s.len(),
{
    if s.len() == 0 {
        assert(insert_asc(s, x) =~= s.insert(0, x));
    } else if k == 0 {
        assert(seq![x] + s =~= s.insert(0, x));
    } else {
        lemma_insert_asc_at(s.drop_first(), x, k - 1);
        assert(seq![s[0]] + s.drop_first().insert(k - 1, x) =~= s.insert(k, x));
    }
}

/// A value copy whose view is the argument's.
fn clone_value(v: &Value) -> (r: Value)
    ensures
        r@ == v@,
{
    match v {
        Value::Keyword(s) => Value::Keyword(s.clone()),
        Value::Length(n, u) => Value::Length(*n, *u),
        Value::ColorValue(c) => Value::ColorValue(*c),
    }
}

/// Collects the matching rules with their match specificities, in
/// source order.
fn matching_rules(elem: &ElementData, stylesheet: &Stylesheet) -> (r: Vec<(Specificity, usize)>)
    ensures
        pair_views(r@) == matched_list(*elem, stylesheet@),
        forall|k: int| 0 <= k < r@.len() ==> (#[trigger] r@[k]).1 < stylesheet.rules@.len(),
{
    let mut matched: Vec<(Specificity, usize)> = Vec::new();
    let mut i: usize = 0;
    proof {
        assert(pair_views(matched@) =~= matched_upto(*elem, stylesheet@, 0));
    }
    while i < stylesheet.rules.len()
        invariant
            i <= stylesheet.rules@.len(),
            pair_views(matched@) == matched_upto(*elem, stylesheet@, i as int),
            forall|k: int| 0 <= k < matched@.len() ==> (#[trigger] matched@[k]).1 < i,
        decreases stylesheet.rules@.len() - i,
    {
        let ghost pre = matched@;
        proof {
            assert(stylesheet@[i as int] == stylesheet.rules@[i as int]@);
        }
        match match_rule(elem, &stylesheet.rules[i]) {
            Some(sp) => {
                matched.push((sp, i));
                proof {
                    assert(pair_views(matched@) =~= pair_views(pre).push(
                        ((sp.0 as int, sp.1 as int, sp.2 as int), i as int),
                    ));
                    assert(pair_views(pre) + seq![
                        ((sp.0 as int, sp.1 as int, sp.2 as int), i as int),
                    ] =~= pair_views(matched@));
                }
            },
            None => {
                proof {
                    assert(pair_views(matched@) + Seq::<((int, int, int), int)>::empty()
                        =~= pair_views(matched@));
                }
            },
        }
        i = i + 1;
    }
    matched
}

/// Stable insertion sort by ascending specificity.
#[verifier::loop_isolation(false)]
fn sort_matched_asc(v: Vec<(Specificity, usize)>) -> (r: Vec<(Specificity, usize)>)
    ensures
        pair_views(r@) == sort_asc(pair_views(v@)),
        forall|k: int| 0 <= k < r@.len() ==> v@.contains(#[trigger] r@[k]),
{
    let ghost orig = pair_views(v@);
    let mut out: Vec<(Specificity, usize)> = Vec::new();
    let mut i: usize = 0;
    proof {
        assert(pair_views(out@) =~= sort_asc(orig.subrange(0, 0)));
    }
    while i < v.len()
        invariant
            i <= v@.len(),
            pair_views(out@) == sort_asc(orig.subrange(0, i as int)),
            forall|k: int| 0 <= k < out@.len() ==> v@.contains(#[trigger] out@[k]),
        decreases v@.len() - i,
    {
        let x = v[i];
        let ghost xv = (((x.0).0 as int, (x.0).1 as int, (x.0).2 as int), x.1 as int);
        let ghost out_v = pair_views(out@);
        let mut k: usize = 0;
        while k < out.len() && specificity_ge(x.0, out[k].0)
            invariant
                k <= out@.len(),
                forall|m: int| 0 <= m < k ==> spec_ge(xv.0, (#[trigger] out_v[m]).0),
            decreases out@.len() - k,
        {
            k = k + 1;
        }
        proof {
            lemma_insert_asc_at(out_v, xv, k as int);
        }
        let ghost out_pre = out@;
        out.insert(k, x);
        i = i + 1;
        proof {
            assert(pair_views(out@) =~= out_v.insert(k as int, xv));
            assert(orig.subrange(0, i as int).drop_last() =~= orig.subrange(0, i - 1));
            assert(orig.subrange(0, i as int).last() == orig[i - 1]);
            assert(v@.contains(x)) by {
                assert(v@[i - 1] == x);
            }
            assert forall|m: int| 0 <= m < out@.len() implies v@.contains(#[trigger] out@[m]) by {
                if m < k {
                    assert(out@[m] == out_pre[m]);
                } else if m == k {
                    assert(out@[m] == x);
                } else {
                    assert(out@[m] == out_pre[m - 1]);
                }
            }
        }
    }
    proof {
        assert(orig.subrange(0, orig.len() as int) =~= orig);
    }
    out
}

/// The cascade's property map for an element: the declarations of
/// every matching rule, merged in ascending specificity order with
/// source order breaking ties.
#[verifier::loop_isolation(false)]
pub fn specified_values(elem: &ElementData, stylesheet: &Stylesheet) -> (r: PropertyMap)
    ensures
        r@ == spec_specified(*elem, stylesheet@),
{
    let mut values = PropertyMap::new();
    let matched = matching_rules(elem, stylesheet);
    let ghost matched_seq = matched@;
    let rules = sort_matched_asc(matched);
    let ghost sorted = pair_views(rules@);
    let ghost sheet = stylesheet@;
    let mut i: usize = 0;
    proof {
        assert(sorted.subrange(0, 0) =~= Seq::<((int, int, int), int)>::empty());
    }
    while i < rules.len()
        invariant
            i <= rules@.len(),
            values@ == apply_rules(sheet, sorted.subrange(0, i as int), Map::empty()),
        decreases rules@.len() - i,
    {
        let idx = rules[i].1;
        proof {
            assert(sorted[i as int].1 == idx as int);
            assert(matched_seq.contains(rules@[i as int]));
            let m = choose|m: int|
                0 <= m < matched_seq.len() && matched_seq[m] == rules@[i as int];
            assert(idx < stylesheet.rules@.len());
        }
        let rule = &stylesheet.rules[idx];
        let ghost outer = values@;
        let ghost decls = sheet[idx as int].declarations;
        let mut j: usize = 0;
        while j < rule.declarations.len()
            invariant
                j <= rule.declarations@.len(),
                decls == sheet[idx as int].declarations,
                idx < stylesheet.rules@.len(),
                rule == &stylesheet.rules@[idx as int],
                values@ == apply_decls(outer, decls.subrange(0, j as int)),
            decreases rule.declarations@.len() - j,
        {
            let declaration = &rule.declarations[j];
            values.insert(declaration.name.clone(), clone_value(&declaration.value));
            j = j + 1;
            proof {
                assert(decls.subrange(0, j as int).drop_last() =~= decls.subrange(0, j - 1));
                assert(decls.subrange(0, j as int).last() == decls[j - 1]);
                assert(decls[j - 1] == rule.declarations@[j - 1]@);
            }
        }
        i = i + 1;
        proof {
            assert(decls.subrange(0, decls.len() as int) =~= decls);
            assert(sorted.subrange(0, i as int).drop_last() =~= sorted.subrange(0, i - 1));
            assert(sorted.subrange(0, i as int).last() == sorted[i - 1]);
        }
    }
    proof {
        assert(sorted.subrange(0, sorted.len() as int) =~= sorted);
    }
    values
}

// ------------------------------------------------------------------
// Computed style
// ------------------------------------------------------------------
#[derive(Debug, Clone, Copy, PartialEq, Eq, Structural)]
pub enum Display {
    Inline,
    Block,
    DisplayNone,
}

/// The fixed computed-style projection. `font_size` is in thousandths
/// of a pixel.
#[derive(Debug, Clone, PartialEq)]
pub struct ComputedStyle {
    pub color: Option<Color>,
    pub background_color: Option<Color>,
    pub font_size: u64,
    pub display: Display,
}

/// The display mode: the `display` keyword `block` or `none`, anything
/// else inline.
pub open spec fn spec_get_display(m: Map<Seq<char>, SpecValue>) -> Display {
    let k = seq!['d', 'i', 's', 'p', 'l', 'a', 'y'];
    if m.contains_key(k) {
        match m[k] {
            SpecValue::Keyword(s) => {
                if s == seq!['b', 'l', 'o', 'c', 'k'] {
                    Display::Block
                } else if s == seq!['n', 'o', 'n', 'e'] {
                    Display::DisplayNone
                } else {
                    Display::Inline
                }
            },
            _ => Display::Inline,
        }
    } else {
        Display::Inline
    }
}

/// Point-to-pixel conversion in thousandths: multiplied by 1.33,
/// truncating, saturating at `u64::MAX`.
pub open spec fn pt_to_px(v: u64) -> u64 {
    if v * 133 / 100 > u64::MAX {
        u64::MAX
    } else {
        (v * 133 / 100) as u64
    }
}

/// The font size in thousandths of a pixel: a `px` length passes
/// through, a `pt` length is converted, anything else defaults to
/// 16 pixels.
pub open spec fn spec_font_size(m: Map<Seq<char>, SpecValue>) -> u64 {
    let k = seq!['f', 'o', 'n', 't', '-', 's', 'i', 'z', 'e'];
    if m.contains_key(k) {
        match m[k] {
            SpecValue::Length(v, u) => {
                if u is Px {
                    v
                } else if u is Pt {
                    pt_to_px(v)
                } else {
                    16000u64
                }
            },
            _ => 16000u64,
        }
    } else {
        16000u64
    }
}

/// The color bound to `k`, set only when the property holds a
/// color-typed value.
pub open spec fn spec_color_of(m: Map<Seq<char>, SpecValue>, k: Seq<char>) -> Option<Color> {
    if m.contains_key(k) {
        match m[k] {
            SpecValue::ColorValue(c) => Some(c),
            _ => None,
        }
    } else {
        None
    }
}

/// The computed style a property map denotes.
pub open spec fn spec_compute_style(m: Map<Seq<char>, SpecValue>) -> ComputedStyle {
    ComputedStyle {
        color: spec_color_of(m, seq!['c', 'o', 'l', 'o', 'r']),
        background_color: spec_color_of(
            m,
            seq!['b', 'a', 'c', 'k', 'g', 'r', 'o', 'u', 'n', 'd', '-', 'c', 'o', 'l', 'o', 'r'],
        ),
        font_size: spec_font_size(m),
        display: spec_get_display(m),
    }
}

/// Decides `spec_get_display`.
pub fn get_display(values: &PropertyMap) -> (r: Display)
    ensures
        r == spec_get_display(values@),
{
    proof {
        reveal_strlit("display");
        reveal_strlit("block");
        reveal_strlit("none");
        assert("display"@ =~= seq!['d', 'i', 's', 'p', 'l', 'a', 'y']);
        assert("block"@ =~= seq!['b', 'l', 'o', 'c', 'k']);
        assert("none"@ =~= seq!['n', 'o', 'n', 'e']);
    }
    let k = String::from_str("display");
    match values.get(&k) {
        Some(v) => match v {
            Value::Keyword(s) => {
                let b = String::from_str("block");
                let n = String::from_str("none");
                if *s == b {
                    Display::Block
                } else if *s == n {
                    Display::DisplayNone
                } else {
                    Display::Inline
                }
            },
            _ => Display::Inline,
        },
        None => Display::Inline,
    }
}

/// Decides `spec_compute_style`.
pub fn compute_style(values: &PropertyMap) -> (r: ComputedStyle)
    ensures
        r == spec_compute_style(values@),
{
    proof {
        reveal_strlit("color");
        reveal_strlit("background-color");
        reveal_strlit("font-size");
        assert("color"@ =~= seq!['c', 'o', 'l', 'o', 'r']);
        assert("background-color"@ =~= seq![
            'b', 'a', 'c', 'k', 'g', 'r', 'o', 'u', 'n', 'd', '-', 'c', 'o', 'l', 'o', 'r',
        ]);
        assert("font-size"@ =~= seq!['f', 'o', 'n', 't', '-', 's', 'i', 'z', 'e']);
    }
    let ck = String::from_str("color");
    let color = match values.get(&ck) {
        Some(Value::ColorValue(c)) => Some(*c),
        _ => None,
    };
    let bk = String::from_str("background-color");
    let background_color = match values.get(&bk) {
        Some(Value::ColorValue(c)) => Some(*c),
        _ => None,
    };
    let fk = String::from_str("font-size");
    let font_size = match values.get(&fk) {
        Some(Value::Length(v, Unit::Px)) => *v,
        Some(Value::Length(v, Unit::Pt)) => {
            let t = (*v as u128) * 133 / 100;
            if t > u64::MAX as u128 {
                u64::MAX
            } else {
                t as u64
            }
        },
        _ => 16000,
    };
    ComputedStyle { color, background_color, font_size, display: get_display(values) }
}

// ------------------------------------------------------------------
// What the cascade denotes: the winner characterization
// ------------------------------------------------------------------
/// Whether rule `i` of the sheet matches the element.
pub open spec fn rule_matched(e: ElementData, sheet: Seq<SpecRule>, i: int) -> bool {
    first_match(e, sheet[i].selectors) is Some
}

/// The specificity rule `i` matches with.
pub open spec fn match_specificity(e: ElementData, sheet: Seq<SpecRule>, i: int) -> (int, int, int) {
    match first_match(e, sheet[i].selectors) {
        Some(sp) => sp,
        None => (0int, 0int, 0int),
    }
}

/// Whether the rule declares the property.
pub open spec fn declares(r: SpecRule, p: Seq<char>) -> bool {
    exists|j: int| 0 <= j < r.declarations.len() && (#[trigger] r.declarations[j]).name == p
}

/// The value of the last declaration of `p` in the block, if any.
pub open spec fn last_decl(ds: Seq<SpecDeclaration>, p: Seq<char>) -> Option<SpecValue>
    decreases ds.len(),
{
    if ds.len() == 0 {
        None
    } else if ds.last().name == p {
        Some(ds.last().value)
    } else {
        last_decl(ds.drop_last(), p)
    }
}

/// Strictly greater specificity.
pub open spec fn spec_gt(a: (int, int, int), b: (int, int, int)) -> bool {
    spec_ge(a, b) && a != b
}

/// Rule `i` carries the winning declaration for `p` against the
/// element: it matches, declares `p`, and every other matching rule
/// declaring `p` either matches with strictly smaller specificity or
/// ties and stands earlier in the sheet.
pub open spec fn is_winner(e: ElementData, sheet: Seq<SpecRule>, p: Seq<char>, i: int) -> bool {
    &&& 0 <= i < sheet.len()
    &&& rule_matched(e, sheet, i)
    &&& declares(sheet[i], p)
    &&& forall|k: int|
        0 <= k < sheet.len() && k != i && rule_matched(e, sheet, k) && declares(
            #[trigger] sheet[k],
            p,
        ) ==> spec_gt(match_specificity(e, sheet, i), match_specificity(e, sheet, k)) || (
        match_specificity(e, sheet, i) == match_specificity(e, sheet, k) && k < i)
}

/// Strict order on (specificity, sheet index) pairs.
pub open spec fn lex_lt(a: ((int, int, int), int), b: ((int, int, int), int)) -> bool {
    spec_gt(b.0, a.0) || (a.0 == b.0 && a.1 < b.1)
}

pub open spec fn lex_sorted(v: Seq<((int, int, int), int)>) -> bool {
    forall|a: int, b: int| 0 <= a < b < v.len() ==> lex_lt(#[trigger] v[a], #[trigger] v[b])
}

proof fn lemma_insert_asc_props(v: Seq<((int, int, int), int)>, x: ((int, int, int), int))
    requires
        lex_sorted(v),
        forall|k: int| 0 <= k < v.len() ==> (#[trigger] v[k]).1 < x.1,
    ensures
        lex_sorted(insert_asc(v, x)),
        insert_asc(v, x).len() == v.len() + 1,
        forall|m: int|
            0 <= m < insert_asc(v, x).len() ==> (#[trigger] insert_asc(v, x)[m]) == x
                || v.contains(insert_asc(v, x)[m]),
        forall|k: int| 0 <= k < v.len() ==> insert_asc(v, x).contains(#[trigger] v[k]),
        insert_asc(v, x).contains(x),
    decreases v.len(),
{
    let ins = insert_asc(v, x);
    if v.len() == 0 {
        assert(ins[0] == x);
    } else if spec_ge(x.0, v[0].0) {
        let tail = v.drop_first();
        assert forall|a: int, b: int| 0 <= a < b < tail.len() implies lex_lt(
            #[trigger] tail[a],
            #[trigger] tail[b],
        ) by {
            assert(tail[a] == v[a + 1] && tail[b] == v[b + 1]);
        }
        lemma_insert_asc_props(tail, x);
        let rec = insert_asc(tail, x);
        assert(ins == seq![v[0]] + rec);
        assert forall|a: int, b: int| 0 <= a < b < ins.len() implies lex_lt(
            #[trigger] ins[a],
            #[trigger] ins[b],
        ) by {
            if a == 0 {
                assert(ins[b] == rec[b - 1]);
                if rec[b - 1] == x {
                    assert(lex_lt(v[0], x));
                } else {
                    let q = choose|q: int| 0 <= q < tail.len() && tail[q] == rec[b - 1];
                    assert(tail[q] == v[q + 1]);
                    assert(lex_lt(v[0], v[q + 1]));
                }
            } else {
                assert(ins[a] == rec[a - 1] && ins[b] == rec[b - 1]);
            }
        }
        assert forall|k: int| 0 <= k < v.len() implies ins.contains(#[trigger] v[k]) by {
            if k == 0 {
                assert(ins[0] == v[0]);
            } else {
                assert(tail[k - 1] == v[k]);
                assert(rec.contains(tail[k - 1]));
                let q = choose|q: int| 0 <= q < rec.len() && rec[q] == tail[k - 1];
                assert(ins[q + 1] == rec[q]);
            }
        }
        assert(ins.contains(x)) by {
            let q = choose|q: int| 0 <= q < rec.len() && rec[q] == x;
            assert(ins[q + 1] == rec[q]);
        }
        assert forall|m: int| 0 <= m < ins.len() implies (#[trigger] ins[m]) == x || v.contains(
            ins[m],
        ) by {
            if m == 0 {
                assert(v[0] == ins[0]);
            } else {
                assert(ins[m] == rec[m - 1]);
                if rec[m - 1] != x {
                    let q = choose|q: int| 0 <= q < tail.len() && tail[q] == rec[m - 1];
                    assert(v[q + 1] == tail[q]);
                }
            }
        }
    } else {
        assert(ins == seq![x] + v);
        assert forall|a: int, b: int| 0 <= a < b < ins.len() implies lex_lt(
            #[trigger] ins[a],
            #[trigger] ins[b],
        ) by {
            if a == 0 {
                assert(ins[b] == v[b - 1]);
                if b - 1 > 0 {
                    assert(lex_lt(v[0], v[b - 1]));
                }
                assert(lex_lt(x, v[b - 1]));
            } else {
                assert(ins[a] == v[a - 1] && ins[b] == v[b - 1]);
            }
        }
        assert forall|k: int| 0 <= k < v.len() implies ins.contains(#[trigger] v[k]) by {
            assert(ins[k + 1] == v[k]);
        }
        assert(ins[0] == x);
    }
}

/// What the stable ascending sort of the matched list holds: strictly
/// ordered pairs, each recording a matching rule with its match
/// specificity, one for every matching rule.
proof fn lemma_sort_matched_props(e: ElementData, sheet: Seq<SpecRule>, n: int)
    requires
        0 <= n <= sheet.len(),
    ensures
        lex_sorted(sort_asc(matched_upto(e, sheet, n))),
        forall|k: int|
            0 <= k < sort_asc(matched_upto(e, sheet, n)).len() ==> {
                let x = #[trigger] sort_asc(matched_upto(e, sheet, n))[k];
                0 <= x.1 < n && rule_matched(e, sheet, x.1) && x.0 == match_specificity(
                    e,
                    sheet,
                    x.1,
                )
            },
        forall|i: int|
            0 <= i < n && rule_matched(e, sheet, i) ==> sort_asc(
                matched_upto(e, sheet, n),
            ).contains((match_specificity(e, sheet, i), i)),
    decreases n,
{
    if n > 0 {
        lemma_sort_matched_props(e, sheet, n - 1);
        let prev = matched_upto(e, sheet, n - 1);
        let cur = matched_upto(e, sheet, n);
        let sp = sort_asc(prev);
        match first_match(e, sheet[n - 1].selectors) {
            Some(spv) => {
                let x = (spv, n - 1);
                assert(cur =~= prev.push(x));
                assert(cur.drop_last() =~= prev);
                assert(cur.last() == x);
                assert(sort_asc(cur) == insert_asc(sp, x));
                lemma_insert_asc_props(sp, x);
                let ins = insert_asc(sp, x);
                assert forall|k: int| 0 <= k < ins.len() implies {
                    let y = #[trigger] ins[k];
                    0 <= y.1 < n && rule_matched(e, sheet, y.1) && y.0 == match_specificity(
                        e,
                        sheet,
                        y.1,
                    )
                } by {
                    if ins[k] != x {
                        let q = choose|q: int| 0 <= q < sp.len() && sp[q] == ins[k];
                    }
                }
                assert forall|i: int| 0 <= i < n && rule_matched(e, sheet, i) implies ins.contains(
                    (match_specificity(e, sheet, i), i),
                ) by {
                    if i < n - 1 {
                        let y = (match_specificity(e, sheet, i), i);
                        assert(sp.contains(y));
                        let q = choose|q: int| 0 <= q < sp.len() && sp[q] == y;
                    } else {
                        assert((match_specificity(e, sheet, i), i) == x);
                    }
                }
            },
            None => {
                assert(cur =~= prev);
            },
        }
    } else {
        assert(matched_upto(e, sheet, 0) =~= Seq::<((int, int, int), int)>::empty());
    }
}

/// A declaration block declares `p` exactly when it has a last
/// declaration of `p`.
proof fn lemma_last_decl_some(ds: Seq<SpecDeclaration>, p: Seq<char>)
    ensures
        (last_decl(ds, p) is Some) == (exists|j: int|
            0 <= j < ds.len() && (#[trigger] ds[j]).name == p),
    decreases ds.len(),
{
    if ds.len() > 0 {
        lemma_last_decl_some(ds.drop_last(), p);
        if ds.last().name == p {
        } else {
            if exists|j: int| 0 <= j < ds.len() && (#[trigger] ds[j]).name == p {
                let j = choose|j: int| 0 <= j < ds.len() && (#[trigger] ds[j]).name == p;
                assert(ds.drop_last()[j] == ds[j]);
            }
            if exists|j: int| 0 <= j < ds.drop_last().len() && (#[trigger] ds.drop_last()[j]).name
                == p {
                let j = choose|j: int|
                    0 <= j < ds.drop_last().len() && (#[trigger] ds.drop_last()[j]).name == p;
                assert(ds[j] == ds.drop_last()[j]);
            }
        }
    }
}

/// Applying a block binds `p` to its last declaration of `p` and
/// leaves other names alone.
proof fn lemma_apply_decls(m: Map<Seq<char>, SpecValue>, ds: Seq<SpecDeclaration>, p: Seq<char>)
    ensures
        apply_decls(m, ds).contains_key(p) == (m.contains_key(p) || last_decl(ds, p) is Some),
        last_decl(ds, p) matches Some(v) ==> apply_decls(m, ds)[p] == v,
        last_decl(ds, p) is None && m.contains_key(p) ==> apply_decls(m, ds)[p] == m[p],
    decreases ds.len(),
{
    if ds.len() > 0 {
        lemma_apply_decls(m, ds.drop_last(), p);
    }
}

/// The position in the list of the last entry whose rule declares `p`.
pub open spec fn last_declaring(
    sheet: Seq<SpecRule>,
    v: Seq<((int, int, int), int)>,
    p: Seq<char>,
) -> Option<int>
    decreases v.len(),
{
    if v.len() == 0 {
        None
    } else if declares(sheet[v.last().1], p) {
        Some(v.len() - 1)
    } else {
        last_declaring(sheet, v.drop_last(), p)
    }
}

proof fn lemma_last_declaring(sheet: Seq<SpecRule>, v: Seq<((int, int, int), int)>, p: Seq<char>)
    ensures
        last_declaring(sheet, v, p) matches Some(k) ==> 0 <= k < v.len() && declares(
            sheet[v[k].1],
            p,
        ) && (forall|m: int| k < m < v.len() ==> !declares(sheet[(#[trigger] v[m]).1], p)),
        last_declaring(sheet, v, p) is None ==> forall|m: int|
            0 <= m < v.len() ==> !declares(sheet[(#[trigger] v[m]).1], p),
    decreases v.len(),
{
    if v.len() > 0 && !declares(sheet[v.last().1], p) {
        lemma_last_declaring(sheet, v.drop_last(), p);
        assert forall|m: int| 0 <= m < v.len() - 1 implies v.drop_last()[m] == v[m] by {}
    }
}

/// Applying the listed rules binds `p` by the last listed rule that
/// declares it.
proof fn lemma_apply_rules(
    sheet: Seq<SpecRule>,
    v: Seq<((int, int, int), int)>,
    m: Map<Seq<char>, SpecValue>,
    p: Seq<char>,
)
    ensures
        match last_declaring(sheet, v, p) {
            Some(k) => apply_rules(sheet, v, m).contains_key(p) && last_decl(
                sheet[v[k].1].declarations,
                p,
            ) == Some(apply_rules(sheet, v, m)[p]),
            None => apply_rules(sheet, v, m).contains_key(p) == m.contains_key(p) && (
            m.contains_key(p) ==> apply_rules(sheet, v, m)[p] == m[p]),
        },
    decreases v.len(),
{
    if v.len() > 0 {
        let ds = sheet[v.last().1].declarations;
        let inner = apply_rules(sheet, v.drop_last(), m);
        lemma_apply_rules(sheet, v.drop_last(), m, p);
        lemma_apply_decls(inner, ds, p);
        lemma_last_decl_some(ds, p);
        lemma_last_declaring(sheet, v.drop_last(), p);
        assert(v[v.len() - 1] == v.last());
        if declares(sheet[v.last().1], p) {
            assert(last_decl(ds, p) is Some);
            assert(last_declaring(sheet, v, p) == Some(v.len() - 1int));
        } else {
            assert(last_decl(ds, p) is None);
            assert(last_declaring(sheet, v, p) == last_declaring(sheet, v.drop_last(), p));
            match last_declaring(sheet, v.drop_last(), p) {
                Some(k) => {
                    assert(v.drop_last()[k] == v[k]);
                },
                None => {},
            }
        }
    }
}

/// The cascade's outcome, characterized: a property is bound exactly
/// when some matching rule declares it, and the winning rule's last
/// declaration of the property gives its value.
pub proof fn lemma_specified_characterized(e: ElementData, sheet: Seq<SpecRule>, p: Seq<char>)
    ensures
        spec_specified(e, sheet).contains_key(p) <==> exists|i: int|
            0 <= i < sheet.len() && rule_matched(e, sheet, i) && declares(#[trigger] sheet[i], p),
        forall|i: int|
            #[trigger] is_winner(e, sheet, p, i) ==> spec_specified(e, sheet).contains_key(p)
                && last_decl(sheet[i].declarations, p) == Some(spec_specified(e, sheet)[p]),
{
    let v = sort_asc(matched_list(e, sheet));
    lemma_sort_matched_props(e, sheet, sheet.len() as int);
    lemma_apply_rules(sheet, v, Map::empty(), p);
    lemma_last_declaring(sheet, v, p);
    let m = spec_specified(e, sheet);
    match last_declaring(sheet, v, p) {
        Some(k) => {
            let iw = v[k].1;
            assert(m.contains_key(p));
            assert(0 <= iw < sheet.len() && rule_matched(e, sheet, iw) && declares(
                sheet[iw],
                p,
            ));
            assert forall|i: int| #[trigger] is_winner(e, sheet, p, i) implies m.contains_key(p)
                && last_decl(sheet[i].declarations, p) == Some(m[p]) by {
                if i != iw {
                    assert(v.contains((match_specificity(e, sheet, i), i)));
                    let q = choose|q: int|
                        0 <= q < v.len() && v[q] == (match_specificity(e, sheet, i), i);
                    assert(q <= k) by {
                        if q > k {
                            assert(!declares(sheet[v[q].1], p));
                        }
                    }
                    assert(q != k) by {
                        if q == k {
                            assert(v[k].1 == i);
                        }
                    }
                    assert(lex_lt(v[q], v[k]));
                    assert(v[k].0 == match_specificity(e, sheet, iw));
                    assert(spec_gt(match_specificity(e, sheet, i), match_specificity(
                        e,
                        sheet,
                        iw,
                    )) || (match_specificity(e, sheet, i) == match_specificity(e, sheet, iw) && iw
                        < i));
                    assert(false);
                }
            }
        },
        None => {
            assert(!m.contains_key(p));
            assert forall|i: int|
                0 <= i < sheet.len() && rule_matched(e, sheet, i) && declares(
                    #[trigger] sheet[i],
                    p,
                ) implies false by {
                assert(v.contains((match_specificity(e, sheet, i), i)));
                let q = choose|q: int|
                    0 <= q < v.len() && v[q] == (match_specificity(e, sheet, i), i);
                assert(!declares(sheet[v[q].1], p));
            }
        },
    }
}

// ------------------------------------------------------------------
// Cascade laws
// ------------------------------------------------------------------
/// Among two matching rules of equal specificity that both set a
/// property, and with no other matching rule setting it, the rule
/// declared later in the stylesheet decides the property's value,
/// with its own last declaration of that property.
pub proof fn lemma_cascade_later_tie_wins(
    e: ElementData,
    sheet: Seq<SpecRule>,
    p: Seq<char>,
    i: int,
    j: int,
)
    requires
        0 <= i < j < sheet.len(),
        rule_matched(e, sheet, i),
        rule_matched(e, sheet, j),
        match_specificity(e, sheet, i) == match_specificity(e, sheet, j),
        declares(sheet[i], p),
        declares(sheet[j], p),
        forall|k: int|
            0 <= k < sheet.len() && rule_matched(e, sheet, k) && declares(#[trigger] sheet[k], p)
                ==> k == i || k == j,
    ensures
        spec_specified(e, sheet).contains_key(p),
        last_decl(sheet[j].declarations, p) == Some(spec_specified(e, sheet)[p]),
{
    assert(is_winner(e, sheet, p, j));
    lemma_specified_characterized(e, sheet, p);
}

/// A later, lower-specificity rule never overrides an earlier,
/// higher-specificity rule on the same property: with both matching
/// and setting the property, and no other matching rule setting it,
/// the earlier, more specific rule decides the value.
pub proof fn lemma_cascade_specificity_wins(
    e: ElementData,
    sheet: Seq<SpecRule>,
    p: Seq<char>,
    i: int,
    j: int,
)
    requires
        0 <= i < j < sheet.len(),
        rule_matched(e, sheet, i),
        rule_matched(e, sheet, j),
        spec_gt(match_specificity(e, sheet, i), match_specificity(e, sheet, j)),
        declares(sheet[i], p),
        declares(sheet[j], p),
        forall|k: int|
            0 <= k < sheet.len() && rule_matched(e, sheet, k) && declares(#[trigger] sheet[k], p)
                ==> k == i || k == j,
    ensures
        spec_specified(e, sheet).contains_key(p),
        last_decl(sheet[i].declarations, p) == Some(spec_specified(e, sheet)[p]),
{
    assert(is_winner(e, sheet, p, i));
    lemma_specified_characterized(e, sheet, p);
}

/// An element matching no rule computes to the default style: inline
/// display, 16-pixel font, no color and no background.
pub proof fn lemma_unmatched_defaults(e: ElementData, sheet: Seq<SpecRule>)
    requires
        forall|i: int| 0 <= i < sheet.len() ==> !rule_matched(e, sheet, i),
    ensures
        spec_compute_style(spec_specified(e, sheet)) == (ComputedStyle {
            color: None,
            background_color: None,
            font_size: 16000u64,
            display: Display::Inline,
        }),
{
    assert forall|p: Seq<char>| !spec_specified(e, sheet).contains_key(p) by {
        lemma_specified_characterized(e, sheet, p);
    }
}

} // verus!
