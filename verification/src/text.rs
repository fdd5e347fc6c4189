//! Character-level utilities shared by the HTML and CSS parsers:
//! conversion between strings and character vectors, character
//! classification, ASCII case folding and hexadecimal digits.
use vstd::prelude::*;

verus! {

/// The characters of a string, in order.
/// Relies on str::chars: it yields the string's characters in order,
/// so the collected vector's view equals the string's view.
#[verifier::external_body]
pub fn chars_vec(s: &str) -> (r: Vec<char>)
    ensures
        r@ == s@,
{
    s.chars().collect()
}

/// Relies on String::push: it appends exactly the given character
/// at the end of the string.
#[verifier::external_body]
pub fn push_char(s: &mut String, c: char)
    ensures
        final(s)@ == old(s)@.push(c),
{
    s.push(c)
}

/// Builds a string holding exactly the given characters.
pub fn string_of(v: &Vec<char>) -> (r: String)
    ensures
        r@ == v@,
{
    let mut s = String::new();
    let mut i: usize = 0;
    while i < v.len()
        invariant
            i <= v@.len(),
            s@ == v@.subrange(0, i as int),
        decreases v@.len() - i,
    {
        push_char(&mut s, v[i]);
        i = i + 1;
        assert(s@ =~= v@.subrange(0, i as int));
    }
    assert(s@ =~= v@);
    s
}

/// Whether the result of `char::is_alphanumeric` on a character;
/// tag names in HTML are runs of such characters.
pub uninterp spec fn alnum_char(c: char) -> bool;

/// Relies on char::is_alphanumeric: the result depends on the character
/// alone. ASCII letters and digits are alphanumeric; every other ASCII
/// character (punctuation, space, control) is not.
#[verifier::external_body]
pub fn alphanumeric(c: char) -> (r: bool)
    ensures
        r == alnum_char(c),
        ('a' <= c && c <= 'z') || ('A' <= c && c <= 'Z') || ('0' <= c && c <= '9') ==> r,
        c as u32 <= 0x7f && !(('a' <= c && c <= 'z') || ('A' <= c && c <= 'Z') || ('0' <= c
            && c <= '9')) ==> !r,
{
    c.is_alphanumeric()
}

/// A character with the Unicode `White_Space` property, written out.
pub open spec fn is_space(c: char) -> bool {
    let u = c as u32;
    (0x09 <= u && u <= 0x0d) || u == 0x20 || u == 0x85 || u == 0xa0 || u == 0x1680 || (0x2000 <= u
        && u <= 0x200a) || u == 0x2028 || u == 0x2029 || u == 0x202f || u == 0x205f || u == 0x3000
}

/// Decides `is_space`.
pub fn whitespace(c: char) -> (r: bool)
    ensures
        r == is_space(c),
{
    let u = c as u32;
    (0x09 <= u && u <= 0x0d) || u == 0x20 || u == 0x85 || u == 0xa0 || u == 0x1680 || (0x2000 <= u
        && u <= 0x200a) || u == 0x2028 || u == 0x2029 || u == 0x202f || u == 0x205f || u == 0x3000
}

/// A character allowed in a CSS identifier: ASCII letters, digits,
/// hyphen and underscore.
pub open spec fn is_ident_char(c: char) -> bool {
    ('a' <= c && c <= 'z') || ('A' <= c && c <= 'Z') || ('0' <= c && c <= '9') || c == '-' || c
        == '_'
}

/// Decides `is_ident_char`.
pub fn valid_identifier_char(c: char) -> (r: bool)
    ensures
        r == is_ident_char(c),
{
    ('a' <= c && c <= 'z') || ('A' <= c && c <= 'Z') || ('0' <= c && c <= '9') || c == '-' || c
        == '_'
}

/// A decimal digit.
pub open spec fn is_digit(c: char) -> bool {
    '0' <= c && c <= '9'
}

pub open spec fn digit_val(c: char) -> int {
    c as u32 - '0' as u32
}

/// A hexadecimal digit, either case.
pub open spec fn is_hex_digit(c: char) -> bool {
    ('0' <= c && c <= '9') || ('a' <= c && c <= 'f') || ('A' <= c && c <= 'F')
}

pub open spec fn hex_digit_val(c: char) -> int {
    if '0' <= c && c <= '9' {
        c as u32 - '0' as u32
    } else if 'a' <= c && c <= 'f' {
        c as u32 - 'a' as u32 + 10
    } else {
        c as u32 - 'A' as u32 + 10
    }
}

/// Decides `is_hex_digit` and returns the digit's value.
pub fn hex_digit(c: char) -> (r: Option<u8>)
    ensures
        r is Some <==> is_hex_digit(c),
        r matches Some(v) ==> v == hex_digit_val(c),
{
    if '0' <= c && c <= '9' {
        Some((c as u32 - '0' as u32) as u8)
    } else if 'a' <= c && c <= 'f' {
        Some((c as u32 - 'a' as u32 + 10) as u8)
    } else if 'A' <= c && c <= 'F' {
        Some((c as u32 - 'A' as u32 + 10) as u8)
    } else {
        None
    }
}

/// ASCII lower-casing of one character; other characters are unchanged.
pub open spec fn lower_char(c: char) -> char {
    if 'A' <= c && c <= 'Z' {
        ((c as u32) + 32) as char
    } else {
        c
    }
}

/// ASCII lower-casing of a character sequence.
pub open spec fn lower_seq(s: Seq<char>) -> Seq<char> {
    s.map_values(|c: char| lower_char(c))
}

/// Decides `lower_char`.
pub fn ascii_lower_char(c: char) -> (r: char)
    ensures
        r == lower_char(c),
{
    if 'A' <= c && c <= 'Z' {
        (((c as u8) + 32) as char)
    } else {
        c
    }
}

/// The entity replacement for one character in HTML text.
pub open spec fn escape_char(c: char) -> Seq<char> {
    if c == '&' {
        seq!['&', 'a', 'm', 'p', ';']
    } else if c == '<' {
        seq!['&', 'l', 't', ';']
    } else if c == '>' {
        seq!['&', 'g', 't', ';']
    } else if c == '"' {
        seq!['&', 'q', 'u', 'o', 't', ';']
    } else if c == '\'' {
        seq!['&', '#', '3', '9', ';']
    } else {
        seq![c]
    }
}

/// The string with every markup-significant character replaced by its
/// entity.
pub open spec fn escaped(s: Seq<char>) -> Seq<char>
    decreases s.len(),
{
    if s.len() == 0 {
        Seq::empty()
    } else {
        escaped(s.drop_last()) + escape_char(s.last())
    }
}

/// Escapes text for embedding in HTML markup.
#[verifier::loop_isolation(false)]
pub fn html_escape(s: &str) -> (r: String)
    ensures
        r@ == escaped(s@),
{
    let chars = chars_vec(s);
    let mut out: Vec<char> = Vec::new();
    let mut i: usize = 0;
    proof {
        assert(out@ =~= escaped(chars@.subrange(0, 0)));
    }
    while i < chars.len()
        invariant
            i <= chars@.len(),
            out@ == escaped(chars@.subrange(0, i as int)),
        decreases chars@.len() - i,
    {
        let ghost pre = out@;
        let c = chars[i];
        if c == '&' {
            out.push('&');
            out.push('a');
            out.push('m');
            out.push('p');
            out.push(';');
        } else if c == '<' {
            out.push('&');
            out.push('l');
            out.push('t');
            out.push(';');
        } else if c == '>' {
            out.push('&');
            out.push('g');
            out.push('t');
            out.push(';');
        } else if c == '"' {
            out.push('&');
            out.push('q');
            out.push('u');
            out.push('o');
            out.push('t');
            out.push(';');
        } else if c == '\'' {
            out.push('&');
            out.push('#');
            out.push('3');
            out.push('9');
            out.push(';');
        } else {
            out.push(c);
        }
        i = i + 1;
        proof {
            assert(chars@.subrange(0, i as int).drop_last() =~= chars@.subrange(0, i - 1));
            assert(chars@.subrange(0, i as int).last() == chars@[i - 1]);
            assert(out@ =~= pre + escape_char(chars@[i - 1]));
        }
    }
    proof {
        assert(chars@.subrange(0, chars@.len() as int) =~= chars@);
    }
    string_of(&out)
}

/// The first position at or after `p` where `pred` fails or the input ends.
pub open spec fn scan_while(s: Seq<char>, p: int, pred: spec_fn(char) -> bool) -> int
    decreases s.len() - p,
{
    if p < 0 || p >= s.len() {
        p
    } else if !pred(s[p]) {
        p
    } else {
        scan_while(s, p + 1, pred)
    }
}

/// `scan_while` never moves backwards.
pub broadcast proof fn lemma_scan_while_ge(s: Seq<char>, p: int, pred: spec_fn(char) -> bool)
    ensures
        p <= #[trigger] scan_while(s, p, pred),
    decreases s.len() - p,
{
    if 0 <= p < s.len() && pred(s[p]) {
        lemma_scan_while_ge(s, p + 1, pred);
    }
}

/// `scan_while` never runs past the end.
pub broadcast proof fn lemma_scan_while_le(s: Seq<char>, p: int, pred: spec_fn(char) -> bool)
    requires
        p <= s.len(),
    ensures
        #[trigger] scan_while(s, p, pred) <= s.len(),
    decreases s.len() - p,
{
    if 0 <= p < s.len() && pred(s[p]) {
        lemma_scan_while_le(s, p + 1, pred);
    }
}

/// `scan_while` stays within bounds, accepts everything it passed
/// over, and stops on a failing character or the end.
pub broadcast proof fn lemma_scan_while_props(s: Seq<char>, p: int, pred: spec_fn(char) -> bool)
    requires
        0 <= p <= s.len(),
    ensures
        p <= #[trigger] scan_while(s, p, pred) <= s.len(),
        forall|k: int| p <= k < scan_while(s, p, pred) ==> pred(s[k]),
        scan_while(s, p, pred) < s.len() ==> !pred(s[scan_while(s, p, pred)]),
    decreases s.len() - p,
{
    if p < s.len() && pred(s[p]) {
        lemma_scan_while_props(s, p + 1, pred);
    }
}

/// `scan_while` stops exactly at the first failing position.
pub proof fn lemma_scan_while_exact(s: Seq<char>, p: int, i: int, pred: spec_fn(char) -> bool)
    requires
        0 <= p <= i <= s.len(),
        forall|k: int| p <= k < i ==> pred(s[k]),
        i < s.len() ==> !pred(s[i]),
    ensures
        scan_while(s, p, pred) == i,
    decreases i - p,
{
    if p < i {
        lemma_scan_while_exact(s, p + 1, i, pred);
    }
}

/// The first position at or after `p` that holds no whitespace.
pub open spec fn ws_end(s: Seq<char>, p: int) -> int {
    scan_while(s, p, |c: char| is_space(c))
}

/// ASCII lower-casing of a character vector.
pub fn lower_chars(v: &Vec<char>) -> (r: Vec<char>)
    ensures
        r@ == lower_seq(v@),
{
    let mut lv: Vec<char> = Vec::new();
    let mut i: usize = 0;
    while i < v.len()
        invariant
            i <= v@.len(),
            lv@ == lower_seq(v@).subrange(0, i as int),
        decreases v@.len() - i,
    {
        lv.push(ascii_lower_char(v[i]));
        i = i + 1;
        proof {
            assert(lv@ =~= lower_seq(v@).subrange(0, i as int));
        }
    }
    proof {
        assert(lv@ =~= lower_seq(v@));
    }
    lv
}

/// Whether `pre` is a prefix of `s`.
pub open spec fn has_prefix(s: Seq<char>, pre: Seq<char>) -> bool {
    pre.len() <= s.len() && s.subrange(0, pre.len() as int) == pre
}

/// Decides `has_prefix`.
pub fn has_prefix_exec(v: &Vec<char>, pre: &Vec<char>) -> (r: bool)
    ensures
        r == has_prefix(v@, pre@),
{
    if pre.len() > v.len() {
        return false;
    }
    let mut i: usize = 0;
    while i < pre.len()
        invariant
            i <= pre@.len() <= v@.len(),
            forall|k: int| 0 <= k < i ==> v@[k] == pre@[k],
        decreases pre@.len() - i,
    {
        if v[i] != pre[i] {
            proof {
                assert(v@.subrange(0, pre@.len() as int)[i as int] != pre@[i as int]);
            }
            return false;
        }
        i = i + 1;
    }
    proof {
        assert(v@.subrange(0, pre@.len() as int) =~= pre@);
    }
    true
}

/// The index after the last character of `s` that is not whitespace,
/// or 0 when every character is.
pub open spec fn trim_end_idx(s: Seq<char>) -> int
    decreases s.len(),
{
    if s.len() == 0 {
        0
    } else if is_space(s.last()) {
        trim_end_idx(s.drop_last())
    } else {
        s.len() as int
    }
}

/// `s` with leading and trailing whitespace removed.
pub open spec fn trimmed(s: Seq<char>) -> Seq<char> {
    if ws_end(s, 0) >= trim_end_idx(s) {
        Seq::empty()
    } else {
        s.subrange(ws_end(s, 0), trim_end_idx(s))
    }
}

pub proof fn lemma_trim_end_idx(s: Seq<char>)
    ensures
        0 <= trim_end_idx(s) <= s.len(),
        forall|k: int| trim_end_idx(s) <= k < s.len() ==> is_space(s[k]),
        trim_end_idx(s) > 0 ==> !is_space(s[trim_end_idx(s) - 1]),
    decreases s.len(),
{
    if s.len() > 0 && is_space(s.last()) {
        lemma_trim_end_idx(s.drop_last());
        assert forall|k: int| trim_end_idx(s) <= k < s.len() implies is_space(s[k]) by {
            if k < s.len() - 1 {
                assert(is_space(s.drop_last()[k]));
            }
        }
    }
}

/// `v` with leading and trailing whitespace removed.
#[verifier::loop_isolation(false)]
pub fn trim_chars(v: &Vec<char>) -> (r: Vec<char>)
    ensures
        r@ == trimmed(v@),
{
    proof {
        broadcast use lemma_scan_while_props;

        lemma_trim_end_idx(v@);
    }
    let mut b: usize = 0;
    while b < v.len() && whitespace(v[b])
        invariant
            b <= v@.len(),
            ws_end(v@, 0) == ws_end(v@, b as int),
        decreases v@.len() - b,
    {
        b = b + 1;
    }
    proof {
        assert(ws_end(v@, b as int) == b as int);
    }
    let mut e: usize = v.len();
    while e > b && whitespace(v[e - 1])
        invariant
            b <= e <= v@.len(),
            forall|k: int| e <= k < v@.len() ==> is_space(v@[k]),
        decreases e,
    {
        e = e - 1;
    }
    let mut r: Vec<char> = Vec::new();
    let mut i: usize = b;
    while i < e
        invariant
            b <= i <= e <= v@.len(),
            r@ == v@.subrange(b as int, i as int),
        decreases e - i,
    {
        r.push(v[i]);
        i = i + 1;
        proof {
            assert(r@ =~= v@.subrange(b as int, i as int));
        }
    }
    proof {
        if e == b {
            assert(trim_end_idx(v@) <= b) by {
                if trim_end_idx(v@) > b {
                    assert(!is_space(v@[trim_end_idx(v@) - 1]));
                }
            }
            assert(r@ =~= trimmed(v@));
        } else {
            assert(!is_space(v@[e - 1]));
            assert(trim_end_idx(v@) == e) by {
                if trim_end_idx(v@) < e {
                    assert(is_space(v@[e - 1]));
                }
                if trim_end_idx(v@) > e {
                    assert(is_space(v@[trim_end_idx(v@) - 1]));
                }
            }
            assert(r@ =~= trimmed(v@));
        }
    }
    r
}

} // verus!
