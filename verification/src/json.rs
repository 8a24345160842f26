//! The store's file format: a pretty-printed JSON array of `{ "url", "title" }`
//! objects, two-space indented, with a trailing newline.
//!
//! The serializer is specified character by character by `ser_store`; the
//! parser is specified by the deterministic `sp_doc`, which accepts the
//! serialized form (and, more liberally, arbitrary whitespace between tokens,
//! escaped keys, and any order-preserving JSON string escapes of the forms
//! `\" \\ \/ \b \f \n \r \t` and `\u00XX`).

use vstd::prelude::*;

use crate::link::Link;
use crate::link::LinkV;
use crate::link::store_view;
use vstd::string::StrSliceExecFns;

verus! {

// ---------------------------------------------------------------------------
// Serializer specification
// ---------------------------------------------------------------------------

/// Lower-case hex digit for a value below 16.
pub open spec fn hexd(n: int) -> char {
    if n == 0 { '0' } else if n == 1 { '1' } else if n == 2 { '2' } else if n == 3 { '3' }
    else if n == 4 { '4' } else if n == 5 { '5' } else if n == 6 { '6' } else if n == 7 { '7' }
    else if n == 8 { '8' } else if n == 9 { '9' } else if n == 10 { 'a' } else if n == 11 { 'b' }
    else if n == 12 { 'c' } else if n == 13 { 'd' } else if n == 14 { 'e' } else { 'f' }
}

/// How one character is written inside a JSON string: quote and backslash are
/// escaped, the named control characters use their short escapes, the other
/// control characters use `\u00XX`, and everything else stands as itself.
pub open spec fn esc_char(c: char) -> Seq<char> {
    if c == '"' { seq!['\\', '"'] }
    else if c == '\\' { seq!['\\', '\\'] }
    else if c == '\u{8}' { seq!['\\', 'b'] }
    else if c == '\t' { seq!['\\', 't'] }
    else if c == '\n' { seq!['\\', 'n'] }
    else if c == '\u{c}' { seq!['\\', 'f'] }
    else if c == '\r' { seq!['\\', 'r'] }
    else if (c as u32) < 0x20 {
        seq!['\\', 'u', '0', '0', hexd((c as u32 / 16) as int), hexd((c as u32 % 16) as int)]
    }
    else { seq![c] }
}

/// The escaped body of a JSON string.
pub open spec fn esc(s: Seq<char>) -> Seq<char>
    decreases s.len(),
{
    if s.len() == 0 { Seq::empty() } else { esc_char(s[0]) + esc(s.drop_first()) }
}

/// A JSON string literal: the escaped body between quotes.
pub open spec fn ser_string(s: Seq<char>) -> Seq<char> {
    seq!['"'] + esc(s) + seq!['"']
}

/// The characters that open an object, up to the `url` value.
pub open spec fn obj_open() -> Seq<char> {
    seq!['\n', ' ', ' ', '{', '\n', ' ', ' ', ' ', ' ', '"', 'u', 'r', 'l', '"', ':', ' ']
}

/// The characters between the `url` value and the `title` value.
pub open spec fn obj_mid() -> Seq<char> {
    seq![',', '\n', ' ', ' ', ' ', ' ', '"', 't', 'i', 't', 'l', 'e', '"', ':', ' ']
}

/// The characters that close an object.
pub open spec fn obj_close() -> Seq<char> {
    seq!['\n', ' ', ' ', '}']
}

/// One serialized link object, including its leading newline and indent.
pub open spec fn ser_obj(l: LinkV) -> Seq<char> {
    obj_open() + ser_string(l.url) + obj_mid() + ser_string(l.title) + obj_close()
}

/// The serialized objects of a non-empty store, separated by commas.
pub open spec fn ser_items(ls: Seq<LinkV>) -> Seq<char>
    decreases ls.len(),
{
    if ls.len() == 0 { Seq::empty() }
    else if ls.len() == 1 { ser_obj(ls[0]) }
    else { ser_obj(ls[0]) + seq![','] + ser_items(ls.drop_first()) }
}

/// The full file content for a store: `[]` or the bracketed items, and the
/// trailing newline the file is written with.
pub open spec fn ser_store(ls: Seq<LinkV>) -> Seq<char> {
    if ls.len() == 0 { seq!['[', ']', '\n'] }
    else { seq!['['] + ser_items(ls) + seq!['\n', ']', '\n'] }
}

// ---------------------------------------------------------------------------
// Serializer
// ---------------------------------------------------------------------------

proof fn lemma_esc_append(a: Seq<char>, b: Seq<char>)
    ensures
        esc(a + b) == esc(a) + esc(b),
    decreases a.len(),
{
    if a.len() == 0 {
        assert(a + b =~= b);
        assert(esc(a) + esc(b) =~= esc(b));
    } else {
        assert((a + b).drop_first() =~= a.drop_first() + b);
        lemma_esc_append(a.drop_first(), b);
        assert((a + b)[0] == a[0]);
        assert(esc_char(a[0]) + (esc(a.drop_first()) + esc(b)) =~= (esc_char(a[0]) + esc(a.drop_first())) + esc(b));
    }
}

proof fn lemma_esc_one(c: char)
    ensures
        esc(seq![c]) == esc_char(c),
{
    assert(seq![c].drop_first() =~= Seq::<char>::empty());
    assert(esc(Seq::<char>::empty()) == Seq::<char>::empty());
    assert(seq![c][0] == c);
    assert(esc_char(c) + Seq::<char>::empty() =~= esc_char(c));
}

fn hexd_x(n: u8) -> (r: char)
    requires
        n < 16,
    ensures
        r == hexd(n as int),
{
    if n == 0 { '0' } else if n == 1 { '1' } else if n == 2 { '2' } else if n == 3 { '3' }
    else if n == 4 { '4' } else if n == 5 { '5' } else if n == 6 { '6' } else if n == 7 { '7' }
    else if n == 8 { '8' } else if n == 9 { '9' } else if n == 10 { 'a' } else if n == 11 { 'b' }
    else if n == 12 { 'c' } else if n == 13 { 'd' } else if n == 14 { 'e' } else { 'f' }
}

fn push_escaped_char(out: &mut Vec<char>, c: char)
    ensures
        final(out)@ == old(out)@ + esc_char(c),
{
    if c == '"' { out.push('\\'); out.push('"'); }
    else if c == '\\' { out.push('\\'); out.push('\\'); }
    else if c == '\u{8}' { out.push('\\'); out.push('b'); }
    else if c == '\t' { out.push('\\'); out.push('t'); }
    else if c == '\n' { out.push('\\'); out.push('n'); }
    else if c == '\u{c}' { out.push('\\'); out.push('f'); }
    else {
        let u = c as u32;
        if c == '\r' { out.push('\\'); out.push('r'); }
        else if u < 0x20 {
            out.push('\\'); out.push('u'); out.push('0'); out.push('0');
            out.push(hexd_x((u / 16) as u8));
            out.push(hexd_x((u % 16) as u8));
        } else {
            out.push(c);
        }
    }
    assert(out@ =~= old(out)@ + esc_char(c));
}

fn push_json_string(out: &mut Vec<char>, s: &str)
    ensures
        final(out)@ == old(out)@ + ser_string(s@),
{
    out.push('"');
    let n = s.unicode_len();
    let mut i: usize = 0;
    while i < n
        invariant
            n == s@.len(),
            i <= n,
            out@ == old(out)@ + seq!['"'] + esc(s@.subrange(0, i as int)),
        decreases n - i,
    {
        let c = s.get_char(i);
        push_escaped_char(out, c);
        proof {
            lemma_esc_append(s@.subrange(0, i as int), seq![s@[i as int]]);
            lemma_esc_one(s@[i as int]);
            assert(s@.subrange(0, (i + 1) as int) =~= s@.subrange(0, i as int) + seq![s@[i as int]]);
        }
        i += 1;
    }
    out.push('"');
    proof {
        assert(s@.subrange(0, n as int) =~= s@);
        assert(out@ =~= old(out)@ + ser_string(s@));
    }
}

fn push_lit(out: &mut Vec<char>, which: u8)
    requires
        which < 3,
    ensures
        final(out)@ == old(out)@ + (if which == 0 { obj_open() } else if which == 1 { obj_mid() } else { obj_close() }),
{
    if which == 0 {
        out.push('\n'); out.push(' '); out.push(' '); out.push('{');
        out.push('\n'); out.push(' '); out.push(' '); out.push(' '); out.push(' ');
        out.push('"'); out.push('u'); out.push('r'); out.push('l'); out.push('"');
        out.push(':'); out.push(' ');
        assert(out@ =~= old(out)@ + obj_open());
    } else if which == 1 {
        out.push(','); out.push('\n');
        out.push(' '); out.push(' '); out.push(' '); out.push(' ');
        out.push('"'); out.push('t'); out.push('i'); out.push('t'); out.push('l'); out.push('e'); out.push('"');
        out.push(':'); out.push(' ');
        assert(out@ =~= old(out)@ + obj_mid());
    } else {
        out.push('\n'); out.push(' '); out.push(' '); out.push('}');
        assert(out@ =~= old(out)@ + obj_close());
    }
}

fn push_obj(out: &mut Vec<char>, l: &Link)
    ensures
        final(out)@ == old(out)@ + ser_obj(l@),
{
    push_lit(out, 0);
    push_json_string(out, l.url.as_str());
    push_lit(out, 1);
    push_json_string(out, l.title.as_str());
    push_lit(out, 2);
    assert(out@ =~= old(out)@ + ser_obj(l@));
}

proof fn lemma_ser_items_push(ls: Seq<LinkV>, l: LinkV)
    requires
        ls.len() >= 1,
    ensures
        ser_items(ls.push(l)) == ser_items(ls) + seq![','] + ser_obj(l),
    decreases ls.len(),
{
    if ls.len() == 1 {
        let p = ls.push(l);
        assert(p.len() == 2);
        assert(p.drop_first() =~= seq![l]);
        assert(ser_items(seq![l]) == ser_obj(l));
        assert(ser_items(p) == ser_obj(ls[0]) + seq![','] + ser_obj(l));
    } else {
        let p = ls.push(l);
        assert(p.drop_first() =~= ls.drop_first().push(l));
        lemma_ser_items_push(ls.drop_first(), l);
        assert(ser_items(p) == ser_obj(ls[0]) + seq![','] + ser_items(ls.drop_first().push(l)));
        assert(ser_obj(ls[0]) + seq![','] + (ser_items(ls.drop_first()) + seq![','] + ser_obj(l))
            =~= (ser_obj(ls[0]) + seq![','] + ser_items(ls.drop_first())) + seq![','] + ser_obj(l));
    }
}

fn serialize_store_chars(links: &Vec<Link>) -> (r: Vec<char>)
    ensures
        r@ == ser_store(store_view(links@)),
{
    let ghost m = store_view(links@);
    let mut out: Vec<char> = Vec::new();
    out.push('[');
    if links.len() == 0 {
        out.push(']');
        out.push('\n');
        assert(out@ =~= ser_store(m));
        return out;
    }
    push_obj(&mut out, &links[0]);
    assert(m.take(1) =~= seq![m[0]]);
    assert(out@ =~= seq!['['] + ser_items(m.take(1)));
    let mut idx: usize = 1;
    while idx < links.len()
        invariant
            1 <= idx <= links@.len(),
            m == store_view(links@),
            m.len() == links@.len(),
            out@ == seq!['['] + ser_items(m.take(idx as int)),
        decreases links@.len() - idx,
    {
        out.push(',');
        push_obj(&mut out, &links[idx]);
        proof {
            lemma_ser_items_push(m.take(idx as int), m[idx as int]);
            assert(m.take(idx as int).push(m[idx as int]) =~= m.take(idx as int + 1));
            assert((seq!['['] + ser_items(m.take(idx as int))) + seq![','] + ser_obj(m[idx as int])
                =~= seq!['['] + (ser_items(m.take(idx as int)) + seq![','] + ser_obj(m[idx as int])));
        }
        idx += 1;
    }
    out.push('\n');
    out.push(']');
    out.push('\n');
    proof {
        assert(m.take(m.len() as int) =~= m);
        assert(out@ =~= ser_store(m));
    }
    out
}

/// Relies on `String: FromIterator<&char>`: collecting the characters of a
/// slice yields the string of exactly those characters, in order.
#[verifier::external_body]
fn string_from_chars(v: &Vec<char>) -> (r: String)
    ensures
        r@ == v@,
{
    v.iter().collect()
}

// ---------------------------------------------------------------------------
// Parser specification
// ---------------------------------------------------------------------------

/// JSON whitespace.
pub open spec fn is_ws(c: char) -> bool {
    c == ' ' || c == '\t' || c == '\n' || c == '\r'
}

/// Index of the first non-whitespace character at or after `i`.
pub open spec fn skip_ws(s: Seq<char>, i: int) -> int
    decreases s.len() - i,
    when 0 <= i <= s.len()
{
    if i < s.len() && is_ws(s[i]) { skip_ws(s, i + 1) } else { i }
}

/// A hexadecimal digit, either case.
pub open spec fn is_hexd(c: char) -> bool {
    (0x30 <= c as u32 && c as u32 <= 0x39)
    || (0x61 <= c as u32 && c as u32 <= 0x66)
    || (0x41 <= c as u32 && c as u32 <= 0x46)
}

/// Value of a hexadecimal digit.
pub open spec fn hexv(c: char) -> int {
    if 0x30 <= c as u32 && c as u32 <= 0x39 { c as u32 - 0x30 }
    else if 0x61 <= c as u32 && c as u32 <= 0x66 { c as u32 - 0x61 + 10 }
    else { c as u32 - 0x41 + 10 }
}

/// The character a code point below 0x100 stands for.
pub open spec fn low_char(v: int) -> char {
    (v as u8) as char
}

/// The character a short escape code stands for, if it is one.
pub open spec fn esc_code(c: char) -> Option<char> {
    if c == '"' { Some('"') }
    else if c == '\\' { Some('\\') }
    else if c == '/' { Some('/') }
    else if c == 'b' { Some('\u{8}') }
    else if c == 'f' { Some('\u{c}') }
    else if c == 'n' { Some('\n') }
    else if c == 'r' { Some('\r') }
    else if c == 't' { Some('\t') }
    else { None }
}

/// Parse of a JSON string body starting just after the opening quote:
/// the decoded characters and the index just after the closing quote.
/// Raw control characters and unknown escapes are refused; a `\u` escape
/// is accepted in the form `\u00XX`.
pub open spec fn sp_string_body(s: Seq<char>, i: int) -> Option<(Seq<char>, int)>
    decreases s.len() - i,
    when 0 <= i <= s.len()
{
    if i >= s.len() { None }
    else if s[i] == '"' { Some((Seq::empty(), i + 1)) }
    else if s[i] == '\\' {
        if i + 1 >= s.len() { None }
        else if esc_code(s[i + 1]) is Some {
            match sp_string_body(s, i + 2) {
                None => None,
                Some((rest, j)) => Some((seq![esc_code(s[i + 1])->0] + rest, j)),
            }
        } else if s[i + 1] == 'u' {
            if i + 6 <= s.len() && s[i + 2] == '0' && s[i + 3] == '0' && is_hexd(s[i + 4]) && is_hexd(s[i + 5]) {
                match sp_string_body(s, i + 6) {
                    None => None,
                    Some((rest, j)) => Some((seq![low_char(hexv(s[i + 4]) * 16 + hexv(s[i + 5]))] + rest, j)),
                }
            } else { None }
        } else { None }
    }
    else if (s[i] as u32) < 0x20 { None }
    else {
        match sp_string_body(s, i + 1) {
            None => None,
            Some((rest, j)) => Some((seq![s[i]] + rest, j)),
        }
    }
}

proof fn lemma_skip_ws_bounds(s: Seq<char>, i: int)
    requires
        0 <= i <= s.len(),
    ensures
        i <= skip_ws(s, i) <= s.len(),
    decreases s.len() - i,
{
    if i < s.len() && is_ws(s[i]) {
        lemma_skip_ws_bounds(s, i + 1);
    }
}

proof fn lemma_sp_string_body_bounds(s: Seq<char>, i: int)
    requires
        0 <= i <= s.len(),
        sp_string_body(s, i) is Some,
    ensures
        ({ let (c, j) = sp_string_body(s, i)->0; i < j <= s.len() }),
    decreases s.len() - i,
{
    if i >= s.len() { }
    else if s[i] == '"' { }
    else if s[i] == '\\' {
        if i + 1 < s.len() && esc_code(s[i + 1]) is Some {
            lemma_sp_string_body_bounds(s, i + 2);
        } else if i + 1 < s.len() && s[i + 1] == 'u' {
            lemma_sp_string_body_bounds(s, i + 6);
        }
    } else if (s[i] as u32) < 0x20 { }
    else {
        lemma_sp_string_body_bounds(s, i + 1);
    }
}

/// Parse of one object member `"key": "value"` starting at `i` (whitespace
/// allowed around the tokens): the decoded value and the index just after
/// its closing quote, provided the key decodes to `key`.
pub open spec fn sp_member(s: Seq<char>, i: int, key: Seq<char>) -> Option<(Seq<char>, int)> {
    let j0 = skip_ws(s, i);
    if j0 < s.len() && s[j0] == '"' {
        match sp_string_body(s, j0 + 1) {
            None => None,
            Some((k, j1)) => if k == key && 0 <= j1 <= s.len() {
                let j2 = skip_ws(s, j1);
                if j2 < s.len() && s[j2] == ':' {
                    let j3 = skip_ws(s, j2 + 1);
                    if j3 < s.len() && s[j3] == '"' {
                        sp_string_body(s, j3 + 1)
                    } else { None }
                } else { None }
            } else { None },
        }
    } else { None }
}

/// Parse of one link object starting at `i`: a `{` with a `url` member, a
/// comma, a `title` member and a `}`, whitespace allowed between tokens.
pub open spec fn sp_link(s: Seq<char>, i: int) -> Option<(LinkV, int)> {
    let j0 = skip_ws(s, i);
    if j0 < s.len() && s[j0] == '{' {
        match sp_member(s, j0 + 1, seq!['u', 'r', 'l']) {
            None => None,
            Some((url, j1)) => {
                let j2 = skip_ws(s, j1);
                if j2 < s.len() && s[j2] == ',' {
                    match sp_member(s, j2 + 1, seq!['t', 'i', 't', 'l', 'e']) {
                        None => None,
                        Some((title, j3)) => {
                            let j4 = skip_ws(s, j3);
                            if j4 < s.len() && s[j4] == '}' {
                                Some((LinkV { url, title }, j4 + 1))
                            } else { None }
                        },
                    }
                } else { None }
            },
        }
    } else { None }
}

proof fn lemma_sp_member_bounds(s: Seq<char>, i: int, key: Seq<char>)
    requires
        0 <= i <= s.len(),
        sp_member(s, i, key) is Some,
    ensures
        ({ let (v, j) = sp_member(s, i, key)->0; i < j <= s.len() }),
{
    lemma_skip_ws_bounds(s, i);
    let j0 = skip_ws(s, i);
    lemma_sp_string_body_bounds(s, j0 + 1);
    let (kk, j1) = sp_string_body(s, j0 + 1)->0;
    lemma_skip_ws_bounds(s, j1);
    let j2 = skip_ws(s, j1);
    lemma_skip_ws_bounds(s, j2 + 1);
    let j3 = skip_ws(s, j2 + 1);
    lemma_sp_string_body_bounds(s, j3 + 1);
}

proof fn lemma_sp_link_bounds(s: Seq<char>, i: int)
    requires
        0 <= i <= s.len(),
        sp_link(s, i) is Some,
    ensures
        ({ let (l, j) = sp_link(s, i)->0; i < j <= s.len() }),
{
    lemma_skip_ws_bounds(s, i);
    let j0 = skip_ws(s, i);
    lemma_sp_member_bounds(s, j0 + 1, seq!['u', 'r', 'l']);
    let (u, j1) = sp_member(s, j0 + 1, seq!['u', 'r', 'l'])->0;
    lemma_skip_ws_bounds(s, j1);
    let j2 = skip_ws(s, j1);
    lemma_sp_member_bounds(s, j2 + 1, seq!['t', 'i', 't', 'l', 'e']);
    let (t, j3) = sp_member(s, j2 + 1, seq!['t', 'i', 't', 'l', 'e'])->0;
    lemma_skip_ws_bounds(s, j3);
}

/// Parse of the rest of a non-empty array after one object: repeated
/// `, object` and a final `]`; the index returned is just after the `]`.
pub open spec fn sp_tail(s: Seq<char>, i: int) -> Option<(Seq<LinkV>, int)>
    decreases s.len() - i,
    when 0 <= i <= s.len()
    via sp_tail_dec
{
    let j = skip_ws(s, i);
    if j < s.len() && s[j] == ']' { Some((Seq::empty(), j + 1)) }
    else if j < s.len() && s[j] == ',' {
        match sp_link(s, j + 1) {
            None => None,
            Some((l, k)) => match sp_tail(s, k) {
                None => None,
                Some((ls, m)) => Some((seq![l] + ls, m)),
            },
        }
    } else { None }
}

#[via_fn]
proof fn sp_tail_dec(s: Seq<char>, i: int) {
    lemma_skip_ws_bounds(s, i);
    let j = skip_ws(s, i);
    if j < s.len() && !(s[j] == ']') && s[j] == ',' {
        if sp_link(s, j + 1) is Some {
            lemma_sp_link_bounds(s, j + 1);
        }
    }
}

/// Parse of a whole store file: a JSON array of link objects with nothing
/// but whitespace around it, or `None` where the text is not of that form.
pub open spec fn sp_doc(s: Seq<char>) -> Option<Seq<LinkV>> {
    let j = skip_ws(s, 0);
    if 0 <= j < s.len() && s[j] == '[' {
        let j1 = skip_ws(s, j + 1);
        if j1 < s.len() && s[j1] == ']' {
            if skip_ws(s, j1 + 1) == s.len() { Some(Seq::empty()) } else { None }
        } else {
            match sp_link(s, j + 1) {
                None => None,
                Some((l, k)) => match sp_tail(s, k) {
                    None => None,
                    Some((ls, m)) => {
                        if 0 <= m <= s.len() && skip_ws(s, m) == s.len() { Some(seq![l] + ls) } else { None }
                    },
                },
            }
        }
    } else { None }
}

proof fn lemma_low_char_cast(c: char)
    requires
        (c as u32) < 0x100,
    ensures
        low_char((c as u32) as int) == c,
{
    vstd::utf8::char_u32_cast(c, c as u32);
}

// ---------------------------------------------------------------------------
// Parser
// ---------------------------------------------------------------------------

fn is_ws_x(c: char) -> (r: bool)
    ensures
        r == is_ws(c),
{
    c == ' ' || c == '\t' || c == '\n' || c == '\r'
}

fn ws_end(s: &Vec<char>, i: usize) -> (r: usize)
    requires
        i <= s@.len(),
    ensures
        i <= r <= s@.len(),
        r as int == skip_ws(s@, i as int),
{
    let mut j: usize = i;
    while j < s.len() && is_ws_x(s[j])
        invariant
            i <= j <= s@.len(),
            skip_ws(s@, i as int) == skip_ws(s@, j as int),
        decreases s@.len() - j,
    {
        proof {
            assert(skip_ws(s@, j as int) == skip_ws(s@, j + 1));
        }
        j += 1;
    }
    j
}

fn esc_code_x(c: char) -> (r: Option<char>)
    ensures
        r == esc_code(c),
{
    if c == '"' { Some('"') }
    else if c == '\\' { Some('\\') }
    else if c == '/' { Some('/') }
    else if c == 'b' { Some('\u{8}') }
    else if c == 'f' { Some('\u{c}') }
    else if c == 'n' { Some('\n') }
    else if c == 'r' { Some('\r') }
    else if c == 't' { Some('\t') }
    else { None }
}

fn is_hexd_x(c: char) -> (r: bool)
    ensures
        r == is_hexd(c),
{
    let u = c as u32;
    (0x30 <= u && u <= 0x39) || (0x61 <= u && u <= 0x66) || (0x41 <= u && u <= 0x46)
}

fn hexv_x(c: char) -> (r: u8)
    requires
        is_hexd(c),
    ensures
        r as int == hexv(c),
        r < 16,
{
    let u = c as u32;
    if 0x30 <= u && u <= 0x39 { (u - 0x30) as u8 }
    else if 0x61 <= u && u <= 0x66 { (u - 0x61 + 10) as u8 }
    else { (u - 0x41 + 10) as u8 }
}

fn px_string_body(s: &Vec<char>, i: usize) -> (r: Option<(Vec<char>, usize)>)
    requires
        i <= s@.len(),
    ensures
        match r {
            Some(p) => sp_string_body(s@, i as int) == Some((p.0@, p.1 as int)) && i < p.1 <= s@.len(),
            None => sp_string_body(s@, i as int) is None,
        },
    decreases s@.len() - i,
{
    if i >= s.len() {
        return None;
    }
    let c0 = s[i];
    if c0 == '"' {
        let v: Vec<char> = Vec::new();
        assert(v@ =~= Seq::<char>::empty());
        return Some((v, i + 1));
    }
    if c0 == '\\' {
        if i + 1 >= s.len() {
            return None;
        }
        let c1 = s[i + 1];
        match esc_code_x(c1) {
            Some(d) => {
                match px_string_body(s, i + 2) {
                    None => None,
                    Some((rest, j)) => {
                        let ghost r0 = rest@;
                        let mut rest = rest;
                        rest.insert(0, d);
                        assert(rest@ =~= seq![esc_code(s@[i as int + 1])->0] + r0);
                        Some((rest, j))
                    },
                }
            },
            None => {
                if c1 == 'u' {
                    if s.len() - i >= 6 {
                        let c2 = s[i + 2];
                        let c3 = s[i + 3];
                        let c4 = s[i + 4];
                        let c5 = s[i + 5];
                        if c2 == '0' && c3 == '0' && is_hexd_x(c4) && is_hexd_x(c5) {
                            let hv: u8 = hexv_x(c4) * 16 + hexv_x(c5);
                            let d = hv as char;
                            assert(d == low_char(hexv(s@[i as int + 4]) * 16 + hexv(s@[i as int + 5])));
                            match px_string_body(s, i + 6) {
                                None => None,
                                Some((rest, j)) => {
                                    let ghost r0 = rest@;
                                    let mut rest = rest;
                                    rest.insert(0, d);
                                    assert(rest@ =~= seq![d] + r0);
                                    Some((rest, j))
                                },
                            }
                        } else {
                            None
                        }
                    } else {
                        None
                    }
                } else {
                    None
                }
            },
        }
    } else if (c0 as u32) < 0x20 {
        None
    } else {
        match px_string_body(s, i + 1) {
            None => None,
            Some((rest, j)) => {
                let ghost r0 = rest@;
                let mut rest = rest;
                rest.insert(0, c0);
                assert(rest@ =~= seq![s@[i as int]] + r0);
                Some((rest, j))
            },
        }
    }
}

/// The key a member is matched against.
pub open spec fn spec_key(url_key: bool) -> Seq<char> {
    if url_key { seq!['u', 'r', 'l'] } else { seq!['t', 'i', 't', 'l', 'e'] }
}

fn key_matches(k: &Vec<char>, url_key: bool) -> (r: bool)
    ensures
        r == (k@ == spec_key(url_key)),
{
    if url_key {
        if k.len() != 3 {
            assert(k@ != spec_key(true));
            false
        } else {
            let b = k[0] == 'u' && k[1] == 'r' && k[2] == 'l';
            proof {
                if b {
                    assert(k@ =~= spec_key(true));
                }
            }
            b
        }
    } else {
        if k.len() != 5 {
            assert(k@ != spec_key(false));
            false
        } else {
            let b = k[0] == 't' && k[1] == 'i' && k[2] == 't' && k[3] == 'l' && k[4] == 'e';
            proof {
                if b {
                    assert(k@ =~= spec_key(false));
                }
            }
            b
        }
    }
}

fn px_member(s: &Vec<char>, i: usize, url_key: bool) -> (r: Option<(Vec<char>, usize)>)
    requires
        i <= s@.len(),
    ensures
        match r {
            Some(p) => sp_member(s@, i as int, spec_key(url_key)) == Some((p.0@, p.1 as int)) && i < p.1 <= s@.len(),
            None => sp_member(s@, i as int, spec_key(url_key)) is None,
        },
{
    let j0 = ws_end(s, i);
    if j0 >= s.len() {
        return None;
    }
    if !(s[j0] == '"') {
        return None;
    }
    match px_string_body(s, j0 + 1) {
        None => None,
        Some((k, j1)) => {
            if !key_matches(&k, url_key) {
                return None;
            }
            let j2 = ws_end(s, j1);
            if j2 >= s.len() {
                return None;
            }
            if !(s[j2] == ':') {
                return None;
            }
            let j3 = ws_end(s, j2 + 1);
            if j3 >= s.len() {
                return None;
            }
            if !(s[j3] == '"') {
                return None;
            }
            px_string_body(s, j3 + 1)
        },
    }
}

fn px_link(s: &Vec<char>, i: usize) -> (r: Option<(Link, usize)>)
    requires
        i <= s@.len(),
    ensures
        match r {
            Some(p) => sp_link(s@, i as int) == Some((p.0@, p.1 as int)) && i < p.1 <= s@.len(),
            None => sp_link(s@, i as int) is None,
        },
{
    let j0 = ws_end(s, i);
    if j0 >= s.len() {
        return None;
    }
    if !(s[j0] == '{') {
        return None;
    }
    match px_member(s, j0 + 1, true) {
        None => None,
        Some((url, j1)) => {
            let j2 = ws_end(s, j1);
            if j2 >= s.len() {
                return None;
            }
            if !(s[j2] == ',') {
                return None;
            }
            match px_member(s, j2 + 1, false) {
                None => None,
                Some((title, j3)) => {
                    let j4 = ws_end(s, j3);
                    if j4 >= s.len() {
                        return None;
                    }
                    if !(s[j4] == '}') {
                        return None;
                    }
                    let l = Link { url: string_from_chars(&url), title: string_from_chars(&title) };
                    Some((l, j4 + 1))
                },
            }
        },
    }
}

fn px_tail(s: &Vec<char>, i: usize) -> (r: Option<(Vec<Link>, usize)>)
    requires
        i <= s@.len(),
    ensures
        match r {
            Some(p) => sp_tail(s@, i as int) == Some((store_view(p.0@), p.1 as int)) && i < p.1 <= s@.len(),
            None => sp_tail(s@, i as int) is None,
        },
    decreases s@.len() - i,
{
    let j = ws_end(s, i);
    if j >= s.len() {
        return None;
    }
    let cj = s[j];
    if cj == ']' {
        let v: Vec<Link> = Vec::new();
        proof {
            assert(store_view(v@) =~= Seq::<LinkV>::empty());
        }
        return Some((v, j + 1));
    }
    if !(cj == ',') {
        return None;
    }
    match px_link(s, j + 1) {
        None => None,
        Some((l, k)) => {
            match px_tail(s, k) {
                None => None,
                Some((rest, m)) => {
                    let ghost r0 = rest@;
                    let mut rest = rest;
                    rest.insert(0, l);
                    proof {
                        assert(store_view(rest@) =~= seq![l@] + store_view(r0));
                    }
                    Some((rest, m))
                },
            }
        },
    }
}

/// Parse of a whole store file held as its characters: exactly what `sp_doc`
/// accepts, or `None` where `sp_doc` refuses the text.
pub fn parse_store(s: &Vec<char>) -> (r: Option<Vec<Link>>)
    ensures
        match r {
            Some(v) => sp_doc(s@) == Some(store_view(v@)),
            None => sp_doc(s@) is None,
        },
{
    let j = ws_end(s, 0);
    if j >= s.len() {
        return None;
    }
    if !(s[j] == '[') {
        return None;
    }
    let j1 = ws_end(s, j + 1);
    if j1 < s.len() && s[j1] == ']' {
        let j2 = ws_end(s, j1 + 1);
        if j2 == s.len() {
            let v: Vec<Link> = Vec::new();
            proof {
                assert(store_view(v@) =~= Seq::<LinkV>::empty());
            }
            return Some(v);
        }
        return None;
    }
    match px_link(s, j + 1) {
        None => None,
        Some((l, k)) => {
            match px_tail(s, k) {
                None => None,
                Some((rest, m)) => {
                    let j2 = ws_end(s, m);
                    if j2 == s.len() {
                        let ghost r0 = rest@;
                        let mut rest = rest;
                        rest.insert(0, l);
                        proof {
                            assert(store_view(rest@) =~= seq![l@] + store_view(r0));
                        }
                        Some(rest)
                    } else {
                        None
                    }
                },
            }
        },
    }
}

// ---------------------------------------------------------------------------
// Round trip: the parser accepts exactly what the serializer wrote
// ---------------------------------------------------------------------------

proof fn lemma_split(s: Seq<char>, i: int, t: Seq<char>, rest: Seq<char>)
    requires
        0 <= i <= s.len(),
        s.subrange(i, s.len() as int) == t + rest,
    ensures
        i + t.len() + rest.len() == s.len(),
        s.subrange(i + t.len(), s.len() as int) == rest,
{
    assert(s.subrange(i, s.len() as int).len() == s.len() - i);
    assert((t + rest).len() == t.len() + rest.len());
    assert(s.subrange(i + t.len(), s.len() as int) =~= rest) by {
        assert forall|k: int| 0 <= k < rest.len() implies s[i + t.len() + k] == rest[k] by {
            assert(s.subrange(i, s.len() as int)[t.len() + k] == s[i + t.len() + k]);
        }
    }
}

proof fn lemma_index(s: Seq<char>, i: int, t: Seq<char>, rest: Seq<char>, k: int)
    requires
        0 <= i <= s.len(),
        s.subrange(i, s.len() as int) == t + rest,
        0 <= k < t.len(),
    ensures
        s[i + k] == t[k],
{
    assert(s.subrange(i, s.len() as int).len() == s.len() - i);
    assert((t + rest).len() == t.len() + rest.len());
    assert(s.subrange(i, s.len() as int)[k] == s[i + k]);
}

proof fn lemma_skip_ws_steps(s: Seq<char>, i: int, n: int)
    requires
        0 <= i,
        0 <= n,
        i + n <= s.len(),
        forall|k: int| 0 <= k < n ==> is_ws(#[trigger] s[i + k]),
        i + n == s.len() || !is_ws(s[i + n]),
    ensures
        skip_ws(s, i) == i + n,
    decreases n,
{
    if n == 0 {
    } else {
        assert(is_ws(s[i + 0]));
        assert forall|k: int| 0 <= k < n - 1 implies is_ws(#[trigger] s[(i + 1) + k]) by {
            assert(is_ws(s[i + (k + 1)]));
        }
        assert((i + 1) + (n - 1) == s.len() || !is_ws(s[(i + 1) + (n - 1)]));
        lemma_skip_ws_steps(s, i + 1, n - 1);
    }
}

/// A character the serializer writes as itself.
pub open spec fn plain(c: char) -> bool {
    c != '"' && c != '\\' && (c as u32) >= 0x20
}

proof fn lemma_esc_id(s: Seq<char>)
    requires
        forall|k: int| 0 <= k < s.len() ==> plain(#[trigger] s[k]),
    ensures
        esc(s) == s,
    decreases s.len(),
{
    if s.len() == 0 {
    } else {
        assert(plain(s[0]));
        assert(esc_char(s[0]) == seq![s[0]]);
        lemma_esc_id(s.drop_first());
        assert(seq![s[0]] + s.drop_first() =~= s);
    }
}

proof fn lemma_hexd_inv(n: int)
    requires
        0 <= n < 16,
    ensures
        is_hexd(hexd(n)),
        hexv(hexd(n)) == n,
{
}

#[verifier::rlimit(60)]
proof fn lemma_sp_string_ser(s: Seq<char>, i: int, content: Seq<char>, rest: Seq<char>)
    requires
        0 <= i <= s.len(),
        s.subrange(i, s.len() as int) == esc(content) + seq!['"'] + rest,
    ensures
        sp_string_body(s, i) == Some((content, i + esc(content).len() + 1)),
    decreases content.len(),
{
    if content.len() == 0 {
        assert(esc(content) + seq!['"'] + rest =~= seq!['"'] + rest);
        lemma_index(s, i, seq!['"'], rest, 0);
        assert(s[i] == '"');
    } else {
        let c = content[0];
        let tail = content.drop_first();
        let t = esc_char(c);
        let rest2 = esc(tail) + (seq!['"'] + rest);
        assert(esc(content) == t + esc(tail));
        assert(esc(content) + seq!['"'] + rest =~= t + rest2);
        lemma_split(s, i, t, rest2);
        assert(rest2 =~= esc(tail) + seq!['"'] + rest);
        assert(seq![c] + tail =~= content);
        if c == '"' || c == '\\' || c == '\u{8}' || c == '\t' || c == '\n' || c == '\u{c}' || c
            == '\r' {
            lemma_index(s, i, t, rest2, 0);
            lemma_index(s, i, t, rest2, 1);
            assert(s[i] == '\\');
            assert(esc_code(s[i + 1]) == Some(c));
            lemma_sp_string_ser(s, i + 2, tail, rest);
        } else if (c as u32) < 0x20 {
            let v = (c as u32) as int;
            let hi = v / 16;
            let lo = v % 16;
            assert(t == seq!['\\', 'u', '0', '0', hexd(hi), hexd(lo)]);
            lemma_index(s, i, t, rest2, 0);
            lemma_index(s, i, t, rest2, 1);
            lemma_index(s, i, t, rest2, 2);
            lemma_index(s, i, t, rest2, 3);
            lemma_index(s, i, t, rest2, 4);
            lemma_index(s, i, t, rest2, 5);
            assert(s[i] == '\\' && s[i + 1] == 'u' && s[i + 2] == '0' && s[i + 3] == '0');
            assert(s[i + 4] == hexd(hi) && s[i + 5] == hexd(lo));
            assert(0 <= hi < 16 && 0 <= lo < 16) by (nonlinear_arith)
                requires hi == v / 16, lo == v % 16, 0 <= v < 0x20;
            lemma_hexd_inv(hi);
            lemma_hexd_inv(lo);
            assert(esc_code('u') is None);
            assert(hexv(s[i + 4]) * 16 + hexv(s[i + 5]) == hi * 16 + lo);
            assert(hi * 16 + lo == v) by (nonlinear_arith)
                requires hi == v / 16, lo == v % 16, 0 <= v < 0x20;
            lemma_low_char_cast(c);
            lemma_sp_string_ser(s, i + 6, tail, rest);
        } else {
            assert(t == seq![c]);
            lemma_index(s, i, t, rest2, 0);
            assert(s[i] == c);
            assert(plain(c));
            lemma_sp_string_ser(s, i + 1, tail, rest);
        }
    }
}

#[verifier::rlimit(60)]
proof fn lemma_sp_member_ser(s: Seq<char>, i: int, key: Seq<char>, val: Seq<char>, rest: Seq<char>)
    requires
        0 <= i <= s.len(),
        forall|k: int| 0 <= k < key.len() ==> plain(#[trigger] key[k]),
        key.len() > 0,
        s.subrange(i, s.len() as int) == seq!['\n', ' ', ' ', ' ', ' ', '"'] + key
            + seq!['"', ':', ' ', '"'] + esc(val) + seq!['"'] + rest,
    ensures
        sp_member(s, i, key) == Some((val, i + 11 + key.len() + esc(val).len())),
{
    let kl = key.len() as int;
    let pre = seq!['\n', ' ', ' ', ' ', ' ', '"'];
    let mid = seq!['"', ':', ' ', '"'];
    let r1 = key + (mid + (esc(val) + (seq!['"'] + rest)));
    assert(pre + key + mid + esc(val) + seq!['"'] + rest =~= pre + r1);
    lemma_index(s, i, pre, r1, 0);
    lemma_index(s, i, pre, r1, 1);
    lemma_index(s, i, pre, r1, 2);
    lemma_index(s, i, pre, r1, 3);
    lemma_index(s, i, pre, r1, 4);
    lemma_index(s, i, pre, r1, 5);
    assert forall|k: int| 0 <= k < 5 implies is_ws(#[trigger] s[i + k]) by {}
    lemma_skip_ws_steps(s, i, 5);
    assert(s[i + 5] == '"');
    lemma_split(s, i, pre, r1);
    assert(s.subrange(i + 6, s.len() as int) == r1);
    assert(esc(key) == key) by { lemma_esc_id(key); }
    assert(r1 =~= esc(key) + seq!['"'] + (seq![':', ' ', '"'] + (esc(val) + (seq!['"'] + rest))));
    lemma_sp_string_ser(s, i + 6, key, seq![':', ' ', '"'] + (esc(val) + (seq!['"'] + rest)));
    assert(sp_string_body(s, i + 6) == Some((key, i + 6 + kl + 1)));
    let j1 = i + 7 + kl;
    assert(r1 =~= (key + seq!['"']) + (seq![':', ' ', '"'] + (esc(val) + (seq!['"'] + rest))));
    lemma_split(s, i + 6, key + seq!['"'], seq![':', ' ', '"'] + (esc(val) + (seq!['"'] + rest)));
    assert(s.subrange(j1, s.len() as int) == seq![':', ' ', '"'] + (esc(val) + (seq!['"'] + rest)));
    lemma_index(s, j1, seq![':', ' ', '"'], esc(val) + (seq!['"'] + rest), 0);
    lemma_index(s, j1, seq![':', ' ', '"'], esc(val) + (seq!['"'] + rest), 1);
    lemma_index(s, j1, seq![':', ' ', '"'], esc(val) + (seq!['"'] + rest), 2);
    assert(s[j1] == ':');
    lemma_skip_ws_steps(s, j1, 0);
    assert forall|k: int| 0 <= k < 1 implies is_ws(#[trigger] s[(j1 + 1) + k]) by {
        assert(s[j1 + 1] == ' ');
    }
    lemma_skip_ws_steps(s, j1 + 1, 1);
    assert(s[j1 + 2] == '"');
    lemma_split(s, j1, seq![':', ' ', '"'], esc(val) + (seq!['"'] + rest));
    assert(s.subrange(j1 + 3, s.len() as int) == esc(val) + (seq!['"'] + rest));
    assert(esc(val) + (seq!['"'] + rest) =~= esc(val) + seq!['"'] + rest);
    lemma_sp_string_ser(s, j1 + 3, val, rest);
    assert(sp_member(s, i, key) == Some((val, j1 + 3 + esc(val).len() + 1)));
}

#[verifier::rlimit(100)]
proof fn lemma_sp_link_ser(s: Seq<char>, i: int, l: LinkV, rest: Seq<char>)
    requires
        0 <= i <= s.len(),
        s.subrange(i, s.len() as int) == ser_obj(l) + rest,
    ensures
        sp_link(s, i) == Some((l, i + ser_obj(l).len())),
{
    let ku = seq!['u', 'r', 'l'];
    let kt = seq!['t', 'i', 't', 'l', 'e'];
    let head = seq!['\n', ' ', ' ', '{'];
    let m_url = seq!['\n', ' ', ' ', ' ', ' ', '"'] + ku + seq!['"', ':', ' ', '"'] + esc(l.url)
        + seq!['"'];
    let m_title = seq!['\n', ' ', ' ', ' ', ' ', '"'] + kt + seq!['"', ':', ' ', '"']
        + esc(l.title) + seq!['"'];
    let close = seq!['\n', ' ', ' ', '}'];
    let r_head = m_url + (seq![','] + (m_title + (close + rest)));
    assert(ser_obj(l) + rest =~= head + r_head);
    lemma_index(s, i, head, r_head, 0);
    lemma_index(s, i, head, r_head, 1);
    lemma_index(s, i, head, r_head, 2);
    lemma_index(s, i, head, r_head, 3);
    assert forall|k: int| 0 <= k < 3 implies is_ws(#[trigger] s[i + k]) by {}
    lemma_skip_ws_steps(s, i, 3);
    assert(s[i + 3] == '{');
    lemma_split(s, i, head, r_head);
    let i4 = i + 4;
    assert(s.subrange(i4, s.len() as int) == r_head);
    let r_url = seq![','] + (m_title + (close + rest));
    assert(r_head =~= seq!['\n', ' ', ' ', ' ', ' ', '"'] + ku + seq!['"', ':', ' ', '"']
        + esc(l.url) + seq!['"'] + r_url);
    assert(forall|k: int| 0 <= k < ku.len() ==> plain(#[trigger] ku[k]));
    lemma_sp_member_ser(s, i4, ku, l.url, r_url);
    let p1 = i4 + 11 + 3 + esc(l.url).len() as int;
    assert(sp_member(s, i4, ku) == Some((l.url, p1)));
    assert(r_head =~= m_url + r_url);
    lemma_split(s, i4, m_url, r_url);
    assert(i4 + m_url.len() == p1);
    assert(s.subrange(p1, s.len() as int) == r_url);
    let r_comma = m_title + (close + rest);
    lemma_index(s, p1, seq![','], r_comma, 0);
    assert(s[p1] == ',');
    lemma_skip_ws_steps(s, p1, 0);
    lemma_split(s, p1, seq![','], r_comma);
    assert(s.subrange(p1 + 1, s.len() as int) == r_comma);
    assert(r_comma =~= seq!['\n', ' ', ' ', ' ', ' ', '"'] + kt + seq!['"', ':', ' ', '"']
        + esc(l.title) + seq!['"'] + (close + rest));
    assert(forall|k: int| 0 <= k < kt.len() ==> plain(#[trigger] kt[k]));
    lemma_sp_member_ser(s, p1 + 1, kt, l.title, close + rest);
    let p2 = p1 + 1 + 11 + 5 + esc(l.title).len() as int;
    assert(sp_member(s, p1 + 1, kt) == Some((l.title, p2)));
    assert(r_comma =~= m_title + (close + rest));
    lemma_split(s, p1 + 1, m_title, close + rest);
    assert(p1 + 1 + m_title.len() == p2);
    assert(s.subrange(p2, s.len() as int) == close + rest);
    lemma_index(s, p2, close, rest, 0);
    lemma_index(s, p2, close, rest, 1);
    lemma_index(s, p2, close, rest, 2);
    lemma_index(s, p2, close, rest, 3);
    assert forall|k: int| 0 <= k < 3 implies is_ws(#[trigger] s[p2 + k]) by {}
    lemma_skip_ws_steps(s, p2, 3);
    assert(s[p2 + 3] == '}');
    assert(sp_link(s, i) == Some((LinkV { url: l.url, title: l.title }, p2 + 4)));
    assert((LinkV { url: l.url, title: l.title }) == l);
    assert(p2 + 4 == i + ser_obj(l).len());
}

/// The serialized objects after the first, each preceded by its comma.
pub open spec fn ser_more(ls: Seq<LinkV>) -> Seq<char>
    decreases ls.len(),
{
    if ls.len() == 0 { Seq::empty() }
    else { seq![','] + ser_obj(ls[0]) + ser_more(ls.drop_first()) }
}

proof fn lemma_ser_items_decomp(ls: Seq<LinkV>)
    requires
        ls.len() >= 1,
    ensures
        ser_items(ls) == ser_obj(ls[0]) + ser_more(ls.drop_first()),
    decreases ls.len(),
{
    if ls.len() == 1 {
        assert(ser_more(ls.drop_first()) == Seq::<char>::empty());
        assert(ser_obj(ls[0]) + Seq::<char>::empty() =~= ser_obj(ls[0]));
    } else {
        lemma_ser_items_decomp(ls.drop_first());
        assert(ser_obj(ls[0]) + seq![','] + (ser_obj(ls.drop_first()[0]) + ser_more(
            ls.drop_first().drop_first())) =~= ser_obj(ls[0]) + (seq![','] + ser_obj(
            ls.drop_first()[0]) + ser_more(ls.drop_first().drop_first())));
    }
}

#[verifier::rlimit(60)]
proof fn lemma_sp_tail_ser(s: Seq<char>, i: int, ls: Seq<LinkV>, rest: Seq<char>)
    requires
        0 <= i <= s.len(),
        s.subrange(i, s.len() as int) == ser_more(ls) + seq!['\n', ']'] + rest,
    ensures
        sp_tail(s, i) == Some((ls, i + ser_more(ls).len() + 2)),
    decreases ls.len(),
{
    if ls.len() == 0 {
        assert(ser_more(ls) + seq!['\n', ']'] + rest =~= seq!['\n', ']'] + rest);
        lemma_index(s, i, seq!['\n', ']'], rest, 0);
        lemma_index(s, i, seq!['\n', ']'], rest, 1);
        assert forall|k: int| 0 <= k < 1 implies is_ws(#[trigger] s[i + k]) by {
            assert(s[i + 0] == '\n');
        }
        lemma_skip_ws_steps(s, i, 1);
        assert(s[i + 1] == ']');
    } else {
        let tail = ls.drop_first();
        let r2 = ser_more(tail) + (seq!['\n', ']'] + rest);
        assert(ser_more(ls) == seq![','] + ser_obj(ls[0]) + ser_more(tail));
        assert(ser_more(ls) + seq!['\n', ']'] + rest =~= seq![','] + (ser_obj(ls[0]) + r2));
        lemma_index(s, i, seq![','], ser_obj(ls[0]) + r2, 0);
        assert(s[i] == ',');
        lemma_skip_ws_steps(s, i, 0);
        lemma_split(s, i, seq![','], ser_obj(ls[0]) + r2);
        assert(s.subrange(i + 1, s.len() as int) == ser_obj(ls[0]) + r2);
        lemma_sp_link_ser(s, i + 1, ls[0], r2);
        let k = i + 1 + ser_obj(ls[0]).len() as int;
        lemma_split(s, i + 1, ser_obj(ls[0]), r2);
        assert(s.subrange(k, s.len() as int) =~= ser_more(tail) + seq!['\n', ']'] + rest);
        lemma_sp_tail_ser(s, k, tail, rest);
        assert(seq![ls[0]] + tail =~= ls);
        assert(i + 1 + ser_obj(ls[0]).len() + ser_more(tail).len() + 2 == i + ser_more(ls).len()
            + 2);
    }
}

/// Round trip: the parser returns, of what the serializer wrote for any
/// store, exactly that store.
#[verifier::rlimit(100)]
pub proof fn lemma_store_round_trip(m: Seq<LinkV>)
    ensures
        sp_doc(ser_store(m)) == Some(m),
{
    let s = ser_store(m);
    if m.len() == 0 {
        assert(s == seq!['[', ']', '\n']);
        assert(s.len() == 3 && s[0] == '[' && s[1] == ']' && s[2] == '\n');
        lemma_skip_ws_steps(s, 0, 0);
        lemma_skip_ws_steps(s, 1, 0);
        assert forall|k: int| 0 <= k < 1 implies is_ws(#[trigger] s[2int + k]) by {
            assert(s[2int + 0] == '\n');
        }
        lemma_skip_ws_steps(s, 2int, 1);
        assert(sp_doc(s) == Some(Seq::<LinkV>::empty()));
        assert(Seq::<LinkV>::empty() =~= m);
    } else {
        lemma_ser_items_decomp(m);
        let tail = m.drop_first();
        let r_first = ser_obj(m[0]) + (ser_more(tail) + (seq!['\n', ']'] + seq!['\n']));
        assert(s =~= seq!['['] + r_first);
        assert(s.subrange(0, s.len() as int) =~= s);
        lemma_index(s, 0, seq!['['], r_first, 0);
        assert(s[0] == '[');
        lemma_skip_ws_steps(s, 0, 0);
        lemma_split(s, 0, seq!['['], r_first);
        assert(s.subrange(1, s.len() as int) == r_first);
        lemma_sp_link_ser(s, 1, m[0], ser_more(tail) + (seq!['\n', ']'] + seq!['\n']));
        let k = 1 + ser_obj(m[0]).len() as int;
        assert(sp_link(s, 1) == Some((m[0], k)));
        lemma_split(s, 1, ser_obj(m[0]), ser_more(tail) + (seq!['\n', ']'] + seq!['\n']));
        assert(s.subrange(k, s.len() as int) =~= ser_more(tail) + seq!['\n', ']'] + seq!['\n']);
        lemma_sp_tail_ser(s, k, tail, seq!['\n']);
        let fin = k + ser_more(tail).len() + 2;
        assert(sp_tail(s, k) == Some((tail, fin)));
        assert(ser_more(tail) + seq!['\n', ']'] + seq!['\n'] =~= (ser_more(tail)
            + seq!['\n', ']']) + seq!['\n']);
        lemma_split(s, k, ser_more(tail) + seq!['\n', ']'], seq!['\n']);
        assert(s.subrange(fin, s.len() as int) == seq!['\n']);
        lemma_index(s, fin, seq!['\n'], Seq::<char>::empty(), 0);
        assert(s[fin] == '\n');
        assert(fin + 1 == s.len());
        assert forall|k2: int| 0 <= k2 < 1 implies is_ws(#[trigger] s[fin + k2]) by {
            assert(s[fin + 0] == '\n');
        }
        lemma_skip_ws_steps(s, fin, 1);
        // the first object begins with a newline and an indent, so what
        // follows the bracket is not a closing bracket
        lemma_index(s, 1, ser_obj(m[0]), ser_more(tail) + (seq!['\n', ']'] + seq!['\n']), 0);
        lemma_index(s, 1, ser_obj(m[0]), ser_more(tail) + (seq!['\n', ']'] + seq!['\n']), 1);
        lemma_index(s, 1, ser_obj(m[0]), ser_more(tail) + (seq!['\n', ']'] + seq!['\n']), 2);
        lemma_index(s, 1, ser_obj(m[0]), ser_more(tail) + (seq!['\n', ']'] + seq!['\n']), 3);
        assert(ser_obj(m[0])[0] == '\n' && ser_obj(m[0])[1] == ' ' && ser_obj(m[0])[2] == ' '
            && ser_obj(m[0])[3] == '{');
        assert(s[1] == '\n' && s[2] == ' ' && s[3] == ' ' && s[4] == '{');
        assert forall|k2: int| 0 <= k2 < 3 implies is_ws(#[trigger] s[1 + k2]) by {}
        lemma_skip_ws_steps(s, 1, 3);
        assert(skip_ws(s, 1) == 4 && s[4] != ']');
        assert(seq![m[0]] + tail =~= m);
        assert(sp_doc(s) == Some(m));
    }
}


/// The full file content for a store, as `save` writes it: pretty-printed
/// JSON with a trailing newline, exactly `ser_store` of the store's view.
pub fn save_store(links: &Vec<Link>) -> (r: String)
    ensures
        r@ == ser_store(store_view(links@)),
{
    let chars = serialize_store_chars(links);
    string_from_chars(&chars)
}

} // verus!
