//! The codec between the store's texts and the persisted JSON document.
//!
//! The document is a JSON object whose one recognized key, `templates`, holds
//! an array of strings; unknown keys are ignored on read and omitted on
//! write. Decoding is tolerant: malformed input, a missing key, a value that
//! is not an array or an element that is not a string all yield "nothing",
//! which callers treat as "no prior data". The grammar is stated by spec
//! functions over character sequences; the executable encoder and decoder are
//! verified against them, and the round-trip law is proved below.

use vstd::prelude::*;
use vstd::string::StrSliceExecFns;

verus! {

// ---------------------------------------------------------------------------
// Character classes and hexadecimal digits
// ---------------------------------------------------------------------------

/// JSON insignificant whitespace.
pub open spec fn is_ws_char(c: char) -> bool {
    c == ' ' || c == '\t' || c == '\n' || c == '\r'
}

pub open spec fn is_digit_char(c: char) -> bool {
    0x30 <= (c as u32) && (c as u32) <= 0x39
}

pub open spec fn is_hex_char(c: char) -> bool {
    is_digit_char(c) || (0x61 <= (c as u32) && (c as u32) <= 0x66) || (0x41 <= (c as u32) && (c
        as u32) <= 0x46)
}

/// The value of one hexadecimal digit.
pub open spec fn hex_val(c: char) -> int {
    if is_digit_char(c) {
        (c as u32) - 0x30
    } else if 0x61 <= (c as u32) && (c as u32) <= 0x66 {
        (c as u32) - 0x57
    } else {
        (c as u32) - 0x37
    }
}

/// The lowercase hexadecimal digit for a value below sixteen.
pub open spec fn hex_digit_of(v: int) -> char {
    if v == 0 { '0' }
    else if v == 1 { '1' }
    else if v == 2 { '2' }
    else if v == 3 { '3' }
    else if v == 4 { '4' }
    else if v == 5 { '5' }
    else if v == 6 { '6' }
    else if v == 7 { '7' }
    else if v == 8 { '8' }
    else if v == 9 { '9' }
    else if v == 10 { 'a' }
    else if v == 11 { 'b' }
    else if v == 12 { 'c' }
    else if v == 13 { 'd' }
    else if v == 14 { 'e' }
    else { 'f' }
}

proof fn lemma_hex_digit_of(v: int)
    requires
        0 <= v < 16,
    ensures
        is_hex_char(hex_digit_of(v)),
        hex_val(hex_digit_of(v)) == v,
{
}

// ---------------------------------------------------------------------------
// Encoder specification
// ---------------------------------------------------------------------------

/// The escaped form of one character inside a JSON string literal: quote and
/// backslash get a backslash escape, control characters a `\u00..` escape,
/// every other character stands for itself.
pub open spec fn escape_char(c: char) -> Seq<char> {
    if c == '"' {
        seq!['\\', '"']
    } else if c == '\\' {
        seq!['\\', '\\']
    } else if (c as u32) < 0x20 {
        seq!['\\', 'u', '0', '0', hex_digit_of(((c as u32) / 16) as int), hex_digit_of(
            ((c as u32) % 16) as int,
        )]
    } else {
        seq![c]
    }
}

/// The escaped form of a whole text.
pub open spec fn escape_text(s: Seq<char>) -> Seq<char>
    decreases s.len(),
{
    if s.len() == 0 {
        Seq::empty()
    } else {
        escape_char(s[0]) + escape_text(s.drop_first())
    }
}

/// A text as a JSON string literal: escaped and wrapped in quotes.
pub open spec fn quoted(s: Seq<char>) -> Seq<char> {
    seq!['"'] + escape_text(s) + seq!['"']
}

/// The comma-separated string literals of the `templates` array.
pub open spec fn encode_list(items: Seq<Seq<char>>) -> Seq<char>
    decreases items.len(),
{
    if items.len() == 0 {
        Seq::empty()
    } else if items.len() == 1 {
        quoted(items[0])
    } else {
        quoted(items[0]) + seq![','] + encode_list(items.drop_first())
    }
}

/// The opening of the document, up to and including the array bracket.
pub open spec fn doc_prefix() -> Seq<char> {
    seq!['{', '"', 't', 'e', 'm', 'p', 'l', 'a', 't', 'e', 's', '"', ':', '[']
}

/// The whole encoded document for the given texts.
pub open spec fn spec_encode(items: Seq<Seq<char>>) -> Seq<char> {
    doc_prefix() + encode_list(items) + seq![']', '}']
}

/// The key under which the texts are persisted.
pub open spec fn templates_key() -> Seq<char> {
    seq!['t', 'e', 'm', 'p', 'l', 'a', 't', 'e', 's']
}

// ---------------------------------------------------------------------------
// Parser specification
// ---------------------------------------------------------------------------
// Each spec function consumes from the front of the remaining input and
// returns what it recognized together with the input left over, or nothing
// when the input is not well formed. Decoding cares only whether a value is a
// string, an array all of whose elements are strings, or anything else, so
// that is all a recognized value records.

/// What a parsed JSON value looked like, as far as decoding cares.
pub enum JsonShape {
    /// A string, with its unescaped content.
    Text(Seq<char>),
    /// An array whose elements were all strings, with their contents.
    Texts(Seq<Seq<char>>),
    /// Any other well-formed value.
    Other,
}

/// The input after leading whitespace.
pub open spec fn spec_ws(s: Seq<char>) -> Seq<char>
    decreases s.len(),
{
    if s.len() > 0 && is_ws_char(s[0]) {
        spec_ws(s.drop_first())
    } else {
        s
    }
}

/// One escape sequence, the backslash already consumed.
pub open spec fn spec_escape(s: Seq<char>) -> Option<(char, Seq<char>)> {
    if s.len() == 0 {
        None
    } else if s[0] == '"' {
        Some(('"', s.drop_first()))
    } else if s[0] == '\\' {
        Some(('\\', s.drop_first()))
    } else if s[0] == '/' {
        Some(('/', s.drop_first()))
    } else if s[0] == 'b' {
        Some(('\u{8}', s.drop_first()))
    } else if s[0] == 'f' {
        Some(('\u{c}', s.drop_first()))
    } else if s[0] == 'n' {
        Some(('\n', s.drop_first()))
    } else if s[0] == 'r' {
        Some(('\r', s.drop_first()))
    } else if s[0] == 't' {
        Some(('\t', s.drop_first()))
    } else if s[0] == 'u' {
        spec_unicode_escape(s.drop_first())
    } else {
        None
    }
}

/// Four hexadecimal digits after `\u`; a leading surrogate must be completed
/// by a `\u`-escaped trailing surrogate, and a lone surrogate is malformed.
pub open spec fn spec_unicode_escape(s: Seq<char>) -> Option<(char, Seq<char>)> {
    if s.len() >= 4 && is_hex_char(s[0]) && is_hex_char(s[1]) && is_hex_char(s[2]) && is_hex_char(
        s[3],
    ) {
        let n = hex_val(s[0]) * 0x1000 + hex_val(s[1]) * 0x100 + hex_val(s[2]) * 0x10 + hex_val(
            s[3],
        );
        if n < 0xD800 || n > 0xDFFF {
            Some(((n as u32) as char, s.skip(4)))
        } else if n <= 0xDBFF {
            if s.len() >= 10 && s[4] == '\\' && s[5] == 'u' && is_hex_char(s[6]) && is_hex_char(
                s[7],
            ) && is_hex_char(s[8]) && is_hex_char(s[9]) {
                let m = hex_val(s[6]) * 0x1000 + hex_val(s[7]) * 0x100 + hex_val(s[8]) * 0x10
                    + hex_val(s[9]);
                if 0xDC00 <= m && m <= 0xDFFF {
                    Some((((0x10000 + (n - 0xD800) * 0x400 + (m - 0xDC00)) as u32) as char, s.skip(
                        10,
                    )))
                } else {
                    None
                }
            } else {
                None
            }
        } else {
            None
        }
    } else {
        None
    }
}

/// String content after the opening quote, up to and past the closing quote.
pub open spec fn spec_string_body(s: Seq<char>) -> Option<(Seq<char>, Seq<char>)>
    decreases s.len(),
{
    if s.len() == 0 {
        None
    } else if s[0] == '"' {
        Some((Seq::empty(), s.drop_first()))
    } else if s[0] == '\\' {
        match spec_escape(s.drop_first()) {
            None => None,
            Some((c, rest)) => if rest.len() < s.len() {
                match spec_string_body(rest) {
                    None => None,
                    Some((t, rest2)) => Some((seq![c] + t, rest2)),
                }
            } else {
                None
            },
        }
    } else if (s[0] as u32) < 0x20 {
        None
    } else {
        match spec_string_body(s.drop_first()) {
            None => None,
            Some((t, rest)) => Some((seq![s[0]] + t, rest)),
        }
    }
}

/// The input after a run of decimal digits.
pub open spec fn spec_digits(s: Seq<char>) -> Seq<char>
    decreases s.len(),
{
    if s.len() > 0 && is_digit_char(s[0]) {
        spec_digits(s.drop_first())
    } else {
        s
    }
}

/// The integer part of a number: a lone zero, or digits without a leading
/// zero.
pub open spec fn spec_int_part(s: Seq<char>) -> Option<Seq<char>> {
    if s.len() == 0 {
        None
    } else if s[0] == '0' {
        Some(s.drop_first())
    } else if is_digit_char(s[0]) {
        Some(spec_digits(s))
    } else {
        None
    }
}

/// An optional fraction: a dot must be followed by at least one digit.
pub open spec fn spec_frac_part(s: Seq<char>) -> Option<Seq<char>> {
    if s.len() >= 1 && s[0] == '.' {
        if s.len() >= 2 && is_digit_char(s[1]) {
            Some(spec_digits(s.skip(1)))
        } else {
            None
        }
    } else {
        Some(s)
    }
}

/// An optional exponent: `e` or `E`, an optional sign, at least one digit.
pub open spec fn spec_exp_part(s: Seq<char>) -> Option<Seq<char>> {
    if s.len() >= 1 && (s[0] == 'e' || s[0] == 'E') {
        let r = if s.len() >= 2 && (s[1] == '+' || s[1] == '-') {
            s.skip(2)
        } else {
            s.skip(1)
        };
        if r.len() >= 1 && is_digit_char(r[0]) {
            Some(spec_digits(r))
        } else {
            None
        }
    } else {
        Some(s)
    }
}

/// A number, starting at its minus sign or first digit.
pub open spec fn spec_number(s: Seq<char>) -> Option<Seq<char>> {
    let s1 = if s.len() > 0 && s[0] == '-' {
        s.drop_first()
    } else {
        s
    };
    match spec_int_part(s1) {
        None => None,
        Some(r1) => match spec_frac_part(r1) {
            None => None,
            Some(r2) => spec_exp_part(r2),
        },
    }
}

/// The array shape of a one-element array.
pub open spec fn shape_single(sh: JsonShape) -> JsonShape {
    match sh {
        JsonShape::Text(t) => JsonShape::Texts(seq![t]),
        _ => JsonShape::Other,
    }
}

/// The array shape with one more leading element.
pub open spec fn shape_cons(sh: JsonShape, rest: JsonShape) -> JsonShape {
    match rest {
        JsonShape::Texts(ts) => match sh {
            JsonShape::Text(t) => JsonShape::Texts(seq![t] + ts),
            _ => JsonShape::Other,
        },
        _ => JsonShape::Other,
    }
}

/// One JSON value, starting at its first character.
pub open spec fn spec_value(s: Seq<char>) -> Option<(JsonShape, Seq<char>)>
    decreases s.len(), 0int,
{
    if s.len() == 0 {
        None
    } else if s[0] == '"' {
        match spec_string_body(s.drop_first()) {
            None => None,
            Some((t, rest)) => Some((JsonShape::Text(t), rest)),
        }
    } else if s[0] == '[' {
        let r = spec_ws(s.drop_first());
        if r.len() < s.len() {
            if r.len() > 0 && r[0] == ']' {
                Some((JsonShape::Texts(Seq::empty()), r.drop_first()))
            } else {
                spec_elements(r)
            }
        } else {
            None
        }
    } else if s[0] == '{' {
        let r = spec_ws(s.drop_first());
        if r.len() < s.len() {
            if r.len() > 0 && r[0] == '}' {
                Some((JsonShape::Other, r.drop_first()))
            } else {
                match spec_members(r, None) {
                    None => None,
                    Some((_acc, rest)) => Some((JsonShape::Other, rest)),
                }
            }
        } else {
            None
        }
    } else if s[0] == 't' {
        if s.len() >= 4 && s[1] == 'r' && s[2] == 'u' && s[3] == 'e' {
            Some((JsonShape::Other, s.skip(4)))
        } else {
            None
        }
    } else if s[0] == 'f' {
        if s.len() >= 5 && s[1] == 'a' && s[2] == 'l' && s[3] == 's' && s[4] == 'e' {
            Some((JsonShape::Other, s.skip(5)))
        } else {
            None
        }
    } else if s[0] == 'n' {
        if s.len() >= 4 && s[1] == 'u' && s[2] == 'l' && s[3] == 'l' {
            Some((JsonShape::Other, s.skip(4)))
        } else {
            None
        }
    } else if s[0] == '-' || is_digit_char(s[0]) {
        match spec_number(s) {
            None => None,
            Some(rest) => Some((JsonShape::Other, rest)),
        }
    } else {
        None
    }
}

/// The elements of a non-empty array, starting at the first element, up to
/// and past the closing bracket.
pub open spec fn spec_elements(s: Seq<char>) -> Option<(JsonShape, Seq<char>)>
    decreases s.len(), 1int,
{
    match spec_value(s) {
        None => None,
        Some((sh, r0)) => {
            let r1 = spec_ws(r0);
            if r1.len() > 0 && r1[0] == ',' {
                let r2 = spec_ws(r1.drop_first());
                if r2.len() < s.len() {
                    match spec_elements(r2) {
                        None => None,
                        Some((rest_sh, rest)) => Some((shape_cons(sh, rest_sh), rest)),
                    }
                } else {
                    None
                }
            } else if r1.len() > 0 && r1[0] == ']' {
                Some((shape_single(sh), r1.drop_first()))
            } else {
                None
            }
        },
    }
}

/// The members of a non-empty object, starting at the first key, up to and
/// past the closing brace. `acc` carries what the latest `templates` member
/// so far held: the texts where it was an array of strings, nothing where it
/// was anything else or absent — later members override earlier ones.
pub open spec fn spec_members(s: Seq<char>, acc: Option<Seq<Seq<char>>>) -> Option<
    (Option<Seq<Seq<char>>>, Seq<char>),
>
    decreases s.len(), 1int,
{
    if s.len() > 0 && s[0] == '"' {
        match spec_string_body(s.drop_first()) {
            None => None,
            Some((key, r0)) => {
                let r1 = spec_ws(r0);
                if r1.len() > 0 && r1[0] == ':' {
                    let r2 = spec_ws(r1.drop_first());
                    if r2.len() < s.len() {
                        match spec_value(r2) {
                            None => None,
                            Some((sh, r3)) => {
                                let acc2 = if key == templates_key() {
                                    match sh {
                                        JsonShape::Texts(ts) => Some(ts),
                                        _ => None,
                                    }
                                } else {
                                    acc
                                };
                                let r4 = spec_ws(r3);
                                if r4.len() > 0 && r4[0] == ',' {
                                    let r5 = spec_ws(r4.drop_first());
                                    if r5.len() < s.len() {
                                        spec_members(r5, acc2)
                                    } else {
                                        None
                                    }
                                } else if r4.len() > 0 && r4[0] == '}' {
                                    Some((acc2, r4.drop_first()))
                                } else {
                                    None
                                }
                            },
                        }
                    } else {
                        None
                    }
                } else {
                    None
                }
            },
        }
    } else {
        None
    }
}

/// What decoding a whole document yields: the texts under the `templates`
/// key where the input is one well-formed JSON object whose last `templates`
/// member holds an array of strings; nothing otherwise.
pub open spec fn spec_decode(s: Seq<char>) -> Option<Seq<Seq<char>>> {
    let r0 = spec_ws(s);
    if r0.len() > 0 && r0[0] == '{' {
        let r1 = spec_ws(r0.drop_first());
        if r1.len() > 0 && r1[0] == '}' {
            None
        } else {
            match spec_members(r1, None) {
                None => None,
                Some((acc, rest)) => if spec_ws(rest).len() == 0 {
                    acc
                } else {
                    None
                },
            }
        }
    } else {
        None
    }
}

// ---------------------------------------------------------------------------
// Trusted items
// ---------------------------------------------------------------------------

/// Relies on char::from_u32: it returns `Some` exactly on Unicode scalar
/// values (code points outside the surrogate range), and the returned char
/// has the given code point.
pub assume_specification[ char::from_u32 ](v: u32) -> (c: Option<char>)
    ensures
        (v < 0xD800 || (0xE000 <= v && v <= 0x10FFFF)) ==> c == Some((v as char)),
        !(v < 0xD800 || (0xE000 <= v && v <= 0x10FFFF)) ==> c is None,
;

/// Relies on String's FromIterator implementation: collecting characters
/// yields the string holding exactly those characters in order.
#[verifier::external_body]
fn string_from_chars(chars: &Vec<char>) -> (s: String)
    ensures
        s@ == chars@,
{
    chars.iter().collect()
}

// ---------------------------------------------------------------------------
// Executable helpers
// ---------------------------------------------------------------------------

/// The characters of a string slice, in order.
pub fn str_to_chars(s: &str) -> (chars: Vec<char>)
    ensures
        chars@ == s@,
{
    let n = s.unicode_len();
    let mut chars: Vec<char> = Vec::new();
    let mut i: usize = 0;
    while i < n
        invariant
            i <= n,
            n == s@.len(),
            chars@ == s@.take(i as int),
        decreases n - i,
    {
        let c = s.get_char(i);
        chars.push(c);
        proof {
            assert(chars@ =~= s@.take(i as int + 1));
        }
        i = i + 1;
    }
    proof {
        assert(s@.take(n as int) =~= s@);
    }
    chars
}

/// The lowercase hexadecimal digit character for a value below sixteen.
fn hex_digit_char(v: u32) -> (c: char)
    requires
        v < 16,
    ensures
        c == hex_digit_of(v as int),
{
    if v == 0 { '0' }
    else if v == 1 { '1' }
    else if v == 2 { '2' }
    else if v == 3 { '3' }
    else if v == 4 { '4' }
    else if v == 5 { '5' }
    else if v == 6 { '6' }
    else if v == 7 { '7' }
    else if v == 8 { '8' }
    else if v == 9 { '9' }
    else if v == 10 { 'a' }
    else if v == 11 { 'b' }
    else if v == 12 { 'c' }
    else if v == 13 { 'd' }
    else if v == 14 { 'e' }
    else { 'f' }
}

// ---------------------------------------------------------------------------
// Encoder
// ---------------------------------------------------------------------------

/// How the encoded list grows by one more text at the end.
proof fn lemma_escape_text_snoc(s: Seq<char>, c: char)
    ensures
        escape_text(s.push(c)) == escape_text(s) + escape_char(c),
    decreases s.len(),
{
    if s.len() == 0 {
        assert(s.push(c) =~= seq![c]);
        assert(s.push(c).drop_first() =~= Seq::<char>::empty());
        assert(escape_text(Seq::<char>::empty()) == Seq::<char>::empty());
        assert(escape_text(s.push(c)) =~= escape_char(c) + escape_text(Seq::<char>::empty()));
        assert(escape_text(s.push(c)) =~= escape_char(c));
        assert(escape_text(s) + escape_char(c) =~= escape_char(c));
    } else {
        assert(s.push(c).drop_first() =~= s.drop_first().push(c));
        assert(s.push(c)[0] == s[0]);
        lemma_escape_text_snoc(s.drop_first(), c);
        assert(escape_text(s.push(c)) =~= escape_text(s) + escape_char(c));
    }
}

proof fn lemma_encode_list_snoc(items: Seq<Seq<char>>, x: Seq<char>)
    ensures
        items.len() == 0 ==> encode_list(items.push(x)) == quoted(x),
        items.len() > 0 ==> encode_list(items.push(x)) == encode_list(items) + seq![','] + quoted(
            x,
        ),
    decreases items.len(),
{
    if items.len() == 0 {
        assert(items.push(x).len() == 1);
        assert(items.push(x)[0] == x);
    } else if items.len() == 1 {
        assert(items.push(x).len() == 2);
        assert(items.push(x)[0] == items[0]);
        assert(items.push(x).drop_first() =~= seq![x]);
        assert(encode_list(seq![x]) == quoted(x));
    } else {
        assert(items.push(x)[0] == items[0]);
        assert(items.push(x).drop_first() =~= items.drop_first().push(x));
        lemma_encode_list_snoc(items.drop_first(), x);
        assert(encode_list(items.push(x)) =~= encode_list(items) + seq![','] + quoted(x));
    }
}

/// Encodes the texts as the persisted JSON document.
pub fn encode(items: &Vec<String>) -> (doc: String)
    ensures
        doc@ == spec_encode(items.deep_view()),
{
    let mut out: Vec<char> = Vec::new();
    out.push('{');
    out.push('"');
    out.push('t');
    out.push('e');
    out.push('m');
    out.push('p');
    out.push('l');
    out.push('a');
    out.push('t');
    out.push('e');
    out.push('s');
    out.push('"');
    out.push(':');
    out.push('[');
    proof {
        assert(out@ =~= doc_prefix());
    }
    let n = items.len();
    let mut k: usize = 0;
    while k < n
        invariant
            k <= n,
            n == items@.len(),
            out@ == doc_prefix() + encode_list(items.deep_view().take(k as int)),
        decreases n - k,
    {
        let ghost items_view = items.deep_view();
        if k > 0 {
            out.push(',');
        }
        out.push('"');
        let ghost base = out@;
        let s: &String = &items[k];
        proof {
            assert(s@ == items_view[k as int]);
        }
        let m = s.as_str().unicode_len();
        let mut j: usize = 0;
        while j < m
            invariant
                j <= m,
                m == s@.len(),
                out@ == base + escape_text(s@.take(j as int)),
            decreases m - j,
        {
            let c = s.as_str().get_char(j);
            proof {
                assert(s@.take(j as int + 1) =~= s@.take(j as int).push(c));
                lemma_escape_text_snoc(s@.take(j as int), c);
            }
            if c == '"' {
                out.push('\\');
                out.push('"');
            } else if c == '\\' {
                out.push('\\');
                out.push('\\');
            } else if (c as u32) < 0x20 {
                out.push('\\');
                out.push('u');
                out.push('0');
                out.push('0');
                let cu = c as u32;
                out.push(hex_digit_char(cu / 16));
                out.push(hex_digit_char(cu % 16));
            } else {
                out.push(c);
            }
            proof {
                assert(out@ =~= base + escape_text(s@.take(j as int + 1)));
            }
            j = j + 1;
        }
        out.push('"');
        proof {
            assert(s@.take(m as int) =~= s@);
            lemma_encode_list_snoc(items_view.take(k as int), s@);
            assert(items_view.take(k as int).push(s@) =~= items_view.take(k as int + 1));
            assert(out@ =~= doc_prefix() + encode_list(items_view.take(k as int + 1)));
        }
        k = k + 1;
    }
    out.push(']');
    out.push('}');
    proof {
        assert(items.deep_view().take(n as int) =~= items.deep_view());
        assert(out@ =~= spec_encode(items.deep_view()));
    }
    string_from_chars(&out)
}

// ---------------------------------------------------------------------------
// Decoder
// ---------------------------------------------------------------------------
// The scanner walks a character vector by index; `tail_from` names the input
// that remains from a position, which is what the parser spec consumes.

/// The input remaining from position `i`.
pub open spec fn tail_from(s: Seq<char>, i: int) -> Seq<char> {
    s.subrange(i, s.len() as int)
}

proof fn lemma_tail_drop(s: Seq<char>, i: int)
    requires
        0 <= i < s.len(),
    ensures
        tail_from(s, i).drop_first() == tail_from(s, i + 1),
{
    assert(tail_from(s, i).drop_first() =~= tail_from(s, i + 1));
}

proof fn lemma_tail_skip(s: Seq<char>, i: int, k: int)
    requires
        0 <= i,
        0 <= k,
        i + k <= s.len(),
    ensures
        tail_from(s, i).skip(k) == tail_from(s, i + k),
{
    assert(tail_from(s, i).skip(k) =~= tail_from(s, i + k));
}

/// What a parsed value looks like to the scanner.
pub enum Shape {
    Text(Vec<char>),
    Texts(Vec<Vec<char>>),
    Other,
}

impl View for Shape {
    type V = JsonShape;

    open spec fn view(&self) -> JsonShape {
        match self {
            Shape::Text(t) => JsonShape::Text(t@),
            Shape::Texts(ts) => JsonShape::Texts(ts.deep_view()),
            Shape::Other => JsonShape::Other,
        }
    }
}

/// Scans past whitespace.
fn scan_ws(v: &Vec<char>, i: usize) -> (j: usize)
    requires
        i <= v@.len(),
    ensures
        i <= j <= v@.len(),
        spec_ws(tail_from(v@, i as int)) == tail_from(v@, j as int),
        j == v@.len() || !is_ws_char(v@[j as int]),
    decreases v@.len() - i,
{
    if i < v.len() {
        let c = v[i];
        if c == ' ' || c == '\t' || c == '\n' || c == '\r' {
            proof {
                lemma_tail_drop(v@, i as int);
            }
            return scan_ws(v, i + 1);
        }
    }
    i
}

/// Scans past decimal digits.
fn scan_digits(v: &Vec<char>, i: usize) -> (j: usize)
    requires
        i <= v@.len(),
    ensures
        i <= j <= v@.len(),
        spec_digits(tail_from(v@, i as int)) == tail_from(v@, j as int),
        i < v@.len() && is_digit_char(v@[i as int]) ==> j > i,
    decreases v@.len() - i,
{
    if i < v.len() {
        let c = v[i];
        if 0x30 <= c as u32 && c as u32 <= 0x39 {
            proof {
                lemma_tail_drop(v@, i as int);
            }
            return scan_digits(v, i + 1);
        }
    }
    i
}

/// The value of one hexadecimal digit, or nothing.
fn hex_nibble(c: char) -> (r: Option<u32>)
    ensures
        r is Some <==> is_hex_char(c),
        r is Some ==> r->Some_0 as int == hex_val(c) && r->Some_0 < 16,
{
    let u = c as u32;
    if 0x30 <= u && u <= 0x39 {
        Some(u - 0x30)
    } else if 0x61 <= u && u <= 0x66 {
        Some(u - 0x57)
    } else if 0x41 <= u && u <= 0x46 {
        Some(u - 0x37)
    } else {
        None
    }
}

/// Scans the four (or, for a surrogate pair, ten) characters of a unicode
/// escape, starting at the first hexadecimal digit.
fn scan_unicode(v: &Vec<char>, i: usize) -> (r: Option<(char, usize)>)
    requires
        i <= v@.len(),
    ensures
        match r {
            Some(p) => i + 4 <= p.1 <= v@.len() && spec_unicode_escape(tail_from(v@, i as int))
                == Some((p.0, tail_from(v@, p.1 as int))),
            None => spec_unicode_escape(tail_from(v@, i as int)) is None,
        },
{
    let n = v.len();
    if n - i < 4 {
        return None;
    }
    let h0 = hex_nibble(v[i]);
    let h1 = hex_nibble(v[i + 1]);
    let h2 = hex_nibble(v[i + 2]);
    let h3 = hex_nibble(v[i + 3]);
    if h0.is_none() || h1.is_none() || h2.is_none() || h3.is_none() {
        return None;
    }
    let x = h0.unwrap() * 0x1000 + h1.unwrap() * 0x100 + h2.unwrap() * 0x10 + h3.unwrap();
    proof {
        lemma_tail_skip(v@, i as int, 4);
    }
    if x < 0xD800 || x > 0xDFFF {
        match char::from_u32(x) {
            Some(c) => {
                return Some((c, i + 4));
            },
            None => {
                proof {
                    assert(false);
                }
                return None;
            },
        }
    } else if x <= 0xDBFF {
        if n - i < 10 {
            return None;
        }
        if !(v[i + 4] == '\\' && v[i + 5] == 'u') {
            return None;
        }
        let g0 = hex_nibble(v[i + 6]);
        let g1 = hex_nibble(v[i + 7]);
        let g2 = hex_nibble(v[i + 8]);
        let g3 = hex_nibble(v[i + 9]);
        if g0.is_none() || g1.is_none() || g2.is_none() || g3.is_none() {
            return None;
        }
        let y = g0.unwrap() * 0x1000 + g1.unwrap() * 0x100 + g2.unwrap() * 0x10 + g3.unwrap();
        if 0xDC00 <= y && y <= 0xDFFF {
            let cp = 0x10000 + (x - 0xD800) * 0x400 + (y - 0xDC00);
            proof {
                lemma_tail_skip(v@, i as int, 10);
            }
            match char::from_u32(cp) {
                Some(c) => {
                    return Some((c, i + 10));
                },
                None => {
                    proof {
                        assert(false);
                    }
                    return None;
                },
            }
        } else {
            return None;
        }
    } else {
        return None;
    }
}

/// The scanner's progress through a string body: what the whole body from
/// `i` yields is `acc` plus whatever the body from `j` still yields.
pub open spec fn sb_rel(s: Seq<char>, i: int, j: int, acc: Seq<char>) -> bool {
    match spec_string_body(tail_from(s, j)) {
        Some(p) => spec_string_body(tail_from(s, i)) == Some((acc + p.0, p.1)),
        None => spec_string_body(tail_from(s, i)) is None,
    }
}

proof fn lemma_sb_step(s: Seq<char>, i: int, j: int, jn: int, acc: Seq<char>, d: char)
    requires
        0 <= i <= j < jn <= s.len(),
        sb_rel(s, i, j, acc),
        ({
            match spec_string_body(tail_from(s, jn)) {
                Some(p) => spec_string_body(tail_from(s, j)) == Some((seq![d] + p.0, p.1)),
                None => spec_string_body(tail_from(s, j)) is None,
            }
        }),
    ensures
        sb_rel(s, i, jn, acc.push(d)),
{
    if spec_string_body(tail_from(s, jn)) is Some {
        let p = spec_string_body(tail_from(s, jn))->Some_0;
        assert(spec_string_body(tail_from(s, j)) == Some((seq![d] + p.0, p.1)));
        assert(acc + (seq![d] + p.0) =~= acc.push(d) + p.0);
        assert(spec_string_body(tail_from(s, i)) == Some((acc + (seq![d] + p.0), p.1)));
    }
}

/// Scans a string body, the opening quote already consumed, and returns the
/// unescaped content and the position past the closing quote.
fn scan_string_body(v: &Vec<char>, i: usize) -> (r: Option<(Vec<char>, usize)>)
    requires
        i <= v@.len(),
    ensures
        match r {
            Some(p) => i < p.1 <= v@.len() && spec_string_body(tail_from(v@, i as int)) == Some(
                (p.0@, tail_from(v@, p.1 as int)),
            ),
            None => spec_string_body(tail_from(v@, i as int)) is None,
        },
{
    let n = v.len();
    let mut out: Vec<char> = Vec::new();
    let mut j = i;
    proof {
        if spec_string_body(tail_from(v@, i as int)) is Some {
            let p = spec_string_body(tail_from(v@, i as int))->Some_0;
            assert(Seq::<char>::empty() + p.0 =~= p.0);
        }
    }
    while j < n
        invariant
            i <= j <= n,
            n == v@.len(),
            sb_rel(v@, i as int, j as int, out@),
        decreases n - j,
    {
        let c = v[j];
        if c == '"' {
            proof {
                lemma_tail_drop(v@, j as int);
                assert(spec_string_body(tail_from(v@, j as int)) == Some(
                    (Seq::<char>::empty(), tail_from(v@, j as int + 1)),
                ));
                assert(out@ + Seq::<char>::empty() =~= out@);
            }
            return Some((out, j + 1));
        } else if c == '\\' {
            if j + 1 == n {
                proof {
                    lemma_tail_drop(v@, j as int);
                    assert(tail_from(v@, j as int + 1).len() == 0);
                    assert(spec_escape(tail_from(v@, j as int + 1)) is None);
                    assert(spec_string_body(tail_from(v@, j as int)) is None);
                }
                return None;
            }
            let e = v[j + 1];
            proof {
                lemma_tail_drop(v@, j as int);
                lemma_tail_drop(v@, j as int + 1);
                assert(tail_from(v@, j as int + 1)[0] == e);
            }
            if e == 'u' {
                match scan_unicode(v, j + 2) {
                    None => {
                        proof {
                            assert(spec_escape(tail_from(v@, j as int + 1)) is None);
                            assert(spec_string_body(tail_from(v@, j as int)) is None);
                        }
                        return None;
                    },
                    Some((d, j2)) => {
                        proof {
                            assert(spec_escape(tail_from(v@, j as int + 1)) == Some(
                                (d, tail_from(v@, j2 as int)),
                            ));
                            assert(tail_from(v@, j2 as int).len() < tail_from(
                                v@,
                                j as int,
                            ).len());
                            lemma_sb_step(v@, i as int, j as int, j2 as int, out@, d);
                        }
                        out.push(d);
                        j = j2;
                    },
                }
            } else {
                let d_opt: Option<char> = if e == '"' {
                    Some('"')
                } else if e == '\\' {
                    Some('\\')
                } else if e == '/' {
                    Some('/')
                } else if e == 'b' {
                    Some('\u{8}')
                } else if e == 'f' {
                    Some('\u{c}')
                } else if e == 'n' {
                    Some('\n')
                } else if e == 'r' {
                    Some('\r')
                } else if e == 't' {
                    Some('\t')
                } else {
                    None
                };
                match d_opt {
                    None => {
                        proof {
                            assert(spec_escape(tail_from(v@, j as int + 1)) is None);
                            assert(spec_string_body(tail_from(v@, j as int)) is None);
                        }
                        return None;
                    },
                    Some(d) => {
                        proof {
                            assert(spec_escape(tail_from(v@, j as int + 1)) == Some(
                                (d, tail_from(v@, j as int + 2)),
                            ));
                            lemma_sb_step(v@, i as int, j as int, j as int + 2, out@, d);
                        }
                        out.push(d);
                        j = j + 2;
                    },
                }
            }
        } else if (c as u32) < 0x20 {
            proof {
                assert(spec_string_body(tail_from(v@, j as int)) is None);
            }
            return None;
        } else {
            proof {
                lemma_tail_drop(v@, j as int);
                lemma_sb_step(v@, i as int, j as int, j as int + 1, out@, c);
            }
            out.push(c);
            j = j + 1;
        }
    }
    proof {
        assert(tail_from(v@, j as int).len() == 0);
        assert(spec_string_body(tail_from(v@, j as int)) is None);
    }
    None
}

/// Scans a number, starting at its minus sign or first digit.
fn scan_number(v: &Vec<char>, i: usize) -> (r: Option<usize>)
    requires
        i <= v@.len(),
    ensures
        match r {
            Some(j) => i < j <= v@.len() && spec_number(tail_from(v@, i as int)) == Some(
                tail_from(v@, j as int),
            ),
            None => spec_number(tail_from(v@, i as int)) is None,
        },
{
    let n = v.len();
    let mut j = i;
    if j < n && v[j] == '-' {
        proof {
            lemma_tail_drop(v@, j as int);
        }
        j = j + 1;
    }
    // integer part
    if j >= n {
        return None;
    }
    let c = v[j];
    let j2: usize;
    if c == '0' {
        proof {
            lemma_tail_drop(v@, j as int);
        }
        j2 = j + 1;
    } else if 0x30 <= c as u32 && c as u32 <= 0x39 {
        j2 = scan_digits(v, j);
    } else {
        return None;
    }
    proof {
        assert(spec_int_part(tail_from(v@, j as int)) == Some(tail_from(v@, j2 as int)));
    }
    // fraction part
    let j3: usize;
    if j2 < n && v[j2] == '.' {
        if j2 + 1 < n && 0x30 <= v[j2 + 1] as u32 && v[j2 + 1] as u32 <= 0x39 {
            proof {
                lemma_tail_skip(v@, j2 as int, 1);
            }
            j3 = scan_digits(v, j2 + 1);
        } else {
            proof {
                assert(spec_frac_part(tail_from(v@, j2 as int)) is None);
            }
            return None;
        }
    } else {
        j3 = j2;
    }
    proof {
        assert(spec_frac_part(tail_from(v@, j2 as int)) == Some(tail_from(v@, j3 as int)));
    }
    // exponent part
    let j5: usize;
    if j3 < n && (v[j3] == 'e' || v[j3] == 'E') {
        let j4: usize;
        if j3 + 1 < n && (v[j3 + 1] == '+' || v[j3 + 1] == '-') {
            proof {
                lemma_tail_skip(v@, j3 as int, 2);
            }
            j4 = j3 + 2;
        } else {
            proof {
                lemma_tail_skip(v@, j3 as int, 1);
            }
            j4 = j3 + 1;
        }
        if j4 < n && 0x30 <= v[j4] as u32 && v[j4] as u32 <= 0x39 {
            j5 = scan_digits(v, j4);
        } else {
            proof {
                assert(spec_exp_part(tail_from(v@, j3 as int)) is None);
            }
            return None;
        }
    } else {
        j5 = j3;
    }
    proof {
        assert(spec_exp_part(tail_from(v@, j3 as int)) == Some(tail_from(v@, j5 as int)));
        assert(spec_number(tail_from(v@, i as int)) == Some(tail_from(v@, j5 as int)));
    }
    Some(j5)
}

/// Whether a member key is the `templates` key.
fn is_templates_key(key: &Vec<char>) -> (b: bool)
    ensures
        b == (key@ == templates_key()),
{
    if key.len() != 9 {
        proof {
            assert(templates_key().len() == 9);
        }
        return false;
    }
    let b = key[0] == 't' && key[1] == 'e' && key[2] == 'm' && key[3] == 'p' && key[4] == 'l'
        && key[5] == 'a' && key[6] == 't' && key[7] == 'e' && key[8] == 's';
    proof {
        if b {
            assert(key@ =~= templates_key());
        } else {
            assert(key@ != templates_key());
        }
    }
    b
}

/// Scans one JSON value.
fn scan_value(v: &Vec<char>, i: usize) -> (r: Option<(Shape, usize)>)
    requires
        i <= v@.len(),
    ensures
        match r {
            Some(p) => i < p.1 <= v@.len() && spec_value(tail_from(v@, i as int)) == Some(
                (p.0@, tail_from(v@, p.1 as int)),
            ),
            None => spec_value(tail_from(v@, i as int)) is None,
        },
    decreases v@.len() - i, 0int,
{
    let n = v.len();
    if i >= n {
        return None;
    }
    let c = v[i];
    proof {
        lemma_tail_drop(v@, i as int);
    }
    if c == '"' {
        match scan_string_body(v, i + 1) {
            None => None,
            Some((t, j)) => Some((Shape::Text(t), j)),
        }
    } else if c == '[' {
        let r0 = scan_ws(v, i + 1);
        if r0 < n && v[r0] == ']' {
            proof {
                lemma_tail_drop(v@, r0 as int);
            }
            let empty: Vec<Vec<char>> = Vec::new();
            proof {
                assert(empty.deep_view() =~= Seq::<Seq<char>>::empty());
            }
            Some((Shape::Texts(empty), r0 + 1))
        } else {
            match scan_elements(v, r0) {
                None => None,
                Some((sh, j)) => Some((sh, j)),
            }
        }
    } else if c == '{' {
        let r0 = scan_ws(v, i + 1);
        if r0 < n && v[r0] == '}' {
            proof {
                lemma_tail_drop(v@, r0 as int);
            }
            Some((Shape::Other, r0 + 1))
        } else {
            match scan_members(v, r0, None) {
                None => None,
                Some((_acc, j)) => Some((Shape::Other, j)),
            }
        }
    } else if c == 't' {
        if n - i > 3 && v[i + 1] == 'r' && v[i + 2] == 'u' && v[i + 3] == 'e' {
            proof {
                lemma_tail_skip(v@, i as int, 4);
            }
            Some((Shape::Other, i + 4))
        } else {
            None
        }
    } else if c == 'f' {
        if n - i > 4 && v[i + 1] == 'a' && v[i + 2] == 'l' && v[i + 3] == 's' && v[i + 4] == 'e' {
            proof {
                lemma_tail_skip(v@, i as int, 5);
            }
            Some((Shape::Other, i + 5))
        } else {
            None
        }
    } else if c == 'n' {
        if n - i > 3 && v[i + 1] == 'u' && v[i + 2] == 'l' && v[i + 3] == 'l' {
            proof {
                lemma_tail_skip(v@, i as int, 4);
            }
            Some((Shape::Other, i + 4))
        } else {
            None
        }
    } else if c == '-' || (0x30 <= c as u32 && c as u32 <= 0x39) {
        match scan_number(v, i) {
            None => None,
            Some(j) => Some((Shape::Other, j)),
        }
    } else {
        None
    }
}

/// Scans the elements of a non-empty array.
fn scan_elements(v: &Vec<char>, i: usize) -> (r: Option<(Shape, usize)>)
    requires
        i <= v@.len(),
    ensures
        match r {
            Some(p) => i < p.1 <= v@.len() && spec_elements(tail_from(v@, i as int)) == Some(
                (p.0@, tail_from(v@, p.1 as int)),
            ),
            None => spec_elements(tail_from(v@, i as int)) is None,
        },
    decreases v@.len() - i, 1int,
{
    let n = v.len();
    match scan_value(v, i) {
        None => None,
        Some((sh, r0)) => {
            let r1 = scan_ws(v, r0);
            if r1 < n && v[r1] == ',' {
                proof {
                    lemma_tail_drop(v@, r1 as int);
                }
                let r2 = scan_ws(v, r1 + 1);
                match scan_elements(v, r2) {
                    None => None,
                    Some((sh2, j)) => {
                        match sh2 {
                            Shape::Texts(ts) => {
                                match sh {
                                    Shape::Text(t) => {
                                        let ghost ts0 = ts.deep_view();
                                        let ghost t0 = t@;
                                        let mut ts = ts;
                                        ts.insert(0, t);
                                        proof {
                                            assert(ts.deep_view() =~~= seq![t0] + ts0);
                                        }
                                        Some((Shape::Texts(ts), j))
                                    },
                                    _ => Some((Shape::Other, j)),
                                }
                            },
                            _ => Some((Shape::Other, j)),
                        }
                    },
                }
            } else if r1 < n && v[r1] == ']' {
                proof {
                    lemma_tail_drop(v@, r1 as int);
                }
                match sh {
                    Shape::Text(t) => {
                        let ghost t0 = t@;
                        let mut ts: Vec<Vec<char>> = Vec::new();
                        ts.push(t);
                        proof {
                            assert(ts.deep_view() =~~= seq![t0]);
                        }
                        Some((Shape::Texts(ts), r1 + 1))
                    },
                    _ => Some((Shape::Other, r1 + 1)),
                }
            } else {
                None
            }
        },
    }
}

/// Scans the members of a non-empty object, carrying what the latest
/// `templates` member held.
fn scan_members(v: &Vec<char>, i: usize, acc: Option<Vec<Vec<char>>>) -> (r: Option<
    (Option<Vec<Vec<char>>>, usize),
>)
    requires
        i <= v@.len(),
    ensures
        match r {
            Some(p) => i < p.1 <= v@.len() && spec_members(tail_from(v@, i as int), acc.deep_view())
                == Some((p.0.deep_view(), tail_from(v@, p.1 as int))),
            None => spec_members(tail_from(v@, i as int), acc.deep_view()) is None,
        },
    decreases v@.len() - i, 1int,
{
    let n = v.len();
    if i < n && v[i] == '"' {
        proof {
            lemma_tail_drop(v@, i as int);
        }
        match scan_string_body(v, i + 1) {
            None => None,
            Some((key, r0)) => {
                let r1 = scan_ws(v, r0);
                if r1 < n && v[r1] == ':' {
                    proof {
                        lemma_tail_drop(v@, r1 as int);
                    }
                    let r2 = scan_ws(v, r1 + 1);
                    match scan_value(v, r2) {
                        None => None,
                        Some((sh, r3)) => {
                            let acc2: Option<Vec<Vec<char>>> = if is_templates_key(&key) {
                                match sh {
                                    Shape::Texts(ts) => Some(ts),
                                    _ => None,
                                }
                            } else {
                                acc
                            };
                            let r4 = scan_ws(v, r3);
                            if r4 < n && v[r4] == ',' {
                                proof {
                                    lemma_tail_drop(v@, r4 as int);
                                }
                                let r5 = scan_ws(v, r4 + 1);
                                scan_members(v, r5, acc2)
                            } else if r4 < n && v[r4] == '}' {
                                proof {
                                    lemma_tail_drop(v@, r4 as int);
                                }
                                Some((acc2, r4 + 1))
                            } else {
                                None
                            }
                        },
                    }
                } else {
                    None
                }
            },
        }
    } else {
        None
    }
}

/// Decodes the persisted document: the texts under the `templates` key where
/// the input is one well-formed JSON object whose last `templates` member
/// holds an array of strings, and nothing otherwise — malformed input, a
/// missing key, a value of another kind and a non-string element all read as
/// "no prior data".
pub fn decode(raw: &str) -> (r: Option<Vec<String>>)
    ensures
        r.deep_view() == spec_decode(raw@),
{
    let chars = str_to_chars(raw);
    match scan_document(&chars) {
        None => None,
        Some(ts) => {
            let m = ts.len();
            let mut items: Vec<String> = Vec::new();
            let mut k: usize = 0;
            while k < m
                invariant
                    k <= m,
                    m == ts@.len(),
                    items@.len() == k,
                    forall|q: int| 0 <= q < k ==> #[trigger] items@[q]@ == ts@[q]@,
                decreases m - k,
            {
                items.push(string_from_chars(&ts[k]));
                k = k + 1;
            }
            proof {
                assert(items.deep_view() =~~= ts.deep_view());
            }
            Some(items)
        },
    }
}

/// Scans a whole document: one JSON object with nothing but whitespace
/// around it, yielding what its last `templates` member held.
fn scan_document(v: &Vec<char>) -> (r: Option<Vec<Vec<char>>>)
    ensures
        r.deep_view() == spec_decode(v@),
{
    let n = v.len();
    proof {
        assert(tail_from(v@, 0) =~= v@);
    }
    let r0 = scan_ws(v, 0);
    if r0 < n && v[r0] == '{' {
        proof {
            lemma_tail_drop(v@, r0 as int);
        }
        let r1 = scan_ws(v, r0 + 1);
        if r1 < n && v[r1] == '}' {
            None
        } else {
            match scan_members(v, r1, None) {
                None => None,
                Some((acc, rest)) => {
                    let r2 = scan_ws(v, rest);
                    if r2 == n {
                        acc
                    } else {
                        None
                    }
                },
            }
        }
    } else {
        None
    }
}


// ---------------------------------------------------------------------------
// The round-trip law
// ---------------------------------------------------------------------------

proof fn lemma_escape_plain(s: Seq<char>)
    requires
        forall|k: int|
            0 <= k < s.len() ==> (#[trigger] s[k]) != '"' && s[k] != '\\' && (s[k] as u32)
                >= 0x20,
    ensures
        escape_text(s) == s,
    decreases s.len(),
{
    if s.len() == 0 {
        assert(escape_text(s) =~= s);
    } else {
        lemma_escape_plain(s.drop_first());
        assert(escape_char(s[0]) =~= seq![s[0]]);
        assert(escape_text(s) =~= seq![s[0]] + s.drop_first());
        assert(seq![s[0]] + s.drop_first() =~= s);
    }
}

#[verifier::rlimit(60)]
proof fn lemma_string_round(x: Seq<char>, t: Seq<char>)
    ensures
        spec_string_body(escape_text(x) + seq!['"'] + t) == Some((x, t)),
    decreases x.len(),
{
    let s = escape_text(x) + seq!['"'] + t;
    if x.len() == 0 {
        assert(escape_text(x) == Seq::<char>::empty());
        assert(s =~= seq!['"'] + t);
        assert(s[0] == '"');
        assert(s.drop_first() =~= t);
        assert(x =~= Seq::<char>::empty());
    } else {
        let c = x[0];
        let x1 = x.drop_first();
        lemma_string_round(x1, t);
        let rest = escape_text(x1) + seq!['"'] + t;
        assert(escape_text(x) == escape_char(c) + escape_text(x1));
        assert(seq![c] + x1 =~= x);
        if c == '"' {
            assert(escape_char(c) =~= seq!['\\', '"']);
            assert(s =~= seq!['\\'] + (seq!['"'] + rest));
            assert(s[0] == '\\');
            assert(s.drop_first() =~= seq!['"'] + rest);
            assert((seq!['"'] + rest)[0] == '"');
            assert((seq!['"'] + rest).drop_first() =~= rest);
            assert(spec_escape(s.drop_first()) == Some(('"', rest)));
            assert(rest.len() < s.len());
            assert(spec_string_body(s) == Some((seq![c] + x1, t)));
        } else if c == '\\' {
            assert(escape_char(c) =~= seq!['\\', '\\']);
            assert(s =~= seq!['\\'] + (seq!['\\'] + rest));
            assert(s[0] == '\\');
            assert(s.drop_first() =~= seq!['\\'] + rest);
            assert((seq!['\\'] + rest)[0] == '\\');
            assert((seq!['\\'] + rest).drop_first() =~= rest);
            assert(spec_escape(s.drop_first()) == Some(('\\', rest)));
            assert(rest.len() < s.len());
            assert(spec_string_body(s) == Some((seq![c] + x1, t)));
        } else if (c as u32) < 0x20 {
            let hi = ((c as u32) / 16) as int;
            let lo = ((c as u32) % 16) as int;
            let h1 = hex_digit_of(hi);
            let h2 = hex_digit_of(lo);
            lemma_hex_digit_of(hi);
            lemma_hex_digit_of(lo);
            assert(escape_char(c) == seq!['\\', 'u', '0', '0', h1, h2]);
            assert(s =~= seq!['\\'] + (seq!['u'] + (seq!['0', '0', h1, h2] + rest)));
            assert(s[0] == '\\');
            let s1 = s.drop_first();
            assert(s1 =~= seq!['u'] + (seq!['0', '0', h1, h2] + rest));
            assert(s1[0] == 'u');
            let s2 = s1.drop_first();
            assert(s2 =~= seq!['0', '0', h1, h2] + rest);
            assert(s2.len() >= 4);
            assert(s2[0] == '0' && s2[1] == '0' && s2[2] == h1 && s2[3] == h2);
            assert(is_hex_char('0') && hex_val('0') == 0);
            let nv = hex_val(s2[0]) * 0x1000 + hex_val(s2[1]) * 0x100 + hex_val(s2[2]) * 0x10
                + hex_val(s2[3]);
            assert(nv == hi * 16 + lo);
            assert(nv == (c as u32));
            assert(nv < 0xD800);
            vstd::utf8::char_u32_cast(c, c as u32);
            assert((nv as u32) as char == c);
            assert(s2.skip(4) =~= rest);
            assert(spec_unicode_escape(s2) == Some((c, rest)));
            assert(spec_escape(s1) == Some((c, rest)));
            assert(rest.len() < s.len());
            assert(spec_string_body(s) == Some((seq![c] + x1, t)));
        } else {
            assert(escape_char(c) =~= seq![c]);
            assert(s =~= seq![c] + rest);
            assert(s[0] == c);
            assert(s.drop_first() =~= rest);
            assert(spec_string_body(s) == Some((seq![c] + x1, t)));
        }
    }
}

proof fn lemma_encode_list_first(items: Seq<Seq<char>>)
    requires
        items.len() >= 1,
    ensures
        encode_list(items).len() >= 2,
        encode_list(items)[0] == '"',
{
    assert(quoted(items[0])[0] == '"');
    assert(quoted(items[0]).len() >= 2);
    if items.len() > 1 {
        assert(encode_list(items) == quoted(items[0]) + seq![','] + encode_list(
            items.drop_first(),
        ));
        assert(encode_list(items)[0] == quoted(items[0])[0]);
    }
}

proof fn lemma_elements_round(items: Seq<Seq<char>>)
    requires
        items.len() >= 1,
    ensures
        spec_elements(encode_list(items) + seq![']', '}']) == Some(
            (JsonShape::Texts(items), seq!['}']),
        ),
    decreases items.len(),
{
    let x = items[0];
    let s = encode_list(items) + seq![']', '}'];
    if items.len() == 1 {
        assert(encode_list(items) == quoted(x));
        assert(s =~= seq!['"'] + (escape_text(x) + seq!['"'] + seq![']', '}']));
        assert(s[0] == '"');
        assert(s.drop_first() =~= escape_text(x) + seq!['"'] + seq![']', '}']);
        lemma_string_round(x, seq![']', '}']);
        assert(spec_value(s) == Some((JsonShape::Text(x), seq![']', '}'])));
        assert(!is_ws_char(']'));
        assert(spec_ws(seq![']', '}']) == seq![']', '}']);
        assert(seq![']', '}'].drop_first() =~= seq!['}']);
        assert(shape_single(JsonShape::Text(x)) == JsonShape::Texts(seq![x]));
        assert(seq![x] =~= items);
    } else {
        let items1 = items.drop_first();
        lemma_elements_round(items1);
        let e1 = encode_list(items1);
        assert(encode_list(items) == quoted(x) + seq![','] + e1);
        let rest = seq![','] + (e1 + seq![']', '}']);
        assert(s =~= seq!['"'] + (escape_text(x) + seq!['"'] + rest));
        assert(s[0] == '"');
        assert(s.drop_first() =~= escape_text(x) + seq!['"'] + rest);
        lemma_string_round(x, rest);
        assert(spec_value(s) == Some((JsonShape::Text(x), rest)));
        assert(rest[0] == ',');
        assert(spec_ws(rest) == rest);
        assert(rest.drop_first() =~= e1 + seq![']', '}']);
        lemma_encode_list_first(items1);
        assert((e1 + seq![']', '}'])[0] == '"');
        assert(spec_ws(e1 + seq![']', '}']) == e1 + seq![']', '}']);
        assert((e1 + seq![']', '}']).len() < s.len());
        assert(spec_elements(e1 + seq![']', '}']) == Some(
            (JsonShape::Texts(items1), seq!['}']),
        ));
        assert(shape_cons(JsonShape::Text(x), JsonShape::Texts(items1)) == JsonShape::Texts(
            seq![x] + items1,
        ));
        assert(seq![x] + items1 =~= items);
        assert(spec_elements(s) == Some((JsonShape::Texts(items), seq!['}'])));
    }
}

/// Round-trip law: decoding an encoded sequence of texts yields exactly that
/// sequence, whatever the texts hold.
pub proof fn lemma_round_trip(items: Seq<Seq<char>>)
    ensures
        spec_decode(spec_encode(items)) == Some(items),
{
    let k = templates_key();
    let e = encode_list(items);
    let s = spec_encode(items);
    let tl = seq![':', '['] + (e + seq![']', '}']);
    let dd = seq!['"'] + (k + seq!['"'] + tl);
    assert(s =~= seq!['{'] + dd);
    assert(s[0] == '{');
    assert(spec_ws(s) == s);
    assert(s.drop_first() =~= dd);
    assert(dd[0] == '"');
    assert(spec_ws(dd) == dd);
    assert(dd[0] != '}');
    // the single member: key, colon, the array
    assert(dd.drop_first() =~= k + seq!['"'] + tl);
    assert forall|q: int| 0 <= q < k.len() implies (#[trigger] k[q]) != '"' && k[q] != '\\'
        && (k[q] as u32) >= 0x20 by {}
    lemma_escape_plain(k);
    lemma_string_round(k, tl);
    assert(spec_string_body(dd.drop_first()) == Some((k, tl)));
    assert(tl[0] == ':');
    assert(spec_ws(tl) == tl);
    let u = seq!['['] + (e + seq![']', '}']);
    assert(tl.drop_first() =~= u);
    assert(u[0] == '[');
    assert(spec_ws(u) == u);
    assert(u.len() < dd.len());
    // the array value
    let e2 = e + seq![']', '}'];
    assert(u.drop_first() =~= e2);
    if items.len() == 0 {
        assert(e =~= Seq::<char>::empty());
        assert(e2 =~= seq![']', '}']);
        assert(e2[0] == ']');
        assert(spec_ws(e2) == e2);
        assert(e2.len() < u.len());
        assert(e2.drop_first() =~= seq!['}']);
        assert(items =~= Seq::<Seq<char>>::empty());
        assert(spec_value(u) == Some((JsonShape::Texts(items), seq!['}'])));
    } else {
        lemma_encode_list_first(items);
        assert(e2[0] == '"');
        assert(spec_ws(e2) == e2);
        assert(e2.len() < u.len());
        assert(e2[0] != ']');
        lemma_elements_round(items);
        assert(spec_value(u) == Some((JsonShape::Texts(items), seq!['}'])));
    }
    // the member list closes the object
    assert(spec_ws(seq!['}']) == seq!['}']);
    assert(seq!['}'].drop_first() =~= Seq::<char>::empty());
    assert(spec_members(dd, None) == Some((Some(items), Seq::<char>::empty())));
    assert(spec_ws(Seq::<char>::empty()).len() == 0);
    assert(spec_decode(s) == Some(items));
}

} // verus!
