//! A JSON codec for objects carrying one named string member, such as
//! `{"name": "..."}`.
//!
//! The parser accepts a JSON object in which the named member occurs
//! exactly once and holds a string; any other members may carry arbitrary
//! valid JSON (strings, numbers, literals, nested objects and arrays up
//! to a fixed nesting depth), which is validated and ignored. Strings are
//! decoded with the full escape repertoire (`\"`, `\\`, `\/`, `\b`, `\f`,
//! `\n`, `\r`, `\t` and `\uXXXX`, surrogate pairs included). The
//! serializer emits the compact one-member form and escapes exactly the
//! characters that JSON requires: `"`, `\` and the control characters
//! below `U+0020`.

use vstd::prelude::*;

verus! {

// ---------------------------------------------------------------------------
// Character classes
// ---------------------------------------------------------------------------

/// The four characters JSON treats as insignificant whitespace.
pub open spec fn is_json_ws(c: char) -> bool {
    c == ' ' || c == '\t' || c == '\n' || c == '\r'
}

/// Hexadecimal digits, in either case, as `\uXXXX` escapes allow.
pub open spec fn is_hex_digit(c: char) -> bool {
    (48 <= c as int && (c as int) <= 57)  // '0' ..= '9'
    || (97 <= c as int && (c as int) <= 102)  // 'a' ..= 'f'
    || (65 <= c as int && (c as int) <= 70)  // 'A' ..= 'F'
}

/// Numeric value of a hexadecimal digit.
pub open spec fn hex_val(c: char) -> int {
    if 48 <= c as int && (c as int) <= 57 {
        c as int - 48
    } else if 97 <= c as int && (c as int) <= 102 {
        c as int - 87
    } else {
        c as int - 55
    }
}

/// The lowercase hexadecimal digit for a value below sixteen.
pub open spec fn hex_digit_char(v: int) -> char {
    if v < 10 {
        (48 + v) as char
    } else {
        (87 + v) as char
    }
}

/// A character that may stand unescaped inside a JSON string.
pub open spec fn is_plain_char(c: char) -> bool {
    c != '"' && c != '\\' && (c as int) >= 0x20
}

// ---------------------------------------------------------------------------
// Serialization
// ---------------------------------------------------------------------------

/// How one character is written inside a JSON string: itself when plain,
/// a two-character escape for the quote, the backslash and the named
/// control characters, and `\u00XX` for the remaining control characters.
pub open spec fn escape_char(c: char) -> Seq<char> {
    if c == '"' {
        seq!['\\', '"']
    } else if c == '\\' {
        seq!['\\', '\\']
    } else if c == '\u{08}' {
        seq!['\\', 'b']
    } else if c == '\t' {
        seq!['\\', 't']
    } else if c == '\n' {
        seq!['\\', 'n']
    } else if c == '\u{0c}' {
        seq!['\\', 'f']
    } else if c == '\r' {
        seq!['\\', 'r']
    } else if (c as int) < 0x20 {
        seq!['\\', 'u', '0', '0', hex_digit_char((c as int) / 16), hex_digit_char((c as int) % 16)]
    } else {
        seq![c]
    }
}

/// The body of a JSON string: every character escaped as needed.
pub open spec fn escape_string(s: Seq<char>) -> Seq<char>
    decreases s.len(),
{
    if s.len() == 0 {
        Seq::empty()
    } else {
        escape_char(s[0]) + escape_string(s.skip(1))
    }
}

/// A complete JSON string token: quote, escaped body, quote.
pub open spec fn quoted(s: Seq<char>) -> Seq<char> {
    seq!['"'] + escape_string(s) + seq!['"']
}

/// The compact serialization of an object with one string member.
pub open spec fn serialize_object_spec(key: Seq<char>, value: Seq<char>) -> Seq<char> {
    seq!['{'] + quoted(key) + seq![':'] + quoted(value) + seq!['}']
}

// ---------------------------------------------------------------------------
// Parsing
// ---------------------------------------------------------------------------

/// The number of whitespace characters a suffix starts with.
pub open spec fn ws_len(s: Seq<char>) -> nat
    decreases s.len(),
{
    if s.len() > 0 && is_json_ws(s[0]) {
        1 + ws_len(s.skip(1))
    } else {
        0
    }
}

/// Decimal digits.
pub open spec fn is_digit(c: char) -> bool {
    48 <= c as int && (c as int) <= 57
}

/// The number of decimal digits a suffix starts with.
pub open spec fn digits_len(s: Seq<char>) -> nat
    decreases s.len(),
{
    if s.len() > 0 && is_digit(s[0]) {
        1 + digits_len(s.skip(1))
    } else {
        0
    }
}

/// The suffix of `s` at `k`, clamped so that at least one character and
/// at most all of them are dropped. The positions the grammar computes
/// always lie in range, where this equals `s.skip(k)`; the clamping only
/// keeps the definitions below total and structurally shrinking.
pub open spec fn advance(s: Seq<char>, k: int) -> Seq<char> {
    if 1 <= k <= s.len() {
        s.skip(k)
    } else {
        s.skip(s.len() as int)
    }
}

/// How deeply containers may nest inside a member value that is decoded
/// only to be skipped. A fixed bound keeps the decoder's stack use
/// bounded on hostile documents; this one equals what serde_json's
/// default recursion limit leaves for member values below the top-level
/// object, so the two decoders accept the same documents.
pub open spec fn member_value_depth() -> int {
    126
}

/// The character a two-character escape stands for, if the character
/// after the backslash is one of the eight JSON grants a short escape.
pub open spec fn simple_unescape(e: char) -> Option<char> {
    if e == '"' {
        Some('"')
    } else if e == '\\' {
        Some('\\')
    } else if e == '/' {
        Some('/')
    } else if e == 'b' {
        Some('\u{08}')
    } else if e == 'f' {
        Some('\u{0c}')
    } else if e == 'n' {
        Some('\n')
    } else if e == 'r' {
        Some('\r')
    } else if e == 't' {
        Some('\t')
    } else {
        None
    }
}

/// Whether a sequence starts with four hexadecimal digits.
pub open spec fn is_hex4(s: Seq<char>) -> bool {
    s.len() >= 4 && is_hex_digit(s[0]) && is_hex_digit(s[1]) && is_hex_digit(s[2]) && is_hex_digit(
        s[3],
    )
}

/// The value of the four leading hexadecimal digits.
pub open spec fn hex4_val(s: Seq<char>) -> int {
    hex_val(s[0]) * 0x1000 + hex_val(s[1]) * 0x100 + hex_val(s[2]) * 0x10 + hex_val(s[3])
}

/// Parse the remainder of a JSON string, starting just after the opening
/// quote. On success the result carries the decoded content and the
/// number of characters consumed, the closing quote included. A raw
/// control character, a malformed escape, an unpaired surrogate or a
/// missing closing quote make the string invalid.
#[verifier::opaque]
pub open spec fn parse_string_rest(s: Seq<char>) -> Option<(Seq<char>, int)>
    decreases s.len(),
{
    if s.len() == 0 {
        None
    } else if s[0] == '"' {
        Some((Seq::empty(), 1))
    } else if s[0] == '\\' {
        if s.len() < 2 {
            None
        } else if s[1] == 'u' {
            if !is_hex4(s.skip(2)) {
                None
            } else {
                let hi = hex4_val(s.skip(2));
                if 0xD800 <= hi && hi < 0xDC00 {
                    // A high surrogate must be followed by an escaped low
                    // surrogate; together they name one supplementary
                    // character.
                    if s.len() < 12 || s[6] != '\\' || s[7] != 'u' || !is_hex4(s.skip(8)) {
                        None
                    } else {
                        let lo = hex4_val(s.skip(8));
                        if !(0xDC00 <= lo && lo < 0xE000) {
                            None
                        } else {
                            let cp = 0x10000 + (hi - 0xD800) * 0x400 + (lo - 0xDC00);
                            match parse_string_rest(s.skip(12)) {
                                Some(tail) => Some((seq![cp as char] + tail.0, 12 + tail.1)),
                                None => None,
                            }
                        }
                    }
                } else if 0xDC00 <= hi && hi < 0xE000 {
                    None
                } else {
                    match parse_string_rest(s.skip(6)) {
                        Some(tail) => Some((seq![hi as char] + tail.0, 6 + tail.1)),
                        None => None,
                    }
                }
            }
        } else {
            match simple_unescape(s[1]) {
                Some(c) => match parse_string_rest(s.skip(2)) {
                    Some(tail) => Some((seq![c] + tail.0, 2 + tail.1)),
                    None => None,
                },
                None => None,
            }
        }
    } else if (s[0] as int) < 0x20 {
        None
    } else {
        match parse_string_rest(s.skip(1)) {
            Some(tail) => Some((seq![s[0]] + tail.0, 1 + tail.1)),
            None => None,
        }
    }
}

/// A JSON number: an optional minus, an integer part without leading
/// zeros, an optional fraction, an optional exponent. Returns how many
/// characters the number occupies.
#[verifier::opaque]
pub open spec fn parse_number(s: Seq<char>) -> Option<int> {
    let neg: int = if s.len() > 0 && s[0] == '-' {
        1int
    } else {
        0int
    };
    if s.len() <= neg || !is_digit(s[neg]) {
        None
    } else {
        let int_len: int = if s[neg] == '0' {
            1int
        } else {
            digits_len(s.skip(neg)) as int
        };
        let p1: int = neg + int_len;
        number_tail(s, p1)
    }
}

/// The optional fraction and exponent of a JSON number, starting at `p1`
/// just past the integer part. Returns the position just past the number.
#[verifier::opaque]
pub open spec fn number_tail(s: Seq<char>, p1: int) -> Option<int> {
    let p2: int = if p1 < s.len() && s[p1] == '.' {
        if digits_len(s.skip(p1 + 1)) == 0 {
            -1
        } else {
            p1 + 1 + digits_len(s.skip(p1 + 1)) as int
        }
    } else {
        p1
    };
    if p2 < 0 {
        None
    } else {
        let p3: int = if p2 < s.len() && (s[p2] == 'e' || s[p2] == 'E') {
            let sg: int = if p2 + 1 < s.len() && (s[p2 + 1] == '+' || s[p2 + 1] == '-') {
                1int
            } else {
                0int
            };
            if digits_len(s.skip(p2 + 1 + sg)) == 0 {
                -1
            } else {
                p2 + 1 + sg + digits_len(s.skip(p2 + 1 + sg)) as int
            }
        } else {
            p2
        };
        if p3 < 0 {
            None
        } else {
            Some(p3)
        }
    }
}

/// One complete JSON value: a string, a number, `true`, `false`, `null`,
/// or — while `depth` allows it — an object or array of further values.
/// Returns how many characters the value occupies.
#[verifier::opaque]
pub open spec fn parse_value(s: Seq<char>, depth: int) -> Option<int>
    decreases s.len(), 0int,
{
    if s.len() == 0 {
        None
    } else if s[0] == '"' {
        match parse_string_rest(s.skip(1)) {
            Some(t) => Some(1 + t.1),
            None => None,
        }
    } else if s[0] == '{' {
        if depth < 1 {
            None
        } else {
            match parse_object_tail(s.skip(1), depth - 1) {
                Some(n) => Some(1 + n),
                None => None,
            }
        }
    } else if s[0] == '[' {
        if depth < 1 {
            None
        } else {
            match parse_array_tail(s.skip(1), depth - 1) {
                Some(n) => Some(1 + n),
                None => None,
            }
        }
    } else if s[0] == 't' {
        if s.len() >= 4 && s[1] == 'r' && s[2] == 'u' && s[3] == 'e' {
            Some(4)
        } else {
            None
        }
    } else if s[0] == 'f' {
        if s.len() >= 5 && s[1] == 'a' && s[2] == 'l' && s[3] == 's' && s[4] == 'e' {
            Some(5)
        } else {
            None
        }
    } else if s[0] == 'n' {
        if s.len() >= 4 && s[1] == 'u' && s[2] == 'l' && s[3] == 'l' {
            Some(4)
        } else {
            None
        }
    } else if s[0] == '-' || is_digit(s[0]) {
        parse_number(s)
    } else {
        None
    }
}

/// The inside of an object whose `{` is already consumed: whitespace,
/// then `}` or a member list. Returns the characters consumed, the `}`
/// included.
pub open spec fn parse_object_tail(s: Seq<char>, depth: int) -> Option<int>
    decreases s.len(), 2int,
{
    let w = ws_len(s) as int;
    if w >= s.len() {
        None
    } else if s[w] == '}' {
        Some(w + 1)
    } else {
        match parse_members(s.skip(w), depth) {
            Some(n) => Some(w + n),
            None => None,
        }
    }
}

/// A member list inside a skipped object: `"key": value` pairs separated
/// by commas, ending at `}`. The keys are decoded and forgotten, the
/// values validated and skipped. Returns the characters consumed, the
/// `}` included.
pub open spec fn parse_members(s: Seq<char>, depth: int) -> Option<int>
    decreases s.len(), 1int,
{
    if s.len() == 0 || s[0] != '"' {
        None
    } else {
        match parse_string_rest(s.skip(1)) {
            None => None,
            Some(k) => {
                let pc: int = 1 + k.1 + ws_len(advance(s, 1 + k.1)) as int;
                if pc >= s.len() || s[pc] != ':' {
                    None
                } else {
                    let pv: int = pc + 1 + ws_len(advance(s, pc + 1)) as int;
                    if pv >= s.len() {
                        None
                    } else {
                        match parse_value(advance(s, pv), depth) {
                            None => None,
                            Some(vn) => {
                                let pe: int = pv + vn + ws_len(advance(s, pv + vn)) as int;
                                if pe >= s.len() {
                                    None
                                } else if s[pe] == '}' {
                                    Some(pe + 1)
                                } else if s[pe] == ',' {
                                    let pm: int = pe + 1 + ws_len(advance(s, pe + 1)) as int;
                                    match parse_members(advance(s, pm), depth) {
                                        None => None,
                                        Some(mn) => Some(pm + mn),
                                    }
                                } else {
                                    None
                                }
                            },
                        }
                    }
                }
            },
        }
    }
}

/// The inside of an array whose `[` is already consumed.
pub open spec fn parse_array_tail(s: Seq<char>, depth: int) -> Option<int>
    decreases s.len(), 2int,
{
    let w = ws_len(s) as int;
    if w >= s.len() {
        None
    } else if s[w] == ']' {
        Some(w + 1)
    } else {
        match parse_elements(s.skip(w), depth) {
            Some(n) => Some(w + n),
            None => None,
        }
    }
}

/// An element list inside a skipped array: values separated by commas,
/// ending at `]`. Returns the characters consumed, the `]` included.
pub open spec fn parse_elements(s: Seq<char>, depth: int) -> Option<int>
    decreases s.len(), 1int,
{
    if s.len() == 0 {
        None
    } else {
        match parse_value(s, depth) {
            None => None,
            Some(vn) => {
                let pe: int = vn + ws_len(advance(s, vn)) as int;
                if pe >= s.len() {
                    None
                } else if s[pe] == ']' {
                    Some(pe + 1)
                } else if s[pe] == ',' {
                    let pn: int = pe + 1 + ws_len(advance(s, pe + 1)) as int;
                    match parse_elements(advance(s, pn), depth) {
                        None => None,
                        Some(en) => Some(pn + en),
                    }
                } else {
                    None
                }
            },
        }
    }
}

/// The member list of the top-level object: like [`parse_members`], but
/// the member named `key` is singled out. It must occur exactly once,
/// its value must be a JSON string, and that decoded string is the
/// result; every other member is validated and ignored. `found` carries
/// the value seen so far.
pub open spec fn parse_top_members(
    s: Seq<char>,
    key: Seq<char>,
    found: Option<Seq<char>>,
) -> Option<Seq<char>>
    decreases s.len(), 1int,
{
    if s.len() == 0 || s[0] != '"' {
        None
    } else {
        match parse_string_rest(s.skip(1)) {
            None => None,
            Some(k) => {
                let pc: int = 1 + k.1 + ws_len(advance(s, 1 + k.1)) as int;
                if pc >= s.len() || s[pc] != ':' {
                    None
                } else {
                    let pv: int = pc + 1 + ws_len(advance(s, pc + 1)) as int;
                    if pv >= s.len() {
                        None
                    } else if k.0 == key {
                        if found is Some {
                            None
                        } else if s[pv] != '"' {
                            None
                        } else {
                            match parse_string_rest(advance(s, pv + 1)) {
                                None => None,
                                Some(v) => parse_top_after_value(s, key, Some(v.0), pv + 1 + v.1),
                            }
                        }
                    } else {
                        match parse_value(advance(s, pv), member_value_depth()) {
                            None => None,
                            Some(vn) => parse_top_after_value(s, key, found, pv + vn),
                        }
                    }
                }
            },
        }
    }
}

/// After a member's value in the top-level object: whitespace, then `}`
/// — upon which the document may hold only trailing whitespace — or a
/// comma and the next member. `p` is the position just past the value.
pub open spec fn parse_top_after_value(
    s: Seq<char>,
    key: Seq<char>,
    found: Option<Seq<char>>,
    p: int,
) -> Option<Seq<char>>
    decreases s.len(), 0int,
{
    let pe: int = p + ws_len(advance(s, p)) as int;
    if p < 1 || pe >= s.len() {
        None
    } else if s[pe] == '}' {
        if ws_len(advance(s, pe + 1)) == advance(s, pe + 1).len() {
            found
        } else {
            None
        }
    } else if s[pe] == ',' {
        let pm: int = pe + 1 + ws_len(advance(s, pe + 1)) as int;
        parse_top_members(advance(s, pm), key, found)
    } else {
        None
    }
}

/// Decode a document the way the handler accepts it: a JSON object whose
/// member `key` holds a string and occurs exactly once, with any other
/// members carrying arbitrary valid JSON that is ignored, and nothing but
/// whitespace around the object. Returns the decoded value of the `key`
/// member.
pub open spec fn parse_object_spec(s: Seq<char>, key: Seq<char>) -> Option<Seq<char>> {
    let w = ws_len(s) as int;
    if w >= s.len() || s[w] != '{' {
        None
    } else {
        let p: int = w + 1 + ws_len(advance(s, w + 1)) as int;
        if p >= s.len() {
            None
        } else if s[p] == '}' {
            None
        } else {
            parse_top_members(advance(s, p), key, None)
        }
    }
}

/// The view of a value that may have been found while walking members.
pub open spec fn found_view(found: Option<Vec<char>>) -> Option<Seq<char>> {
    match found {
        Some(f) => Some(f@),
        None => None,
    }
}

// ---------------------------------------------------------------------------
// Executable helpers
// ---------------------------------------------------------------------------

/// Whether a character is JSON whitespace.
fn is_ws_char(c: char) -> (r: bool)
    ensures
        r == is_json_ws(c),
{
    c == ' ' || c == '\t' || c == '\n' || c == '\r'
}

/// The value of a hexadecimal digit, or `None` for any other character.
fn hex_val_of(c: char) -> (r: Option<u32>)
    ensures
        match r {
            Some(v) => is_hex_digit(c) && v as int == hex_val(c) && v < 16,
            None => !is_hex_digit(c),
        },
{
    let u: u32 = c as u32;
    if 48 <= u && u <= 57 {
        Some(u - 48)
    } else if 97 <= u && u <= 102 {
        Some(u - 87)
    } else if 65 <= u && u <= 70 {
        Some(u - 55)
    } else {
        None
    }
}

/// The lowercase hexadecimal digit for a value below sixteen.
fn hex_digit_of(v: u32) -> (c: char)
    requires
        v < 16,
    ensures
        c == hex_digit_char(v as int),
{
    if v < 10 {
        ((48 + v) as u8) as char
    } else {
        ((87 + v) as u8) as char
    }
}

/// The character a short escape stands for, if any.
fn simple_unescape_of(e: char) -> (r: Option<char>)
    ensures
        r == simple_unescape(e),
{
    if e == '"' {
        Some('"')
    } else if e == '\\' {
        Some('\\')
    } else if e == '/' {
        Some('/')
    } else if e == 'b' {
        Some('\u{08}')
    } else if e == 'f' {
        Some('\u{0c}')
    } else if e == 'n' {
        Some('\n')
    } else if e == 'r' {
        Some('\r')
    } else if e == 't' {
        Some('\t')
    } else {
        None
    }
}

/// Whether two character vectors hold the same characters.
fn chars_eq(a: &Vec<char>, b: &Vec<char>) -> (r: bool)
    ensures
        r == (a@ == b@),
{
    if a.len() != b.len() {
        return false;
    }
    let mut i: usize = 0;
    while i < a.len()
        invariant
            i <= a@.len(),
            a@.len() == b@.len(),
            forall|j: int| 0 <= j < i ==> a@[j] == b@[j],
        decreases a@.len() - i,
    {
        if a[i] != b[i] {
            return false;
        }
        i += 1;
    }
    proof {
        assert(a@ =~= b@);
    }
    true
}

/// The index just past the whitespace at or after `start`.
fn skip_ws_from(v: &Vec<char>, start: usize) -> (i: usize)
    requires
        start <= v@.len(),
    ensures
        start <= i <= v@.len(),
        i as int == start as int + ws_len(v@.skip(start as int)) as int,
{
    let mut i: usize = start;
    while i < v.len()
        invariant
            start <= i <= v@.len(),
            ws_len(v@.skip(start as int)) as int == i - start + ws_len(v@.skip(i as int)) as int,
        decreases v@.len() - i,
    {
        if !is_ws_char(v[i]) {
            proof {
                assert(ws_len(v@.skip(i as int)) == 0);
            }
            return i;
        }
        proof {
            assert(v@.skip(i as int).skip(1) =~= v@.skip(i as int + 1));
        }
        i += 1;
    }
    proof {
        assert(v@.skip(i as int) =~= Seq::<char>::empty());
        assert(ws_len(Seq::<char>::empty()) == 0);
    }
    i
}

/// Decimal digits.
fn is_digit_char(c: char) -> (r: bool)
    ensures
        r == is_digit(c),
{
    proof {
        lemma_char_code(c);
    }
    let u: u32 = c as u32;
    48 <= u && u <= 57
}

/// The index just past the decimal digits at or after `start`.
fn count_digits_from(v: &Vec<char>, start: usize) -> (i: usize)
    requires
        start <= v@.len(),
    ensures
        start <= i <= v@.len(),
        i as int == start as int + digits_len(v@.skip(start as int)) as int,
{
    let mut i: usize = start;
    while i < v.len()
        invariant
            start <= i <= v@.len(),
            digits_len(v@.skip(start as int)) as int == i - start + digits_len(
                v@.skip(i as int),
            ) as int,
        decreases v@.len() - i,
    {
        if !is_digit_char(v[i]) {
            proof {
                assert(digits_len(v@.skip(i as int)) == 0);
            }
            return i;
        }
        proof {
            assert(v@.skip(i as int).skip(1) =~= v@.skip(i as int + 1));
        }
        i += 1;
    }
    proof {
        assert(v@.skip(i as int) =~= Seq::<char>::empty());
        assert(digits_len(Seq::<char>::empty()) == 0);
    }
    i
}

/// Executable counterpart of [`parse_string_rest`], working at an index
/// into a character vector. On success it returns the decoded content and
/// the number of characters consumed, the closing quote included.
pub fn parse_string_from(v: &Vec<char>, start: usize) -> (r: Option<(Vec<char>, usize)>)
    requires
        start <= v@.len(),
    ensures
        match r {
            Some(p) => parse_string_rest(v@.skip(start as int)) == Some((p.0@, p.1 as int))
                && start + p.1 <= v@.len(),
            None => parse_string_rest(v@.skip(start as int)) is None,
        },
{
    proof {
        reveal(parse_string_rest);
    }
    let mut acc: Vec<char> = Vec::new();
    let mut i: usize = start;
    loop
        invariant
            start <= i <= v@.len(),
            match parse_string_rest(v@.skip(i as int)) {
                Some(t) => parse_string_rest(v@.skip(start as int)) == Some(
                    (acc@ + t.0, i - start + t.1),
                ),
                None => parse_string_rest(v@.skip(start as int)) is None,
            },
        decreases v@.len() - i,
    {
        proof {
            reveal(parse_string_rest);
        }
        if i == v.len() {
            proof {
                assert(v@.skip(i as int) =~= Seq::<char>::empty());
            }
            return None;
        }
        let c = v[i];
        if c == '"' {
            proof {
                assert(acc@ + Seq::<char>::empty() =~= acc@);
            }
            return Some((acc, i + 1 - start));
        }
        if c == '\\' {
            if v.len() - i < 2 {
                proof {
                    assert(v@.skip(i as int).len() < 2);
                }
                return None;
            }
            let e = v[i + 1];
            if e == 'u' {
                proof {
                    assert(v@.skip(i as int).skip(2) =~= v@.skip(i as int + 2));
                }
                if v.len() - i < 6 {
                    return None;
                }
                let h0 = hex_val_of(v[i + 2]);
                let h1 = hex_val_of(v[i + 3]);
                let h2 = hex_val_of(v[i + 4]);
                let h3 = hex_val_of(v[i + 5]);
                if h0.is_none() || h1.is_none() || h2.is_none() || h3.is_none() {
                    return None;
                }
                let hi: u32 = h0.unwrap() * 0x1000 + h1.unwrap() * 0x100 + h2.unwrap() * 0x10
                    + h3.unwrap();
                proof {
                    assert(is_hex4(v@.skip(i as int + 2)));
                    assert(hex4_val(v@.skip(i as int + 2)) == hi as int);
                }
                if 0xD800 <= hi && hi < 0xDC00 {
                    if v.len() - i < 12 {
                        return None;
                    }
                    proof {
                        assert(v@.skip(i as int).skip(8) =~= v@.skip(i as int + 8));
                    }
                    if v[i + 6] != '\\' || v[i + 7] != 'u' {
                        return None;
                    }
                    let g0 = hex_val_of(v[i + 8]);
                    let g1 = hex_val_of(v[i + 9]);
                    let g2 = hex_val_of(v[i + 10]);
                    let g3 = hex_val_of(v[i + 11]);
                    if g0.is_none() || g1.is_none() || g2.is_none() || g3.is_none() {
                        return None;
                    }
                    let lo: u32 = g0.unwrap() * 0x1000 + g1.unwrap() * 0x100 + g2.unwrap() * 0x10
                        + g3.unwrap();
                    proof {
                        assert(is_hex4(v@.skip(i as int + 8)));
                        assert(hex4_val(v@.skip(i as int + 8)) == lo as int);
                    }
                    if !(0xDC00 <= lo && lo < 0xE000) {
                        return None;
                    }
                    let cp: u32 = 0x10000 + (hi - 0xD800) * 0x400 + (lo - 0xDC00);
                    let ch = char::from_u32(cp).unwrap();
                    let ghost acc_pre = acc@;
                    acc.push(ch);
                    proof {
                        vstd::utf8::char_u32_cast(ch, cp);
                        assert(ch == cp as char);
                        assert(v@.skip(i as int).skip(12) =~= v@.skip(i as int + 12));
                        lemma_invariant_step(v@, start as int, i as int, acc_pre, ch, 12);
                        assert(acc@ =~= acc_pre + seq![ch]);
                    }
                    i = i + 12;
                } else if 0xDC00 <= hi && hi < 0xE000 {
                    return None;
                } else {
                    let ch = char::from_u32(hi).unwrap();
                    let ghost acc_pre = acc@;
                    acc.push(ch);
                    proof {
                        vstd::utf8::char_u32_cast(ch, hi);
                        assert(ch == hi as char);
                        assert(v@.skip(i as int).skip(6) =~= v@.skip(i as int + 6));
                        lemma_invariant_step(v@, start as int, i as int, acc_pre, ch, 6);
                        assert(acc@ =~= acc_pre + seq![ch]);
                    }
                    i = i + 6;
                }
            } else {
                match simple_unescape_of(e) {
                    None => {
                        return None;
                    },
                    Some(sc) => {
                        let ghost acc_pre = acc@;
                        acc.push(sc);
                        proof {
                            assert(v@.skip(i as int).skip(2) =~= v@.skip(i as int + 2));
                            lemma_invariant_step(v@, start as int, i as int, acc_pre, sc, 2);
                            assert(acc@ =~= acc_pre + seq![sc]);
                        }
                        i = i + 2;
                    },
                }
            }
        } else if (c as u32) < 0x20 {
            proof {
                lemma_char_code(c);
            }
            return None;
        } else {
            let ghost acc_pre = acc@;
            acc.push(c);
            proof {
                lemma_char_code(c);
                assert(v@.skip(i as int).skip(1) =~= v@.skip(i as int + 1));
                lemma_invariant_step(v@, start as int, i as int, acc_pre, c, 1);
                assert(acc@ =~= acc_pre + seq![c]);
            }
            i = i + 1;
        }
    }
}

/// The code point of a character is unchanged by a cast through `u32`.
proof fn lemma_char_code(c: char)
    ensures
        (c as u32) as int == c as int,
{
}

/// One step of the string-parsing loop: when the suffix at `i` starts
/// with a token of `width` characters that decodes to `decoded`, the
/// accumulated relation between the suffix at `start` and the suffix past
/// the token is preserved with `decoded` appended to the accumulator.
proof fn lemma_invariant_step(
    s: Seq<char>,
    start: int,
    i: int,
    acc: Seq<char>,
    decoded: char,
    width: int,
)
    requires
        0 <= start <= i,
        i + width <= s.len(),
        width >= 1,
        parse_string_rest(s.skip(i)) == (match parse_string_rest(s.skip(i + width)) {
            Some(t) => Some::<(Seq<char>, int)>((seq![decoded] + t.0, width + t.1)),
            None => None::<(Seq<char>, int)>,
        }),
        match parse_string_rest(s.skip(i)) {
            Some(t) => parse_string_rest(s.skip(start)) == Some(
                (acc + t.0, i - start + t.1),
            ),
            None => parse_string_rest(s.skip(start)) is None,
        },
    ensures
        match parse_string_rest(s.skip(i + width)) {
            Some(t) => parse_string_rest(s.skip(start)) == Some(
                ((acc + seq![decoded]) + t.0, i + width - start + t.1),
            ),
            None => parse_string_rest(s.skip(start)) is None,
        },
{
    match parse_string_rest(s.skip(i + width)) {
        Some(t) => {
            assert((acc + seq![decoded]) + t.0 =~= acc + (seq![decoded] + t.0));
        },
        None => {},
    }
}

/// Executable counterpart of [`parse_number`].
#[verifier::rlimit(100)]
fn parse_number_from(v: &Vec<char>, start: usize) -> (r: Option<usize>)
    requires
        start <= v@.len(),
    ensures
        match r {
            Some(n) => parse_number(v@.skip(start as int)) == Some(n as int) && 1 <= n && start
                + n <= v@.len(),
            None => parse_number(v@.skip(start as int)) is None,
        },
{
    proof {
        reveal(parse_number);
    }
    let ghost s = v@.skip(start as int);
    let neg: usize = if start < v.len() && v[start] == '-' {
        1
    } else {
        0
    };
    if start + neg == v.len() || !is_digit_char(v[start + neg]) {
        return None;
    }
    proof {
        assert(s.skip(neg as int) =~= v@.skip(start as int + neg as int));
    }
    let int_end: usize = if v[start + neg] == '0' {
        start + neg + 1
    } else {
        count_digits_from(v, start + neg)
    };
    match number_tail_from(v, start, int_end) {
        None => None,
        Some(n) => Some(n),
    }
}

/// Executable counterpart of [`number_tail`].
#[verifier::rlimit(100)]
fn number_tail_from(v: &Vec<char>, start: usize, p1: usize) -> (r: Option<usize>)
    requires
        start <= p1 <= v@.len(),
    ensures
        match r {
            Some(n) => number_tail(v@.skip(start as int), p1 as int - start as int) == Some(
                n as int,
            ) && p1 <= start + n && start + n <= v@.len(),
            None => number_tail(v@.skip(start as int), p1 as int - start as int) is None,
        },
{
    proof {
        reveal(number_tail);
    }
    let ghost s = v@.skip(start as int);
    let mut p2: usize = p1;
    if p1 < v.len() && v[p1] == '.' {
        let fd = count_digits_from(v, p1 + 1);
        proof {
            assert(s.skip(p1 + 1 - start) =~= v@.skip(p1 as int + 1));
        }
        if fd == p1 + 1 {
            return None;
        }
        p2 = fd;
    }
    proof {
        assert(s.skip(p2 - start) =~= v@.skip(p2 as int));
    }
    let mut p3: usize = p2;
    if p2 < v.len() && (v[p2] == 'e' || v[p2] == 'E') {
        let sg: usize = if p2 + 1 < v.len() && (v[p2 + 1] == '+' || v[p2 + 1] == '-') {
            1
        } else {
            0
        };
        let ed = count_digits_from(v, p2 + 1 + sg);
        proof {
            assert(s.skip(p2 + 1 + sg - start) =~= v@.skip(p2 as int + 1 + sg as int));
        }
        if ed == p2 + 1 + sg {
            return None;
        }
        p3 = ed;
    }
    Some(p3 - start)
}

/// Executable counterpart of [`parse_value`]: validate and measure one
/// JSON value. The recursion is bounded by `depth`, as the specification
/// is, so arbitrarily deep documents cannot exhaust the stack.
#[verifier::rlimit(100)]
fn parse_value_from(v: &Vec<char>, start: usize, depth: u32) -> (r: Option<usize>)
    requires
        start <= v@.len(),
    ensures
        match r {
            Some(n) => parse_value(v@.skip(start as int), depth as int) == Some(n as int) && 1
                <= n && start + n <= v@.len(),
            None => parse_value(v@.skip(start as int), depth as int) is None,
        },
    decreases depth, 0int,
{
    proof {
        reveal(parse_value);
    }
    if start == v.len() {
        return None;
    }
    let c = v[start];
    if c == '"' {
        proof {
            assert(v@.skip(start as int).skip(1) =~= v@.skip(start as int + 1));
        }
        match parse_string_from(v, start + 1) {
            None => None,
            Some(p) => Some(1 + p.1),
        }
    } else if c == '{' {
        if depth == 0 {
            return None;
        }
        proof {
            assert(v@.skip(start as int).skip(1) =~= v@.skip(start as int + 1));
        }
        let j = skip_ws_from(v, start + 1);
        if j == v.len() {
            return None;
        }
        if v[j] == '}' {
            return Some(j + 1 - start);
        }
        proof {
            assert(v@.skip(start as int + 1).skip(j - (start + 1)) =~= v@.skip(j as int));
        }
        match parse_members_from(v, j, depth - 1) {
            None => None,
            Some(n) => Some(j + n - start),
        }
    } else if c == '[' {
        if depth == 0 {
            return None;
        }
        proof {
            assert(v@.skip(start as int).skip(1) =~= v@.skip(start as int + 1));
        }
        let j = skip_ws_from(v, start + 1);
        if j == v.len() {
            return None;
        }
        if v[j] == ']' {
            return Some(j + 1 - start);
        }
        proof {
            assert(v@.skip(start as int + 1).skip(j - (start + 1)) =~= v@.skip(j as int));
        }
        match parse_elements_from(v, j, depth - 1) {
            None => None,
            Some(n) => Some(j + n - start),
        }
    } else {
        parse_scalar_from(v, start, depth)
    }
}

/// The scalar cases of [`parse_value_from`]: a string, a literal or a
/// number, but not a container.
#[verifier::rlimit(100)]
fn parse_scalar_from(v: &Vec<char>, start: usize, depth: u32) -> (r: Option<usize>)
    requires
        start < v@.len(),
        v@[start as int] != '{',
        v@[start as int] != '[',
        v@[start as int] != '"',
    ensures
        match r {
            Some(n) => parse_value(v@.skip(start as int), depth as int) == Some(n as int) && 1
                <= n && start + n <= v@.len(),
            None => parse_value(v@.skip(start as int), depth as int) is None,
        },
{
    proof {
        reveal(parse_value);
    }
    let c = v[start];
    if c == 't' {
        if v.len() - start >= 4 && v[start + 1] == 'r' && v[start + 2] == 'u' && v[start + 3]
            == 'e' {
            Some(4)
        } else {
            None
        }
    } else if c == 'f' {
        if v.len() - start >= 5 && v[start + 1] == 'a' && v[start + 2] == 'l' && v[start + 3]
            == 's' && v[start + 4] == 'e' {
            Some(5)
        } else {
            None
        }
    } else if c == 'n' {
        if v.len() - start >= 4 && v[start + 1] == 'u' && v[start + 2] == 'l' && v[start + 3]
            == 'l' {
            Some(4)
        } else {
            None
        }
    } else if c == '-' || is_digit_char(c) {
        parse_number_from(v, start)
    } else {
        None
    }
}

/// Executable counterpart of [`parse_members`]: walk the members of a
/// skipped object.
#[verifier::rlimit(100)]
fn parse_members_from(v: &Vec<char>, start: usize, depth: u32) -> (r: Option<usize>)
    requires
        start <= v@.len(),
    ensures
        match r {
            Some(n) => parse_members(v@.skip(start as int), depth as int) == Some(n as int) && 1
                <= n && start + n <= v@.len(),
            None => parse_members(v@.skip(start as int), depth as int) is None,
        },
    decreases depth, 1int,
{
    let mut cur: usize = start;
    loop
        invariant
            start <= cur <= v@.len(),
            match parse_members(v@.skip(cur as int), depth as int) {
                Some(n) => parse_members(v@.skip(start as int), depth as int) == Some(
                    cur - start + n,
                ),
                None => parse_members(v@.skip(start as int), depth as int) is None,
            },
        decreases v@.len() - cur,
    {
        proof {
            reveal(parse_value);
        }
        if cur == v.len() {
            proof {
                assert(v@.skip(cur as int) =~= Seq::<char>::empty());
            }
            return None;
        }
        if v[cur] != '"' {
            return None;
        }
        let ghost sc = v@.skip(cur as int);
        proof {
            assert(sc.skip(1) =~= v@.skip(cur as int + 1));
        }
        match parse_string_from(v, cur + 1) {
            None => {
                return None;
            },
            Some(kp) => {
                let kn = kp.1;
                proof {
                    assert(advance(sc, 1 + kn as int) =~= v@.skip(cur as int + 1 + kn as int));
                }
                let a = skip_ws_from(v, cur + 1 + kn);
                if a == v.len() || v[a] != ':' {
                    return None;
                }
                proof {
                    assert(advance(sc, a + 1 - cur) =~= v@.skip(a as int + 1));
                }
                let b = skip_ws_from(v, a + 1);
                if b == v.len() {
                    return None;
                }
                proof {
                    assert(advance(sc, b - cur) =~= v@.skip(b as int));
                }
                match parse_value_from(v, b, depth) {
                    None => {
                        return None;
                    },
                    Some(vn) => {
                        proof {
                            assert(advance(sc, b + vn - cur) =~= v@.skip(b as int + vn as int));
                        }
                        let e = skip_ws_from(v, b + vn);
                        if e == v.len() {
                            return None;
                        }
                        if v[e] == '}' {
                            return Some(e + 1 - start);
                        }
                        if v[e] != ',' {
                            return None;
                        }
                        proof {
                            assert(advance(sc, e + 1 - cur) =~= v@.skip(e as int + 1));
                        }
                        let m = skip_ws_from(v, e + 1);
                        proof {
                            assert(advance(sc, m - cur) =~= v@.skip(m as int));
                        }
                        cur = m;
                    },
                }
            },
        }
    }
}

/// Executable counterpart of [`parse_elements`]: walk the elements of a
/// skipped array.
#[verifier::rlimit(100)]
fn parse_elements_from(v: &Vec<char>, start: usize, depth: u32) -> (r: Option<usize>)
    requires
        start <= v@.len(),
    ensures
        match r {
            Some(n) => parse_elements(v@.skip(start as int), depth as int) == Some(n as int) && 1
                <= n && start + n <= v@.len(),
            None => parse_elements(v@.skip(start as int), depth as int) is None,
        },
    decreases depth, 1int,
{
    let mut cur: usize = start;
    loop
        invariant
            start <= cur <= v@.len(),
            match parse_elements(v@.skip(cur as int), depth as int) {
                Some(n) => parse_elements(v@.skip(start as int), depth as int) == Some(
                    cur - start + n,
                ),
                None => parse_elements(v@.skip(start as int), depth as int) is None,
            },
        decreases v@.len() - cur,
    {
        proof {
            reveal(parse_value);
        }
        if cur == v.len() {
            proof {
                assert(v@.skip(cur as int) =~= Seq::<char>::empty());
            }
            return None;
        }
        let ghost sc = v@.skip(cur as int);
        match parse_value_from(v, cur, depth) {
            None => {
                return None;
            },
            Some(vn) => {
                proof {
                    assert(advance(sc, vn as int) =~= v@.skip(cur as int + vn as int));
                }
                let e = skip_ws_from(v, cur + vn);
                if e == v.len() {
                    return None;
                }
                if v[e] == ']' {
                    return Some(e + 1 - start);
                }
                if v[e] != ',' {
                    return None;
                }
                proof {
                    assert(advance(sc, e + 1 - cur) =~= v@.skip(e as int + 1));
                }
                let m = skip_ws_from(v, e + 1);
                proof {
                    assert(advance(sc, m - cur) =~= v@.skip(m as int));
                }
                cur = m;
            },
        }
    }
}

/// Executable counterpart of [`parse_object_spec`]: decode the document
/// and return the value of the `key` member.
#[verifier::rlimit(100)]
pub fn parse_object_chars(v: &Vec<char>, key: &Vec<char>) -> (r: Option<Vec<char>>)
    ensures
        match r {
            Some(val) => parse_object_spec(v@, key@) == Some(val@),
            None => parse_object_spec(v@, key@) is None,
        },
{
    proof {
        assert(v@.skip(0) =~= v@);
    }
    let w = skip_ws_from(v, 0);
    if w == v.len() || v[w] != '{' {
        return None;
    }
    proof {
        assert(advance(v@, w as int + 1) =~= v@.skip(w as int + 1));
    }
    let p = skip_ws_from(v, w + 1);
    if p == v.len() {
        return None;
    }
    if v[p] == '}' {
        return None;
    }
    proof {
        assert(advance(v@, p as int) =~= v@.skip(p as int));
    }
    let ghost m0 = p as int;
    let mut cur: usize = p;
    let mut found: Option<Vec<char>> = None;
    loop
        invariant
            m0 <= cur <= v@.len(),
            parse_object_spec(v@, key@) == parse_top_members(v@.skip(m0), key@, None),
            parse_top_members(v@.skip(m0), key@, None) == parse_top_members(
                v@.skip(cur as int),
                key@,
                found_view(found),
            ),
        decreases v@.len() - cur,
    {
        if cur == v.len() {
            proof {
                assert(v@.skip(cur as int) =~= Seq::<char>::empty());
            }
            return None;
        }
        if v[cur] != '"' {
            return None;
        }
        let ghost sc = v@.skip(cur as int);
        proof {
            assert(sc.skip(1) =~= v@.skip(cur as int + 1));
        }
        match parse_string_from(v, cur + 1) {
            None => {
                return None;
            },
            Some(kp) => {
                let (kchars, kn) = kp;
                proof {
                    assert(advance(sc, 1 + kn as int) =~= v@.skip(cur as int + 1 + kn as int));
                }
                let a = skip_ws_from(v, cur + 1 + kn);
                if a == v.len() || v[a] != ':' {
                    return None;
                }
                proof {
                    assert(advance(sc, a + 1 - cur) =~= v@.skip(a as int + 1));
                }
                let b = skip_ws_from(v, a + 1);
                if b == v.len() {
                    return None;
                }
                let vend: usize;
                if chars_eq(&kchars, key) {
                    if found.is_some() {
                        return None;
                    }
                    if v[b] != '"' {
                        return None;
                    }
                    proof {
                        assert(advance(sc, b + 1 - cur) =~= v@.skip(b as int + 1));
                    }
                    match parse_string_from(v, b + 1) {
                        None => {
                            return None;
                        },
                        Some(vp) => {
                            let (vchars, vn) = vp;
                            found = Some(vchars);
                            vend = b + 1 + vn;
                        },
                    }
                } else {
                    proof {
                        assert(advance(sc, b - cur) =~= v@.skip(b as int));
                        assert(126int == member_value_depth());
                    }
                    match parse_value_from(v, b, 126) {
                        None => {
                            return None;
                        },
                        Some(vn) => {
                            vend = b + vn;
                        },
                    }
                }
                proof {
                    assert(advance(sc, vend - cur) =~= v@.skip(vend as int));
                }
                let e = skip_ws_from(v, vend);
                if e == v.len() {
                    return None;
                }
                if v[e] == '}' {
                    proof {
                        assert(advance(sc, e + 1 - cur) =~= v@.skip(e as int + 1));
                    }
                    let t = skip_ws_from(v, e + 1);
                    if t != v.len() {
                        return None;
                    }
                    match found {
                        None => {
                            return None;
                        },
                        Some(f) => {
                            return Some(f);
                        },
                    }
                }
                if v[e] != ',' {
                    return None;
                }
                proof {
                    assert(advance(sc, e + 1 - cur) =~= v@.skip(e as int + 1));
                }
                let m = skip_ws_from(v, e + 1);
                proof {
                    assert(advance(sc, m - cur) =~= v@.skip(m as int));
                }
                cur = m;
            },
        }
    }
}

// ---------------------------------------------------------------------------
// Executable serialization
// ---------------------------------------------------------------------------

/// Escaping distributes over concatenation.
pub proof fn lemma_escape_append(a: Seq<char>, b: Seq<char>)
    ensures
        escape_string(a + b) == escape_string(a) + escape_string(b),
    decreases a.len(),
{
    if a.len() == 0 {
        assert(a + b =~= b);
        assert(escape_string(a) + escape_string(b) =~= escape_string(b));
    } else {
        lemma_escape_append(a.skip(1), b);
        assert((a + b).skip(1) =~= a.skip(1) + b);
        assert(escape_string(a + b) =~= escape_string(a) + escape_string(b));
    }
}

/// Escaping a single character yields that character's escape.
proof fn lemma_escape_one(c: char)
    ensures
        escape_string(seq![c]) == escape_char(c),
{
    assert(seq![c].skip(1) =~= Seq::<char>::empty());
    assert(escape_string(Seq::<char>::empty()) =~= Seq::<char>::empty());
    assert(escape_char(c) + Seq::<char>::empty() =~= escape_char(c));
    assert(escape_string(seq![c]) =~= escape_char(c));
}

/// Append a JSON string token for `content` to `out`: an opening quote,
/// the escaped content, a closing quote.
pub fn write_quoted(out: &mut String, content: &Vec<char>)
    ensures
        final(out)@ == old(out)@ + quoted(content@),
{
    let ghost base = out@;
    out.push('"');
    let mut j: usize = 0;
    while j < content.len()
        invariant
            j <= content@.len(),
            out@ == base + seq!['"'] + escape_string(content@.subrange(0, j as int)),
        decreases content@.len() - j,
    {
        let c = content[j];
        let ghost mid = out@;
        if c == '"' {
            out.push('\\');
            out.push('"');
        } else if c == '\\' {
            out.push('\\');
            out.push('\\');
        } else if c == '\u{08}' {
            out.push('\\');
            out.push('b');
        } else if c == '\t' {
            out.push('\\');
            out.push('t');
        } else if c == '\n' {
            out.push('\\');
            out.push('n');
        } else if c == '\u{0c}' {
            out.push('\\');
            out.push('f');
        } else if c == '\r' {
            out.push('\\');
            out.push('r');
        } else if (c as u32) < 0x20 {
            let u: u32 = c as u32;
            out.push('\\');
            out.push('u');
            out.push('0');
            out.push('0');
            out.push(hex_digit_of(u / 16));
            out.push(hex_digit_of(u % 16));
            proof {
                lemma_char_code(c);
            }
        } else {
            out.push(c);
            proof {
                lemma_char_code(c);
            }
        }
        proof {
            assert(out@ =~= mid + escape_char(c));
            lemma_escape_append(content@.subrange(0, j as int), seq![c]);
            lemma_escape_one(c);
            assert(content@.subrange(0, j as int) + seq![c] =~= content@.subrange(
                0,
                j as int + 1,
            ));
            assert(out@ =~= base + seq!['"'] + escape_string(content@.subrange(0, j as int + 1)));
        }
        j += 1;
    }
    out.push('"');
    proof {
        assert(content@.subrange(0, content@.len() as int) =~= content@);
        assert(out@ =~= base + quoted(content@));
    }
}

/// The compact serialization of `{ "<key>": "<value>" }`, escaping both
/// the key and the value as JSON requires.
pub fn serialize_object(key: &Vec<char>, value: &Vec<char>) -> (out: String)
    ensures
        out@ == serialize_object_spec(key@, value@),
{
    let mut out = String::new();
    out.push('{');
    write_quoted(&mut out, key);
    out.push(':');
    write_quoted(&mut out, value);
    out.push('}');
    proof {
        assert(out@ =~= serialize_object_spec(key@, value@));
    }
    out
}

// ---------------------------------------------------------------------------
// Round trip
// ---------------------------------------------------------------------------

/// A character below the surrogate range is recovered from its code.
proof fn lemma_code_char(v: int)
    requires
        0 <= v < 0xD800,
    ensures
        (v as char) as int == v,
{
}

/// A character is recovered from its code point.
proof fn lemma_char_int(c: char)
    ensures
        (c as int) as char == c,
{
}

/// `hex_digit_char` produces hexadecimal digits with the intended value.
proof fn lemma_hex_digit_char(v: int)
    requires
        0 <= v < 16,
    ensures
        is_hex_digit(hex_digit_char(v)),
        hex_val(hex_digit_char(v)) == v,
{
    if v < 10 {
        lemma_code_char(48 + v);
    } else {
        lemma_code_char(87 + v);
    }
}

/// Parsing inverts escaping: an escaped string followed by its closing
/// quote (and anything after it) parses back to the unescaped string, with
/// exactly the token consumed.
pub proof fn lemma_parse_escaped(m: Seq<char>, rest: Seq<char>)
    ensures
        parse_string_rest(escape_string(m) + seq!['"'] + rest) == Some(
            (m, escape_string(m).len() as int + 1),
        ),
    decreases m.len(),
{
    reveal(parse_string_rest);
    let s = escape_string(m) + seq!['"'] + rest;
    if m.len() == 0 {
        assert(escape_string(m) =~= Seq::<char>::empty());
        assert(s =~= seq!['"'] + rest);
        assert(s[0] == '"');
        assert(m =~= Seq::<char>::empty());
    } else {
        let c = m[0];
        let e0 = escape_char(c);
        let etail = escape_string(m.skip(1));
        lemma_parse_escaped(m.skip(1), rest);
        let s2 = etail + seq!['"'] + rest;
        assert(s =~= e0 + s2);
        assert(seq![c] + m.skip(1) =~= m);
        lemma_char_int(c);
        if c == '"' {
            assert(s[0] == '\\' && s[1] == '"');
            assert(s.skip(2) =~= s2);
        } else if c == '\\' {
            assert(s[0] == '\\' && s[1] == '\\');
            assert(s.skip(2) =~= s2);
        } else if c == '\u{08}' {
            assert(s[0] == '\\' && s[1] == 'b');
            assert(s.skip(2) =~= s2);
        } else if c == '\t' {
            assert(s[0] == '\\' && s[1] == 't');
            assert(s.skip(2) =~= s2);
        } else if c == '\n' {
            assert(s[0] == '\\' && s[1] == 'n');
            assert(s.skip(2) =~= s2);
        } else if c == '\u{0c}' {
            assert(s[0] == '\\' && s[1] == 'f');
            assert(s.skip(2) =~= s2);
        } else if c == '\r' {
            assert(s[0] == '\\' && s[1] == 'r');
            assert(s.skip(2) =~= s2);
        } else if (c as int) < 0x20 {
            let cc = c as int;
            assert(s[0] == '\\' && s[1] == 'u');
            assert(s[2] == '0' && s[3] == '0');
            assert(s[4] == hex_digit_char(cc / 16) && s[5] == hex_digit_char(cc % 16));
            lemma_hex_digit_char(cc / 16);
            lemma_hex_digit_char(cc % 16);
            assert(s.skip(2)[0] == '0' && s.skip(2)[1] == '0' && s.skip(2)[2] == s[4] && s.skip(
                2,
            )[3] == s[5]);
            assert(is_hex_digit('0') && hex_val('0') == 0);
            assert(is_hex4(s.skip(2)));
            assert(hex4_val(s.skip(2)) == (cc / 16) * 0x10 + cc % 16);
            assert((cc / 16) * 0x10 + cc % 16 == cc);
            assert(s.skip(6) =~= s2);
            assert(seq![cc as char] + m.skip(1) =~= m);
        } else {
            assert(is_plain_char(c));
            assert(s[0] == c);
            assert(s.skip(1) =~= s2);
        }
    }
}

/// Serializing an object and parsing it back with the same key yields
/// exactly the serialized value.
#[verifier::rlimit(100)]
pub proof fn lemma_object_round_trip(key: Seq<char>, value: Seq<char>)
    ensures
        parse_object_spec(serialize_object_spec(key, value), key) == Some(value),
{
    let s = serialize_object_spec(key, value);
    let ek = escape_string(key);
    let ev = escape_string(value);
    let rest1 = seq![':'] + quoted(value) + seq!['}'];
    let qv = quoted(value) + seq!['}'];
    assert(s =~= seq!['{'] + (quoted(key) + rest1));
    assert(s[0] == '{');
    assert(ws_len(s) == 0);
    let t1 = s.skip(1);
    assert(advance(s, 1) =~= t1);
    assert(t1 =~= quoted(key) + rest1);
    assert(quoted(key).len() == ek.len() + 2);
    assert(t1[0] == '"');
    assert(ws_len(t1) == 0);
    assert(s[1] == '"');
    // the key string
    assert(t1.skip(1) =~= ek + seq!['"'] + rest1);
    lemma_parse_escaped(key, rest1);
    let nk: int = ek.len() as int + 1;
    assert(parse_string_rest(t1.skip(1)) == Some((key, nk)));
    // the colon
    assert(advance(t1, 1 + nk) =~= rest1);
    assert(ws_len(rest1) == 0);
    assert(t1[1 + nk] == ':');
    // the value string
    assert(advance(t1, nk + 2) =~= qv);
    assert(ws_len(qv) == 0);
    assert(t1[nk + 2] == '"');
    assert(t1.skip(nk + 3) =~= ev + seq!['"'] + seq!['}']);
    assert(advance(t1, nk + 3) =~= ev + seq!['"'] + seq!['}']);
    lemma_parse_escaped(value, seq!['}']);
    let nv: int = ev.len() as int + 1;
    assert(parse_string_rest(advance(t1, nk + 3)) == Some((value, nv)));
    // the closing brace and the end of the document
    assert(t1.len() == nk + nv + 4);
    assert(advance(t1, nk + 3 + nv) =~= seq!['}']);
    assert(ws_len(seq!['}']) == 0);
    assert(t1[nk + 3 + nv] == '}');
    assert(advance(t1, nk + nv + 4) =~= Seq::<char>::empty());
    assert(ws_len(Seq::<char>::empty()) == 0);
    assert(parse_top_after_value(t1, key, Some(value), nk + 3 + nv) == Some(value));
    assert(parse_top_members(t1, key, None) == Some(value));
    assert(parse_object_spec(s, key) == Some(value));
}

} // verus!

