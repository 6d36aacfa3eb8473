//! The grammar of the garage payload: JSON lexing and parsing functions at
//! the specification level, and the canonical encoding.
//!
//! Parsing is strict: the whole body must be one JSON object carrying a
//! `garages` array of records with the five known fields; unknown fields are
//! skipped; a duplicated known field, a missing required field, a wrong type
//! or malformed text all reject the body.  Values under unknown fields may
//! nest only to a fixed depth; deeper input is rejected as a parse error.

use vstd::prelude::*;
use crate::garage::GarageModel;

verus! {

broadcast use vstd::seq_lib::lemma_seq_skip_of_skip;

/// Nesting budget for values under unknown fields (two units per level).
pub const VALUE_DEPTH: u32 = 250;

pub open spec fn is_ws(c: char) -> bool {
    c == ' ' || c == '\t' || c == '\n' || c == '\r'
}

pub open spec fn is_digit(c: char) -> bool {
    48 <= c as u32 && c as u32 <= 57
}

pub open spec fn digit_val(c: char) -> nat {
    (c as u32 - 48) as nat
}

pub open spec fn is_hex(c: char) -> bool {
    is_digit(c) || (97 <= c as u32 && c as u32 <= 102) || (65 <= c as u32 && c as u32 <= 70)
}

pub open spec fn hex_val(c: char) -> nat {
    if is_digit(c) {
        digit_val(c)
    } else if 97 <= c as u32 && c as u32 <= 102 {
        (c as u32 - 87) as nat
    } else {
        (c as u32 - 55) as nat
    }
}

/// The character with the given scalar value.
pub open spec fn code_to_char(n: u32) -> char {
    n as char
}

/// Drops leading JSON whitespace.
pub open spec fn skip_ws(s: Seq<char>) -> Seq<char>
    decreases s.len(),
{
    if s.len() > 0 && is_ws(s[0]) {
        skip_ws(s.skip(1))
    } else {
        s
    }
}

/// The character a short escape stands for.
pub open spec fn simple_escape(c: char) -> Option<char> {
    if c == '"' {
        Some('"')
    } else if c == '\\' {
        Some('\\')
    } else if c == '/' {
        Some('/')
    } else if c == 'b' {
        Some('\u{0008}')
    } else if c == 'f' {
        Some('\u{000C}')
    } else if c == 'n' {
        Some('\n')
    } else if c == 'r' {
        Some('\r')
    } else if c == 't' {
        Some('\t')
    } else {
        None
    }
}

pub open spec fn is_hex4(s: Seq<char>) -> bool {
    s.len() == 4 && is_hex(s[0]) && is_hex(s[1]) && is_hex(s[2]) && is_hex(s[3])
}

pub open spec fn hex4_val(s: Seq<char>) -> nat {
    hex_val(s[0]) * 0x1000 + hex_val(s[1]) * 0x100 + hex_val(s[2]) * 16 + hex_val(s[3])
}

pub open spec fn prepend(c: char, r: Option<(Seq<char>, Seq<char>)>) -> Option<(Seq<char>, Seq<char>)> {
    match r {
        Some((t, rest)) => Some((seq![c] + t, rest)),
        None => None,
    }
}

/// Lexes the rest of a JSON string, after its opening quote: yields the
/// decoded content and the remainder after the closing quote.
pub open spec fn lex_string_rest(s: Seq<char>) -> Option<(Seq<char>, Seq<char>)>
    decreases s.len(),
{
    if s.len() == 0 {
        None
    } else if s[0] == '"' {
        Some((Seq::<char>::empty(), s.skip(1)))
    } else if s[0] == '\\' {
        if s.len() < 2 {
            None
        } else if s[1] == 'u' {
            if s.len() >= 6 && is_hex4(s.subrange(2, 6)) {
                let n1 = hex4_val(s.subrange(2, 6));
                if 0xD800 <= n1 && n1 < 0xDC00 {
                    if s.len() >= 12 && s[6] == '\\' && s[7] == 'u' && is_hex4(s.subrange(8, 12)) {
                        let n2 = hex4_val(s.subrange(8, 12));
                        if 0xDC00 <= n2 && n2 < 0xE000 {
                            let code = 0x10000 + (n1 - 0xD800) * 0x400 + (n2 - 0xDC00);
                            prepend(code_to_char(code as u32), lex_string_rest(s.skip(12)))
                        } else {
                            None
                        }
                    } else {
                        None
                    }
                } else if 0xDC00 <= n1 && n1 < 0xE000 {
                    None
                } else {
                    prepend(code_to_char(n1 as u32), lex_string_rest(s.skip(6)))
                }
            } else {
                None
            }
        } else {
            match simple_escape(s[1]) {
                Some(c) => prepend(c, lex_string_rest(s.skip(2))),
                None => None,
            }
        }
    } else if (s[0] as u32) < 0x20 {
        None
    } else {
        prepend(s[0], lex_string_rest(s.skip(1)))
    }
}

/// Splits off the longest prefix of decimal digits.
pub open spec fn lex_digits(s: Seq<char>) -> (Seq<char>, Seq<char>)
    decreases s.len(),
{
    if s.len() > 0 && is_digit(s[0]) {
        let (d, r) = lex_digits(s.skip(1));
        (seq![s[0]] + d, r)
    } else {
        (Seq::<char>::empty(), s)
    }
}

/// The longest run of decimal digits of `s` from `i` on ends where `j` says.
pub proof fn lemma_lex_digits_range(s: Seq<char>, i: int, j: int)
    requires
        0 <= i <= j <= s.len(),
        forall|k: int| i <= k < j ==> is_digit(#[trigger] s[k]),
        j == s.len() || !is_digit(s[j]),
    ensures
        lex_digits(s.skip(i)) == (s.subrange(i, j), s.skip(j)),
    decreases j - i,
{
    if i == j {
        assert(s.subrange(i, j) =~= Seq::<char>::empty());
        if i < s.len() {
            assert(s.skip(i)[0] == s[i]);
        }
    } else {
        lemma_lex_digits_range(s, i + 1, j);
        assert(s.skip(i).skip(1) =~= s.skip(i + 1));
        assert(seq![s[i]] + s.subrange(i + 1, j) =~= s.subrange(i, j));
    }
}

/// The value of a digit string, most significant digit first.
pub open spec fn digits_val(ds: Seq<char>) -> nat
    decreases ds.len(),
{
    if ds.len() == 0 {
        0
    } else {
        digits_val(ds.drop_last()) * 10 + digit_val(ds.last())
    }
}

/// Lexes an unsigned integer that fits a `u16`: plain digits, no leading
/// zero, and not continued as a float or an exponent.
pub open spec fn lex_u16(s: Seq<char>) -> Option<(u16, Seq<char>)> {
    let (ds, r) = lex_digits(s);
    if ds.len() == 0 {
        None
    } else if ds.len() > 1 && ds[0] == '0' {
        None
    } else if r.len() > 0 && (r[0] == '.' || r[0] == 'e' || r[0] == 'E') {
        None
    } else if digits_val(ds) > 0xFFFF {
        None
    } else {
        Some((digits_val(ds) as u16, r))
    }
}

pub open spec fn lex_int_part(s: Seq<char>) -> Option<(Seq<char>, Seq<char>)> {
    let (ds, r) = lex_digits(s);
    if ds.len() == 0 {
        None
    } else if ds.len() > 1 && ds[0] == '0' {
        None
    } else {
        Some((ds, r))
    }
}

pub open spec fn lex_frac(s: Seq<char>) -> Option<(Seq<char>, Seq<char>)> {
    if s.len() > 0 && s[0] == '.' {
        let (ds, r) = lex_digits(s.skip(1));
        if ds.len() == 0 {
            None
        } else {
            Some((seq!['.'] + ds, r))
        }
    } else {
        Some((Seq::<char>::empty(), s))
    }
}

pub open spec fn lex_exp(s: Seq<char>) -> Option<(Seq<char>, Seq<char>)> {
    if s.len() > 0 && (s[0] == 'e' || s[0] == 'E') {
        let sign_len: int = if s.len() >= 2 && (s[1] == '+' || s[1] == '-') {
            2
        } else {
            1
        };
        let (ds, r) = lex_digits(s.skip(sign_len));
        if ds.len() == 0 {
            None
        } else {
            Some((s.subrange(0, sign_len) + ds, r))
        }
    } else {
        Some((Seq::<char>::empty(), s))
    }
}

/// Lexes one JSON number literal: yields its exact text and the remainder.
pub open spec fn lex_number(s: Seq<char>) -> Option<(Seq<char>, Seq<char>)> {
    let sign_len: int = if s.len() > 0 && s[0] == '-' {
        1
    } else {
        0
    };
    match lex_int_part(s.skip(sign_len)) {
        None => None,
        Some((ip, s2)) => match lex_frac(s2) {
            None => None,
            Some((fp, s3)) => match lex_exp(s3) {
                None => None,
                Some((ep, r)) => Some((s.subrange(0, sign_len) + ip + fp + ep, r)),
            },
        },
    }
}

/// Holds when the text is exactly one JSON number literal.
pub open spec fn is_number_token(t: Seq<char>) -> bool {
    lex_number(t) == Some((t, Seq::<char>::empty()))
}

/// Skips one JSON value of any shape, to a bounded nesting depth.
pub open spec fn skip_value(s: Seq<char>, d: nat) -> Option<Seq<char>>
    decreases d, s.len(),
{
    if d == 0 || s.len() == 0 {
        None
    } else if s[0] == '"' {
        match lex_string_rest(s.skip(1)) {
            Some((t, r)) => Some(r),
            None => None,
        }
    } else if s[0] == '{' {
        skip_members(skip_ws(s.skip(1)), (d - 1) as nat, s.len(), true)
    } else if s[0] == '[' {
        skip_elems(skip_ws(s.skip(1)), (d - 1) as nat, s.len(), true)
    } else if s[0] == 't' {
        if s.len() >= 4 && s[1] == 'r' && s[2] == 'u' && s[3] == 'e' {
            Some(s.skip(4))
        } else {
            None
        }
    } else if s[0] == 'f' {
        if s.len() >= 5 && s[1] == 'a' && s[2] == 'l' && s[3] == 's' && s[4] == 'e' {
            Some(s.skip(5))
        } else {
            None
        }
    } else if s[0] == 'n' {
        if s.len() >= 4 && s[1] == 'u' && s[2] == 'l' && s[3] == 'l' {
            Some(s.skip(4))
        } else {
            None
        }
    } else {
        match lex_number(s) {
            Some((t, r)) => Some(r),
            None => None,
        }
    }
}

/// Skips the members of an object being skipped, from just after `{` (with
/// leading whitespace dropped), to the remainder after `}`.
pub open spec fn skip_members(s: Seq<char>, d: nat, n: nat, first: bool) -> Option<Seq<char>>
    decreases d, n,
{
    if s.len() == 0 {
        None
    } else if first && s[0] == '}' {
        Some(s.skip(1))
    } else if n == 0 || d == 0 {
        None
    } else if s[0] == '"' {
        match lex_string_rest(s.skip(1)) {
            None => None,
            Some((k, r1)) => {
                let r2 = skip_ws(r1);
                if r2.len() > 0 && r2[0] == ':' {
                    let r3 = skip_ws(r2.skip(1));
                    match skip_value(r3, (d - 1) as nat) {
                        None => None,
                        Some(r4) => {
                            let r5 = skip_ws(r4);
                            if r5.len() > 0 && r5[0] == ',' {
                                skip_members(skip_ws(r5.skip(1)), d, (n - 1) as nat, false)
                            } else if r5.len() > 0 && r5[0] == '}' {
                                Some(r5.skip(1))
                            } else {
                                None
                            }
                        },
                    }
                } else {
                    None
                }
            },
        }
    } else {
        None
    }
}

/// Skips the elements of an array being skipped, from just after `[` (with
/// leading whitespace dropped), to the remainder after `]`.
pub open spec fn skip_elems(s: Seq<char>, d: nat, n: nat, first: bool) -> Option<Seq<char>>
    decreases d, n,
{
    if s.len() == 0 {
        None
    } else if first && s[0] == ']' {
        Some(s.skip(1))
    } else if n == 0 || d == 0 {
        None
    } else {
        match skip_value(s, (d - 1) as nat) {
            None => None,
            Some(r1) => {
                let r2 = skip_ws(r1);
                if r2.len() > 0 && r2[0] == ',' {
                    skip_elems(skip_ws(r2.skip(1)), d, (n - 1) as nat, false)
                } else if r2.len() > 0 && r2[0] == ']' {
                    Some(r2.skip(1))
                } else {
                    None
                }
            },
        }
    }
}

pub open spec fn key_name() -> Seq<char> {
    "name"@
}

pub open spec fn key_max_spaces() -> Seq<char> {
    "max_spaces"@
}

pub open spec fn key_spaces_filled() -> Seq<char> {
    "spaces_filled"@
}

pub open spec fn key_spaces_left() -> Seq<char> {
    "spaces_left"@
}

pub open spec fn key_percent_full() -> Seq<char> {
    "percent_full"@
}

pub open spec fn key_garages() -> Seq<char> {
    "garages"@
}

/// A garage record in the middle of being read: the fields seen so far.
pub struct PartialGarage {
    pub name: Option<Seq<char>>,
    pub max_spaces: Option<u16>,
    pub spaces_filled: Option<u16>,
    pub spaces_left: Option<u16>,
    pub percent_full: Option<Seq<char>>,
}

pub open spec fn empty_partial() -> PartialGarage {
    PartialGarage {
        name: None,
        max_spaces: None,
        spaces_filled: None,
        spaces_left: None,
        percent_full: None,
    }
}

/// Reads one member of a garage object and folds it into the partial
/// record; a known field may appear once, an unknown field is skipped.
pub open spec fn garage_member_step(k: Seq<char>, r3: Seq<char>, p: PartialGarage) -> Option<
    (PartialGarage, Seq<char>),
> {
    if k == key_name() {
        if p.name is Some {
            None
        } else if r3.len() > 0 && r3[0] == '"' {
            match lex_string_rest(r3.skip(1)) {
                Some((v, r4)) => Some(
                    (
                        PartialGarage {
                            name: Some(v),
                            max_spaces: p.max_spaces,
                            spaces_filled: p.spaces_filled,
                            spaces_left: p.spaces_left,
                            percent_full: p.percent_full,
                        },
                        r4,
                    ),
                ),
                None => None,
            }
        } else {
            None
        }
    } else if k == key_max_spaces() {
        if p.max_spaces is Some {
            None
        } else {
            match lex_u16(r3) {
                Some((v, r4)) => Some(
                    (
                        PartialGarage {
                            name: p.name,
                            max_spaces: Some(v),
                            spaces_filled: p.spaces_filled,
                            spaces_left: p.spaces_left,
                            percent_full: p.percent_full,
                        },
                        r4,
                    ),
                ),
                None => None,
            }
        }
    } else if k == key_spaces_filled() {
        if p.spaces_filled is Some {
            None
        } else {
            match lex_u16(r3) {
                Some((v, r4)) => Some(
                    (
                        PartialGarage {
                            name: p.name,
                            max_spaces: p.max_spaces,
                            spaces_filled: Some(v),
                            spaces_left: p.spaces_left,
                            percent_full: p.percent_full,
                        },
                        r4,
                    ),
                ),
                None => None,
            }
        }
    } else if k == key_spaces_left() {
        if p.spaces_left is Some {
            None
        } else {
            match lex_u16(r3) {
                Some((v, r4)) => Some(
                    (
                        PartialGarage {
                            name: p.name,
                            max_spaces: p.max_spaces,
                            spaces_filled: p.spaces_filled,
                            spaces_left: Some(v),
                            percent_full: p.percent_full,
                        },
                        r4,
                    ),
                ),
                None => None,
            }
        }
    } else if k == key_percent_full() {
        if p.percent_full is Some {
            None
        } else {
            match lex_number(r3) {
                Some((t, r4)) => Some(
                    (
                        PartialGarage {
                            name: p.name,
                            max_spaces: p.max_spaces,
                            spaces_filled: p.spaces_filled,
                            spaces_left: p.spaces_left,
                            percent_full: Some(t),
                        },
                        r4,
                    ),
                ),
                None => None,
            }
        }
    } else {
        match skip_value(r3, VALUE_DEPTH as nat) {
            Some(r4) => Some((p, r4)),
            None => None,
        }
    }
}

pub open spec fn finish_partial(p: PartialGarage) -> Option<GarageModel> {
    match (p.name, p.max_spaces, p.spaces_filled, p.spaces_left, p.percent_full) {
        (Some(nm), Some(mx), Some(fl), Some(lf), Some(pf)) => Some(
            GarageModel {
                name: nm,
                max_spaces: mx,
                spaces_filled: fl,
                spaces_left: lf,
                percent_full: pf,
            },
        ),
        _ => None,
    }
}

/// Parses the members of one garage object, from just after `{` (with
/// leading whitespace dropped); all five known fields must appear.
pub open spec fn parse_garage_members(s: Seq<char>, n: nat, p: PartialGarage) -> Option<
    (GarageModel, Seq<char>),
>
    decreases n,
{
    if s.len() == 0 || n == 0 {
        None
    } else if s[0] == '"' {
        match lex_string_rest(s.skip(1)) {
            None => None,
            Some((k, r1)) => {
                let r2 = skip_ws(r1);
                if r2.len() > 0 && r2[0] == ':' {
                    let r3 = skip_ws(r2.skip(1));
                    match garage_member_step(k, r3, p) {
                        None => None,
                        Some((p2, r4)) => {
                            let r5 = skip_ws(r4);
                            if r5.len() > 0 && r5[0] == ',' {
                                parse_garage_members(skip_ws(r5.skip(1)), (n - 1) as nat, p2)
                            } else if r5.len() > 0 && r5[0] == '}' {
                                match finish_partial(p2) {
                                    Some(g) => Some((g, r5.skip(1))),
                                    None => None,
                                }
                            } else {
                                None
                            }
                        },
                    }
                } else {
                    None
                }
            },
        }
    } else {
        None
    }
}

/// Parses one garage object.
pub open spec fn parse_garage(s: Seq<char>) -> Option<(GarageModel, Seq<char>)> {
    if s.len() > 0 && s[0] == '{' {
        parse_garage_members(skip_ws(s.skip(1)), s.len(), empty_partial())
    } else {
        None
    }
}

/// Parses the elements of the garages array, from its first element.
pub open spec fn parse_garage_elems(s: Seq<char>, n: nat, acc: Seq<GarageModel>) -> Option<
    (Seq<GarageModel>, Seq<char>),
>
    decreases n,
{
    if n == 0 {
        None
    } else {
        match parse_garage(s) {
            None => None,
            Some((g, r1)) => {
                let r2 = skip_ws(r1);
                if r2.len() > 0 && r2[0] == ',' {
                    parse_garage_elems(skip_ws(r2.skip(1)), (n - 1) as nat, acc.push(g))
                } else if r2.len() > 0 && r2[0] == ']' {
                    Some((acc.push(g), r2.skip(1)))
                } else {
                    None
                }
            },
        }
    }
}

/// Parses the garages array, `[` through `]`.
pub open spec fn parse_garages_array(s: Seq<char>) -> Option<(Seq<GarageModel>, Seq<char>)> {
    if s.len() > 0 && s[0] == '[' {
        let r = skip_ws(s.skip(1));
        if r.len() > 0 && r[0] == ']' {
            Some((Seq::<GarageModel>::empty(), r.skip(1)))
        } else {
            parse_garage_elems(r, s.len(), Seq::<GarageModel>::empty())
        }
    } else {
        None
    }
}

/// Parses the members of the envelope object; the `garages` field must
/// appear exactly once, other fields are skipped.
pub open spec fn parse_doc_members(s: Seq<char>, n: nat, found: Option<Seq<GarageModel>>) -> Option<
    (Seq<GarageModel>, Seq<char>),
>
    decreases n,
{
    if s.len() == 0 || n == 0 {
        None
    } else if s[0] == '"' {
        match lex_string_rest(s.skip(1)) {
            None => None,
            Some((k, r1)) => {
                let r2 = skip_ws(r1);
                if r2.len() > 0 && r2[0] == ':' {
                    let r3 = skip_ws(r2.skip(1));
                    let step: Option<(Option<Seq<GarageModel>>, Seq<char>)> = if k
                        == key_garages() {
                        if found is Some {
                            None
                        } else {
                            match parse_garages_array(r3) {
                                Some((gs, r4)) => Some((Some(gs), r4)),
                                None => None,
                            }
                        }
                    } else {
                        match skip_value(r3, VALUE_DEPTH as nat) {
                            Some(r4) => Some((found, r4)),
                            None => None,
                        }
                    };
                    match step {
                        None => None,
                        Some((f2, r4)) => {
                            let r5 = skip_ws(r4);
                            if r5.len() > 0 && r5[0] == ',' {
                                parse_doc_members(skip_ws(r5.skip(1)), (n - 1) as nat, f2)
                            } else if r5.len() > 0 && r5[0] == '}' {
                                match f2 {
                                    Some(gs) => Some((gs, r5.skip(1))),
                                    None => None,
                                }
                            } else {
                                None
                            }
                        },
                    }
                } else {
                    None
                }
            },
        }
    } else {
        None
    }
}

/// Parses a whole response body: the envelope object and nothing after it.
pub open spec fn parse_doc(s: Seq<char>) -> Option<Seq<GarageModel>> {
    let r0 = skip_ws(s);
    if r0.len() > 0 && r0[0] == '{' {
        match parse_doc_members(skip_ws(r0.skip(1)), s.len(), None) {
            Some((gs, r)) => if skip_ws(r).len() == 0 {
                Some(gs)
            } else {
                None
            },
            None => None,
        }
    } else {
        None
    }
}

pub open spec fn digit_char(n: nat) -> char {
    if n == 0 {
        '0'
    } else if n == 1 {
        '1'
    } else if n == 2 {
        '2'
    } else if n == 3 {
        '3'
    } else if n == 4 {
        '4'
    } else if n == 5 {
        '5'
    } else if n == 6 {
        '6'
    } else if n == 7 {
        '7'
    } else if n == 8 {
        '8'
    } else {
        '9'
    }
}

pub open spec fn hex_char(n: nat) -> char {
    if n < 10 {
        digit_char(n)
    } else if n == 10 {
        'a'
    } else if n == 11 {
        'b'
    } else if n == 12 {
        'c'
    } else if n == 13 {
        'd'
    } else if n == 14 {
        'e'
    } else {
        'f'
    }
}

/// How one character of a name is written inside a JSON string: quotes and
/// backslashes are escaped, control characters become `\u00XX`, everything
/// else stands as itself.
pub open spec fn escape_char(c: char) -> Seq<char> {
    if c == '"' {
        seq!['\\', '"']
    } else if c == '\\' {
        seq!['\\', '\\']
    } else if (c as u32) < 0x20 {
        seq!['\\', 'u', '0', '0', hex_char(((c as u32) / 16) as nat), hex_char(
            ((c as u32) % 16) as nat,
        )]
    } else {
        seq![c]
    }
}

pub open spec fn escape_string(t: Seq<char>) -> Seq<char>
    decreases t.len(),
{
    if t.len() == 0 {
        Seq::<char>::empty()
    } else {
        escape_char(t[0]) + escape_string(t.skip(1))
    }
}

pub open spec fn enc_string(t: Seq<char>) -> Seq<char> {
    seq!['"'] + escape_string(t) + seq!['"']
}

/// The decimal digits of a `u16` value, no leading zero.
pub open spec fn enc_u16(v: nat) -> Seq<char>
    decreases v,
{
    if v < 10 {
        seq![digit_char(v)]
    } else {
        enc_u16(v / 10) + seq![digit_char((v % 10) as nat)]
    }
}

/// The canonical encoding of one garage record: the five fields in a fixed
/// order, no whitespace, the ratio literal written back verbatim.
pub open spec fn enc_garage(g: GarageModel) -> Seq<char> {
    seq!['{'] + enc_string(key_max_spaces()) + seq![':'] + enc_u16(g.max_spaces as nat) + seq![',']
        + enc_string(key_name()) + seq![':'] + enc_string(g.name) + seq![','] + enc_string(
        key_percent_full(),
    ) + seq![':'] + g.percent_full + seq![','] + enc_string(key_spaces_filled()) + seq![':']
        + enc_u16(g.spaces_filled as nat) + seq![','] + enc_string(key_spaces_left()) + seq![':']
        + enc_u16(g.spaces_left as nat) + seq!['}']
}

pub open spec fn enc_garages(gs: Seq<GarageModel>) -> Seq<char>
    decreases gs.len(),
{
    if gs.len() == 0 {
        Seq::<char>::empty()
    } else if gs.len() == 1 {
        enc_garage(gs[0])
    } else {
        enc_garage(gs[0]) + seq![','] + enc_garages(gs.skip(1))
    }
}

pub open spec fn enc_array(gs: Seq<GarageModel>) -> Seq<char> {
    seq!['['] + enc_garages(gs) + seq![']']
}

/// The canonical encoding of a whole collection.
pub open spec fn enc_doc(gs: Seq<GarageModel>) -> Seq<char> {
    seq!['{'] + enc_string(key_garages()) + seq![':'] + enc_array(gs) + seq!['}']
}

} // verus!
