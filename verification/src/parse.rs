//! The executable parser: each function computes exactly what its
//! counterpart in `grammar` defines.

use vstd::prelude::*;
use vstd::string::StrSliceExecFns;
use vstd::string::StringExecFns;
use vstd::seq_lib::lemma_seq_skip_of_skip;
use crate::garage::{Garage, GarageCollection, GarageModel, garages_view};
use crate::error::RequestError;
use crate::ext::push_char;
use crate::grammar::{
    is_digit, is_hex, hex_val, code_to_char, skip_ws, is_hex4, hex4_val, lex_string_rest, lex_digits,
    lemma_lex_digits_range, digits_val, lex_u16, lex_int_part, lex_frac, lex_exp, lex_number,
    skip_value, skip_members, skip_elems, PartialGarage, empty_partial, garage_member_step,
    parse_garage_members, parse_garage, parse_garage_elems, parse_garages_array,
    parse_doc_members, parse_doc, VALUE_DEPTH,
};

verus! {

broadcast use lemma_seq_skip_of_skip;

/// Whether two text slices hold the same characters.
pub fn str_eq(a: &str, b: &str) -> (r: bool)
    ensures
        r == (a@ == b@),
{
    let n = a.unicode_len();
    if n != b.unicode_len() {
        return false;
    }
    let mut k: usize = 0;
    while k < n
        invariant
            n == a@.len() == b@.len(),
            0 <= k <= n,
            forall|m: int| 0 <= m < k ==> a@[m] == b@[m],
        decreases n - k,
    {
        if a.get_char(k) != b.get_char(k) {
            return false;
        }
        k += 1;
    }
    proof {
        assert(a@ =~= b@);
    }
    true
}

/// Advances past JSON whitespace.
pub fn skip_ws_x(s: &str, i: usize, end: usize) -> (r: usize)
    requires
        end == s@.len(),
        i <= end,
    ensures
        i <= r <= end,
        s@.skip(r as int) == skip_ws(s@.skip(i as int)),
    decreases end - i,
{
    if i < end {
        let c = s.get_char(i);
        if c == ' ' || c == '\t' || c == '\n' || c == '\r' {
            proof {
                assert(s@.skip(i as int).skip(1) =~= s@.skip(i as int + 1));
            }
            return skip_ws_x(s, i + 1, end);
        }
    }
    i
}

/// Finds the end of the digit run starting at `i`.
fn digit_extent(s: &str, i: usize, end: usize) -> (r: usize)
    requires
        end == s@.len(),
        i <= end,
    ensures
        i <= r <= end,
        forall|k: int| i <= k < r ==> is_digit(#[trigger] s@[k]),
        r == end || !is_digit(s@[r as int]),
        lex_digits(s@.skip(i as int)) == (s@.subrange(i as int, r as int), s@.skip(r as int)),
    decreases end - i,
{
    if i < end {
        let c = s.get_char(i);
        if (c as u32) >= 48 && (c as u32) <= 57 {
            let r = digit_extent(s, i + 1, end);
            proof {
                lemma_lex_digits_range(s@, i as int, r as int);
            }
            return r;
        }
    }
    proof {
        lemma_lex_digits_range(s@, i as int, i as int);
    }
    i
}

/// Reads an unsigned integer for one of the `u16` fields.
fn lex_u16_x(s: &str, i: usize, end: usize) -> (r: Option<(u16, usize)>)
    requires
        end == s@.len(),
        i <= end,
    ensures
        match r {
            Some((v, j)) => i <= j <= end && lex_u16(s@.skip(i as int)) == Some(
                (v, s@.skip(j as int)),
            ),
            None => lex_u16(s@.skip(i as int)) is None,
        },
{
    let j = digit_extent(s, i, end);
    let ghost ds = s@.subrange(i as int, j as int);
    if j == i {
        return None;
    }
    if j > i + 1 && s.get_char(i) == '0' {
        return None;
    }
    if j < end {
        let c = s.get_char(j);
        if c == '.' || c == 'e' || c == 'E' {
            return None;
        }
    }
    // accumulate the value, saturating just past the u16 range
    let mut acc: u32 = 0;
    let mut k = i;
    while k < j
        invariant
            end == s@.len(),
            i <= k <= j <= end,
            forall|m: int| i <= m < j ==> is_digit(#[trigger] s@[m]),
            ds == s@.subrange(i as int, j as int),
            acc <= 0x10000,
            digits_val(s@.subrange(i as int, k as int)) <= 0xFFFF ==> acc == digits_val(
                s@.subrange(i as int, k as int),
            ),
            digits_val(s@.subrange(i as int, k as int)) > 0xFFFF ==> acc == 0x10000 && digits_val(
                s@.subrange(i as int, k as int),
            ) > 0xFFFF,
        decreases j - k,
    {
        let c = s.get_char(k);
        let d: u32 = (c as u32) - 48;
        proof {
            let pre = s@.subrange(i as int, k as int);
            let post = s@.subrange(i as int, k as int + 1);
            assert(post.drop_last() =~= pre);
            assert(post.last() == s@[k as int]);
        }
        let nv: u32 = acc * 10 + d;
        acc = if nv > 0xFFFF {
            0x10000
        } else {
            nv
        };
        k += 1;
    }
    proof {
        assert(s@.subrange(i as int, j as int) == ds);
    }
    if acc > 0xFFFF {
        return None;
    }
    proof {
        assert(ds.len() > 0);
        assert(ds[0] == s@[i as int]);
        if j < end {
            assert(s@.skip(j as int)[0] == s@[j as int]);
        }
    }
    Some((acc as u16, j))
}

/// Reads the integer part of a number literal.
fn lex_int_part_x(s: &str, i: usize, end: usize) -> (r: Option<usize>)
    requires
        end == s@.len(),
        i <= end,
    ensures
        match r {
            Some(j) => i <= j <= end && lex_int_part(s@.skip(i as int)) == Some(
                (s@.subrange(i as int, j as int), s@.skip(j as int)),
            ),
            None => lex_int_part(s@.skip(i as int)) is None,
        },
{
    let j = digit_extent(s, i, end);
    if j == i {
        return None;
    }
    if j > i + 1 && s.get_char(i) == '0' {
        proof {
            assert(s@.subrange(i as int, j as int)[0] == s@[i as int]);
        }
        return None;
    }
    proof {
        assert(s@.subrange(i as int, j as int)[0] == s@[i as int]);
    }
    Some(j)
}

/// Reads an optional fraction part.
fn lex_frac_x(s: &str, i: usize, end: usize) -> (r: Option<usize>)
    requires
        end == s@.len(),
        i <= end,
    ensures
        match r {
            Some(j) => i <= j <= end && lex_frac(s@.skip(i as int)) == Some(
                (s@.subrange(i as int, j as int), s@.skip(j as int)),
            ),
            None => lex_frac(s@.skip(i as int)) is None,
        },
{
    if i < end && s.get_char(i) == '.' {
        proof {
            assert(s@.skip(i as int)[0] == s@[i as int]);
            assert(s@.skip(i as int).skip(1) =~= s@.skip(i as int + 1));
        }
        let j = digit_extent(s, i + 1, end);
        if j == i + 1 {
            return None;
        }
        proof {
            assert(seq!['.'] + s@.subrange(i as int + 1, j as int) =~= s@.subrange(
                i as int,
                j as int,
            ));
        }
        Some(j)
    } else {
        proof {
            if i < end {
                assert(s@.skip(i as int)[0] == s@[i as int]);
            }
            assert(s@.subrange(i as int, i as int) =~= Seq::<char>::empty());
        }
        Some(i)
    }
}

/// Reads an optional exponent part.
fn lex_exp_x(s: &str, i: usize, end: usize) -> (r: Option<usize>)
    requires
        end == s@.len(),
        i <= end,
    ensures
        match r {
            Some(j) => i <= j <= end && lex_exp(s@.skip(i as int)) == Some(
                (s@.subrange(i as int, j as int), s@.skip(j as int)),
            ),
            None => lex_exp(s@.skip(i as int)) is None,
        },
{
    if i < end && (s.get_char(i) == 'e' || s.get_char(i) == 'E') {
        proof {
            assert(s@.skip(i as int)[0] == s@[i as int]);
        }
        let mut k = i + 1;
        if k < end {
            let c2 = s.get_char(k);
            if c2 == '+' || c2 == '-' {
                k += 1;
            }
        }
        proof {
            if i + 1 < end {
                assert(s@.skip(i as int)[1] == s@[i as int + 1]);
            }
            assert(s@.skip(i as int).skip(k - i) =~= s@.skip(k as int));
        }
        let j = digit_extent(s, k, end);
        if j == k {
            return None;
        }
        proof {
            assert(s@.skip(i as int).subrange(0, k - i) =~= s@.subrange(i as int, k as int));
            assert(s@.subrange(i as int, k as int) + s@.subrange(k as int, j as int) =~= s@
                .subrange(i as int, j as int));
        }
        Some(j)
    } else {
        proof {
            if i < end {
                assert(s@.skip(i as int)[0] == s@[i as int]);
            }
            assert(s@.subrange(i as int, i as int) =~= Seq::<char>::empty());
        }
        Some(i)
    }
}

/// Reads one JSON number literal and hands back its exact text.
fn lex_number_x(s: &str, i: usize, end: usize) -> (r: Option<(String, usize)>)
    requires
        end == s@.len(),
        i <= end,
    ensures
        match r {
            Some((t, j)) => i <= j <= end && lex_number(s@.skip(i as int)) == Some(
                (t@, s@.skip(j as int)),
            ),
            None => lex_number(s@.skip(i as int)) is None,
        },
{
    let ghost sv = s@;
    let ghost s0 = s@.skip(i as int);
    let mut j = i;
    if j < end && s.get_char(j) == '-' {
        j += 1;
    }
    let ghost sl: int = j - i;
    proof {
        assert(s0.skip(sl) =~= sv.skip(j as int));
        if i < end {
            assert(s0[0] == sv[i as int]);
        }
    }
    let j2 = match lex_int_part_x(s, j, end) {
        Some(v) => v,
        None => {
            return None;
        },
    };
    let j4 = match lex_frac_x(s, j2, end) {
        Some(v) => v,
        None => {
            return None;
        },
    };
    let j6 = match lex_exp_x(s, j4, end) {
        Some(v) => v,
        None => {
            return None;
        },
    };
    proof {
        assert(s0.subrange(0, sl) =~= sv.subrange(i as int, i as int + sl));
        assert(sv.subrange(i as int, i as int + sl) + sv.subrange(j as int, j2 as int) + sv
            .subrange(j2 as int, j4 as int) + sv.subrange(j4 as int, j6 as int) =~= sv.subrange(
            i as int,
            j6 as int,
        ));
    }
    let tok = String::from_str(s.substring_char(i, j6));
    Some((tok, j6))
}

/// Casting a character's scalar value back gives the character.
proof fn lemma_code_to_char(c: char)
    ensures
        code_to_char(c as u32) == c,
{
    vstd::utf8::char_u32_cast(c, c as u32);
}

/// Builds the string `c` followed by `t`.
fn prepend_str(c: char, t: String) -> (r: String)
    ensures
        r@ == seq![c] + t@,
{
    let mut pre = String::new();
    push_char(&mut pre, c);
    pre.append(t.as_str());
    proof {
        assert(Seq::<char>::empty().push(c) + t@ =~= seq![c] + t@);
    }
    pre
}

/// Reads four hex digits at `p`.
fn hex4_x(s: &str, p: usize, end: usize) -> (r: Option<u32>)
    requires
        end == s@.len(),
        p + 4 <= end,
    ensures
        match r {
            Some(v) => is_hex4(s@.subrange(p as int, p as int + 4)) && v == hex4_val(
                s@.subrange(p as int, p as int + 4),
            ) && v <= 0xFFFF,
            None => !is_hex4(s@.subrange(p as int, p as int + 4)),
        },
{
    let ghost h = s@.subrange(p as int, p as int + 4);
    let mut v: u32 = 0;
    let mut k: usize = 0;
    while k < 4
        invariant
            end == s@.len(),
            p + 4 <= end,
            0 <= k <= 4,
            h == s@.subrange(p as int, p as int + 4),
            forall|m: int| 0 <= m < k ==> is_hex(#[trigger] h[m]),
            v == hex_val_prefix(h, k as int),
            k == 0 ==> v == 0,
            k == 1 ==> v <= 0xF,
            k == 2 ==> v <= 0xFF,
            k == 3 ==> v <= 0xFFF,
            k == 4 ==> v <= 0xFFFF,
        decreases 4 - k,
    {
        let c = s.get_char(p + k);
        proof {
            assert(h[k as int] == s@[p as int + k]);
        }
        let hv: u32 = if (c as u32) >= 48 && (c as u32) <= 57 {
            (c as u32) - 48
        } else if (c as u32) >= 97 && (c as u32) <= 102 {
            (c as u32) - 87
        } else if (c as u32) >= 65 && (c as u32) <= 70 {
            (c as u32) - 55
        } else {
            return None;
        };
        v = v * 16 + hv;
        k += 1;
    }
    proof {
        assert(hex_val_prefix(h, 4) == hex4_val(h)) by {
            reveal_with_fuel(hex_val_prefix, 5);
        }
    }
    Some(v)
}

/// The value of the first `k` hex digits.
spec fn hex_val_prefix(h: Seq<char>, k: int) -> nat
    decreases k,
{
    if k <= 0 {
        0
    } else {
        hex_val_prefix(h, k - 1) * 16 + hex_val(h[k - 1])
    }
}

/// Reads the rest of a JSON string, after the opening quote.
fn lex_string_rest_x(s: &str, i: usize, end: usize) -> (r: Option<(String, usize)>)
    requires
        end == s@.len(),
        i <= end,
    ensures
        match r {
            Some((t, j)) => i <= j <= end && lex_string_rest(s@.skip(i as int)) == Some(
                (t@, s@.skip(j as int)),
            ),
            None => lex_string_rest(s@.skip(i as int)) is None,
        },
    decreases end - i,
{
    let ghost sv = s@;
    let ghost s0 = s@.skip(i as int);
    if i == end {
        return None;
    }
    let c = s.get_char(i);
    proof {
        assert(s0[0] == sv[i as int]);
    }
    if c == '"' {
        proof {
            assert(s0.skip(1) =~= sv.skip(i as int + 1));
        }
        return Some((String::new(), i + 1));
    }
    if c == '\\' {
        if i + 1 == end {
            return None;
        }
        let e = s.get_char(i + 1);
        proof {
            assert(s0[1] == sv[i as int + 1]);
        }
        if e == 'u' {
            if end - i < 6 {
                return None;
            }
            proof {
                assert(s0.subrange(2, 6) =~= sv.subrange(i as int + 2, i as int + 6));
            }
            let n1 = match hex4_x(s, i + 2, end) {
                Some(v) => v,
                None => {
                    return None;
                },
            };
            if 0xD800 <= n1 && n1 < 0xDC00 {
                // a high surrogate must be followed by a low one
                if end - i < 12 {
                    return None;
                }
                if s.get_char(i + 6) != '\\' || s.get_char(i + 7) != 'u' {
                    proof {
                        assert(s0[6] == sv[i as int + 6]);
                        assert(s0[7] == sv[i as int + 7]);
                    }
                    return None;
                }
                proof {
                    assert(s0[6] == sv[i as int + 6]);
                    assert(s0[7] == sv[i as int + 7]);
                    assert(s0.subrange(8, 12) =~= sv.subrange(i as int + 8, i as int + 12));
                }
                let n2 = match hex4_x(s, i + 8, end) {
                    Some(v) => v,
                    None => {
                        return None;
                    },
                };
                if !(0xDC00 <= n2 && n2 < 0xE000) {
                    return None;
                }
                let code: u32 = 0x10000 + (n1 - 0xD800) * 0x400 + (n2 - 0xDC00);
                let ch = match char::from_u32(code) {
                    Some(ch) => ch,
                    None => {
                        return vstd::pervasive::unreached();
                    },
                };
                proof {
                    lemma_code_to_char(ch);
                    assert(s0.skip(12) =~= sv.skip(i as int + 12));
                }
                match lex_string_rest_x(s, i + 12, end) {
                    Some((t, j)) => {
                        let out = prepend_str(ch, t);
                        return Some((out, j));
                    },
                    None => {
                        return None;
                    },
                }
            }
            if 0xDC00 <= n1 && n1 < 0xE000 {
                return None;
            }
            let ch = match char::from_u32(n1) {
                Some(ch) => ch,
                None => {
                    return vstd::pervasive::unreached();
                },
            };
            proof {
                lemma_code_to_char(ch);
                assert(s0.skip(6) =~= sv.skip(i as int + 6));
            }
            match lex_string_rest_x(s, i + 6, end) {
                Some((t, j)) => {
                    let out = prepend_str(ch, t);
                    return Some((out, j));
                },
                None => {
                    return None;
                },
            }
        }
        let dec: char = if e == '"' {
            '"'
        } else if e == '\\' {
            '\\'
        } else if e == '/' {
            '/'
        } else if e == 'b' {
            '\u{0008}'
        } else if e == 'f' {
            '\u{000C}'
        } else if e == 'n' {
            '\n'
        } else if e == 'r' {
            '\r'
        } else if e == 't' {
            '\t'
        } else {
            return None;
        };
        proof {
            assert(s0.skip(2) =~= sv.skip(i as int + 2));
        }
        match lex_string_rest_x(s, i + 2, end) {
            Some((t, j)) => {
                let out = prepend_str(dec, t);
                return Some((out, j));
            },
            None => {
                return None;
            },
        }
    }
    if (c as u32) < 0x20 {
        return None;
    }
    proof {
        assert(s0.skip(1) =~= sv.skip(i as int + 1));
    }
    match lex_string_rest_x(s, i + 1, end) {
        Some((t, j)) => {
            let out = prepend_str(c, t);
            Some((out, j))
        },
        None => None,
    }
}

/// Skips one JSON value.
fn skip_value_x(s: &str, i: usize, end: usize, d: u32) -> (r: Option<usize>)
    requires
        end == s@.len(),
        i <= end,
    ensures
        match r {
            Some(j) => i <= j <= end && skip_value(s@.skip(i as int), d as nat) == Some(
                s@.skip(j as int),
            ),
            None => skip_value(s@.skip(i as int), d as nat) is None,
        },
    decreases d, end - i, 0int,
{
    let ghost sv = s@;
    let ghost s0 = s@.skip(i as int);
    if d == 0 || i == end {
        return None;
    }
    let c = s.get_char(i);
    proof {
        assert(s0[0] == sv[i as int]);
    }
    if c == '"' {
        proof {
            assert(s0.skip(1) =~= sv.skip(i as int + 1));
        }
        match lex_string_rest_x(s, i + 1, end) {
            Some((_t, j)) => Some(j),
            None => None,
        }
    } else if c == '{' {
        proof {
            assert(s0.skip(1) =~= sv.skip(i as int + 1));
        }
        let w = skip_ws_x(s, i + 1, end);
        skip_members_x(s, w, end, d - 1, end - i, true)
    } else if c == '[' {
        proof {
            assert(s0.skip(1) =~= sv.skip(i as int + 1));
        }
        let w = skip_ws_x(s, i + 1, end);
        skip_elems_x(s, w, end, d - 1, end - i, true)
    } else if c == 't' {
        if end - i >= 4 && s.get_char(i + 1) == 'r' && s.get_char(i + 2) == 'u' && s.get_char(
            i + 3,
        ) == 'e' {
            proof {
                assert(s0[1] == sv[i as int + 1]);
                assert(s0[2] == sv[i as int + 2]);
                assert(s0[3] == sv[i as int + 3]);
                assert(s0.skip(4) =~= sv.skip(i as int + 4));
            }
            Some(i + 4)
        } else {
            proof {
                if end - i >= 4 {
                    assert(s0[1] == sv[i as int + 1]);
                    assert(s0[2] == sv[i as int + 2]);
                    assert(s0[3] == sv[i as int + 3]);
                }
            }
            None
        }
    } else if c == 'f' {
        if end - i >= 5 && s.get_char(i + 1) == 'a' && s.get_char(i + 2) == 'l' && s.get_char(
            i + 3,
        ) == 's' && s.get_char(i + 4) == 'e' {
            proof {
                assert(s0[1] == sv[i as int + 1]);
                assert(s0[2] == sv[i as int + 2]);
                assert(s0[3] == sv[i as int + 3]);
                assert(s0[4] == sv[i as int + 4]);
                assert(s0.skip(5) =~= sv.skip(i as int + 5));
            }
            Some(i + 5)
        } else {
            proof {
                if end - i >= 5 {
                    assert(s0[1] == sv[i as int + 1]);
                    assert(s0[2] == sv[i as int + 2]);
                    assert(s0[3] == sv[i as int + 3]);
                    assert(s0[4] == sv[i as int + 4]);
                }
            }
            None
        }
    } else if c == 'n' {
        if end - i >= 4 && s.get_char(i + 1) == 'u' && s.get_char(i + 2) == 'l' && s.get_char(
            i + 3,
        ) == 'l' {
            proof {
                assert(s0[1] == sv[i as int + 1]);
                assert(s0[2] == sv[i as int + 2]);
                assert(s0[3] == sv[i as int + 3]);
                assert(s0.skip(4) =~= sv.skip(i as int + 4));
            }
            Some(i + 4)
        } else {
            proof {
                if end - i >= 4 {
                    assert(s0[1] == sv[i as int + 1]);
                    assert(s0[2] == sv[i as int + 2]);
                    assert(s0[3] == sv[i as int + 3]);
                }
            }
            None
        }
    } else {
        match lex_number_x(s, i, end) {
            Some((_t, j)) => Some(j),
            None => None,
        }
    }
}

/// Skips the members of an object being skipped.
fn skip_members_x(s: &str, i: usize, end: usize, d: u32, n: usize, first: bool) -> (r: Option<
    usize,
>)
    requires
        end == s@.len(),
        i <= end,
    ensures
        match r {
            Some(j) => i <= j <= end && skip_members(
                s@.skip(i as int),
                d as nat,
                n as nat,
                first,
            ) == Some(s@.skip(j as int)),
            None => skip_members(s@.skip(i as int), d as nat, n as nat, first) is None,
        },
    decreases d, n, 1int,
{
    let ghost sv = s@;
    let ghost s0 = s@.skip(i as int);
    if i == end {
        return None;
    }
    let c = s.get_char(i);
    proof {
        assert(s0[0] == sv[i as int]);
    }
    if first && c == '}' {
        proof {
            assert(s0.skip(1) =~= sv.skip(i as int + 1));
        }
        return Some(i + 1);
    }
    if n == 0 || d == 0 {
        return None;
    }
    if c != '"' {
        return None;
    }
    proof {
        assert(s0.skip(1) =~= sv.skip(i as int + 1));
    }
    let (_k, p1) = match lex_string_rest_x(s, i + 1, end) {
        Some(v) => v,
        None => {
            return None;
        },
    };
    let p2 = skip_ws_x(s, p1, end);
    if p2 == end || s.get_char(p2) != ':' {
        proof {
            if p2 < end {
                assert(sv.skip(p2 as int)[0] == sv[p2 as int]);
            }
        }
        return None;
    }
    proof {
        assert(sv.skip(p2 as int)[0] == sv[p2 as int]);
        assert(sv.skip(p2 as int).skip(1) =~= sv.skip(p2 as int + 1));
    }
    let p3 = skip_ws_x(s, p2 + 1, end);
    let p4 = match skip_value_x(s, p3, end, d - 1) {
        Some(v) => v,
        None => {
            return None;
        },
    };
    let p5 = skip_ws_x(s, p4, end);
    if p5 < end {
        let c5 = s.get_char(p5);
        proof {
            assert(sv.skip(p5 as int)[0] == sv[p5 as int]);
        }
        if c5 == ',' {
            proof {
                assert(sv.skip(p5 as int).skip(1) =~= sv.skip(p5 as int + 1));
            }
            let p6 = skip_ws_x(s, p5 + 1, end);
            return skip_members_x(s, p6, end, d, n - 1, false);
        }
        if c5 == '}' {
            proof {
                assert(sv.skip(p5 as int).skip(1) =~= sv.skip(p5 as int + 1));
            }
            return Some(p5 + 1);
        }
        return None;
    }
    None
}

/// Skips the elements of an array being skipped.
fn skip_elems_x(s: &str, i: usize, end: usize, d: u32, n: usize, first: bool) -> (r: Option<usize>)
    requires
        end == s@.len(),
        i <= end,
    ensures
        match r {
            Some(j) => i <= j <= end && skip_elems(s@.skip(i as int), d as nat, n as nat, first)
                == Some(s@.skip(j as int)),
            None => skip_elems(s@.skip(i as int), d as nat, n as nat, first) is None,
        },
    decreases d, n, 1int,
{
    let ghost sv = s@;
    let ghost s0 = s@.skip(i as int);
    if i == end {
        return None;
    }
    let c = s.get_char(i);
    proof {
        assert(s0[0] == sv[i as int]);
    }
    if first && c == ']' {
        proof {
            assert(s0.skip(1) =~= sv.skip(i as int + 1));
        }
        return Some(i + 1);
    }
    if n == 0 || d == 0 {
        return None;
    }
    let p1 = match skip_value_x(s, i, end, d - 1) {
        Some(v) => v,
        None => {
            return None;
        },
    };
    let p2 = skip_ws_x(s, p1, end);
    if p2 < end {
        let c2 = s.get_char(p2);
        proof {
            assert(sv.skip(p2 as int)[0] == sv[p2 as int]);
        }
        if c2 == ',' {
            proof {
                assert(sv.skip(p2 as int).skip(1) =~= sv.skip(p2 as int + 1));
            }
            let p3 = skip_ws_x(s, p2 + 1, end);
            return skip_elems_x(s, p3, end, d, n - 1, false);
        }
        if c2 == ']' {
            proof {
                assert(sv.skip(p2 as int).skip(1) =~= sv.skip(p2 as int + 1));
            }
            return Some(p2 + 1);
        }
        return None;
    }
    None
}

/// A garage record in the middle of being read.
struct GPartial {
    name: Option<String>,
    max_spaces: Option<u16>,
    spaces_filled: Option<u16>,
    spaces_left: Option<u16>,
    percent_full: Option<String>,
}

spec fn os_view(o: Option<String>) -> Option<Seq<char>> {
    match o {
        Some(s) => Some(s@),
        None => None,
    }
}

spec fn gp_view(p: &GPartial) -> PartialGarage {
    PartialGarage {
        name: os_view(p.name),
        max_spaces: p.max_spaces,
        spaces_filled: p.spaces_filled,
        spaces_left: p.spaces_left,
        percent_full: os_view(p.percent_full),
    }
}

/// Parses the members of one garage object.
#[verifier::rlimit(80)]
fn parse_garage_members_x(s: &str, i: usize, end: usize, n: usize, p: GPartial) -> (r: Option<
    (Garage, usize),
>)
    requires
        end == s@.len(),
        i <= end,
    ensures
        match r {
            Some((g, j)) => i <= j <= end && parse_garage_members(
                s@.skip(i as int),
                n as nat,
                gp_view(&p),
            ) == Some((g@, s@.skip(j as int))),
            None => parse_garage_members(s@.skip(i as int), n as nat, gp_view(&p)) is None,
        },
    decreases n,
{
    let ghost sv = s@;
    let ghost s0 = s@.skip(i as int);
    let ghost pv = gp_view(&p);
    if i == end || n == 0 {
        return None;
    }
    let c = s.get_char(i);
    proof {
        assert(s0[0] == sv[i as int]);
    }
    if c != '"' {
        return None;
    }
    proof {
        assert(s0.skip(1) =~= sv.skip(i as int + 1));
    }
    let (k, p1) = match lex_string_rest_x(s, i + 1, end) {
        Some(v) => v,
        None => {
            return None;
        },
    };
    let p2 = skip_ws_x(s, p1, end);
    if p2 == end || s.get_char(p2) != ':' {
        proof {
            if p2 < end {
                assert(sv.skip(p2 as int)[0] == sv[p2 as int]);
            }
        }
        return None;
    }
    proof {
        assert(sv.skip(p2 as int)[0] == sv[p2 as int]);
        assert(sv.skip(p2 as int).skip(1) =~= sv.skip(p2 as int + 1));
    }
    let p3 = skip_ws_x(s, p2 + 1, end);
    let ghost r3 = sv.skip(p3 as int);
    // one member: a known field is read once, an unknown field is skipped
    let step: Option<(GPartial, usize)> = if str_eq(k.as_str(), "name") {
        if p.name.is_some() {
            None
        } else if p3 < end && s.get_char(p3) == '"' {
            proof {
                assert(r3[0] == sv[p3 as int]);
                assert(r3.skip(1) =~= sv.skip(p3 as int + 1));
            }
            match lex_string_rest_x(s, p3 + 1, end) {
                Some((v, p4)) => Some((GPartial { name: Some(v), ..p }, p4)),
                None => None,
            }
        } else {
            proof {
                if p3 < end {
                    assert(r3[0] == sv[p3 as int]);
                }
            }
            None
        }
    } else if str_eq(k.as_str(), "max_spaces") {
        if p.max_spaces.is_some() {
            None
        } else {
            match lex_u16_x(s, p3, end) {
                Some((v, p4)) => Some((GPartial { max_spaces: Some(v), ..p }, p4)),
                None => None,
            }
        }
    } else if str_eq(k.as_str(), "spaces_filled") {
        if p.spaces_filled.is_some() {
            None
        } else {
            match lex_u16_x(s, p3, end) {
                Some((v, p4)) => Some((GPartial { spaces_filled: Some(v), ..p }, p4)),
                None => None,
            }
        }
    } else if str_eq(k.as_str(), "spaces_left") {
        if p.spaces_left.is_some() {
            None
        } else {
            match lex_u16_x(s, p3, end) {
                Some((v, p4)) => Some((GPartial { spaces_left: Some(v), ..p }, p4)),
                None => None,
            }
        }
    } else if str_eq(k.as_str(), "percent_full") {
        if p.percent_full.is_some() {
            None
        } else {
            match lex_number_x(s, p3, end) {
                Some((v, p4)) => Some((GPartial { percent_full: Some(v), ..p }, p4)),
                None => None,
            }
        }
    } else {
        match skip_value_x(s, p3, end, VALUE_DEPTH) {
            Some(p4) => Some((p, p4)),
            None => None,
        }
    };
    let (p2g, p4) = match step {
        Some(v) => v,
        None => {
            proof {
                assert(garage_member_step(k@, r3, pv) is None);
            }
            return None;
        },
    };
    proof {
        assert(garage_member_step(k@, r3, pv) == Some((gp_view(&p2g), sv.skip(p4 as int))));
    }
    let p5 = skip_ws_x(s, p4, end);
    if p5 < end {
        let c5 = s.get_char(p5);
        proof {
            assert(sv.skip(p5 as int)[0] == sv[p5 as int]);
        }
        if c5 == ',' {
            proof {
                assert(sv.skip(p5 as int).skip(1) =~= sv.skip(p5 as int + 1));
            }
            let p6 = skip_ws_x(s, p5 + 1, end);
            return parse_garage_members_x(s, p6, end, n - 1, p2g);
        }
        if c5 == '}' {
            proof {
                assert(sv.skip(p5 as int).skip(1) =~= sv.skip(p5 as int + 1));
            }
            let g = match p2g {
                GPartial {
                    name: Some(name),
                    max_spaces: Some(max_spaces),
                    spaces_filled: Some(spaces_filled),
                    spaces_left: Some(spaces_left),
                    percent_full: Some(percent_full),
                } => Garage { name, max_spaces, spaces_filled, spaces_left, percent_full },
                _ => {
                    return None;
                },
            };
            return Some((g, p5 + 1));
        }
        return None;
    }
    None
}

/// Parses one garage object.
fn parse_garage_x(s: &str, i: usize, end: usize) -> (r: Option<(Garage, usize)>)
    requires
        end == s@.len(),
        i <= end,
    ensures
        match r {
            Some((g, j)) => i <= j <= end && parse_garage(s@.skip(i as int)) == Some(
                (g@, s@.skip(j as int)),
            ),
            None => parse_garage(s@.skip(i as int)) is None,
        },
{
    let ghost sv = s@;
    let ghost s0 = s@.skip(i as int);
    if i == end {
        return None;
    }
    let c = s.get_char(i);
    proof {
        assert(s0[0] == sv[i as int]);
    }
    if c != '{' {
        return None;
    }
    proof {
        assert(s0.skip(1) =~= sv.skip(i as int + 1));
    }
    let w = skip_ws_x(s, i + 1, end);
    let p = GPartial {
        name: None,
        max_spaces: None,
        spaces_filled: None,
        spaces_left: None,
        percent_full: None,
    };
    proof {
        assert(gp_view(&p) == empty_partial());
    }
    parse_garage_members_x(s, w, end, end - i, p)
}

/// Parses the elements of the garages array.
fn parse_garage_elems_x(s: &str, i: usize, end: usize, n: usize, acc: Vec<Garage>) -> (r: Option<
    (Vec<Garage>, usize),
>)
    requires
        end == s@.len(),
        i <= end,
    ensures
        match r {
            Some((gs, j)) => i <= j <= end && parse_garage_elems(
                s@.skip(i as int),
                n as nat,
                garages_view(acc@),
            ) == Some((garages_view(gs@), s@.skip(j as int))),
            None => parse_garage_elems(s@.skip(i as int), n as nat, garages_view(acc@)) is None,
        },
    decreases n,
{
    let ghost sv = s@;
    if n == 0 {
        return None;
    }
    let (g, p1) = match parse_garage_x(s, i, end) {
        Some(v) => v,
        None => {
            return None;
        },
    };
    let p2 = skip_ws_x(s, p1, end);
    if p2 < end {
        let c2 = s.get_char(p2);
        proof {
            assert(sv.skip(p2 as int)[0] == sv[p2 as int]);
        }
        if c2 == ',' {
            proof {
                assert(sv.skip(p2 as int).skip(1) =~= sv.skip(p2 as int + 1));
            }
            let p3 = skip_ws_x(s, p2 + 1, end);
            let ghost old_acc = acc@;
            let ghost gv = g@;
            let mut acc2 = acc;
            acc2.push(g);
            proof {
                assert(garages_view(acc2@) =~= garages_view(old_acc).push(gv));
            }
            return parse_garage_elems_x(s, p3, end, n - 1, acc2);
        }
        if c2 == ']' {
            proof {
                assert(sv.skip(p2 as int).skip(1) =~= sv.skip(p2 as int + 1));
            }
            let ghost old_acc = acc@;
            let ghost gv = g@;
            let mut acc2 = acc;
            acc2.push(g);
            proof {
                assert(garages_view(acc2@) =~= garages_view(old_acc).push(gv));
            }
            return Some((acc2, p2 + 1));
        }
        return None;
    }
    None
}

/// Parses the garages array.
fn parse_garages_array_x(s: &str, i: usize, end: usize) -> (r: Option<(Vec<Garage>, usize)>)
    requires
        end == s@.len(),
        i <= end,
    ensures
        match r {
            Some((gs, j)) => i <= j <= end && parse_garages_array(s@.skip(i as int)) == Some(
                (garages_view(gs@), s@.skip(j as int)),
            ),
            None => parse_garages_array(s@.skip(i as int)) is None,
        },
{
    let ghost sv = s@;
    let ghost s0 = s@.skip(i as int);
    if i == end {
        return None;
    }
    let c = s.get_char(i);
    proof {
        assert(s0[0] == sv[i as int]);
    }
    if c != '[' {
        return None;
    }
    proof {
        assert(s0.skip(1) =~= sv.skip(i as int + 1));
    }
    let w = skip_ws_x(s, i + 1, end);
    if w < end && s.get_char(w) == ']' {
        proof {
            assert(sv.skip(w as int)[0] == sv[w as int]);
            assert(sv.skip(w as int).skip(1) =~= sv.skip(w as int + 1));
            assert(garages_view(Seq::<Garage>::empty()) =~= Seq::<GarageModel>::empty());
        }
        let empty: Vec<Garage> = Vec::new();
        return Some((empty, w + 1));
    }
    proof {
        if w < end {
            assert(sv.skip(w as int)[0] == sv[w as int]);
        }
        assert(garages_view(Seq::<Garage>::empty()) =~= Seq::<GarageModel>::empty());
    }
    let empty: Vec<Garage> = Vec::new();
    parse_garage_elems_x(s, w, end, end - i, empty)
}

spec fn found_view(o: &Option<Vec<Garage>>) -> Option<Seq<GarageModel>> {
    match o {
        Some(v) => Some(garages_view(v@)),
        None => None,
    }
}

/// Parses the members of the envelope object.
fn parse_doc_members_x(s: &str, i: usize, end: usize, n: usize, found: Option<Vec<Garage>>) -> (r:
    Option<(Vec<Garage>, usize)>)
    requires
        end == s@.len(),
        i <= end,
    ensures
        match r {
            Some((gs, j)) => i <= j <= end && parse_doc_members(
                s@.skip(i as int),
                n as nat,
                found_view(&found),
            ) == Some((garages_view(gs@), s@.skip(j as int))),
            None => parse_doc_members(s@.skip(i as int), n as nat, found_view(&found)) is None,
        },
    decreases n,
{
    let ghost sv = s@;
    let ghost s0 = s@.skip(i as int);
    let ghost fv = found_view(&found);
    if i == end || n == 0 {
        return None;
    }
    let c = s.get_char(i);
    proof {
        assert(s0[0] == sv[i as int]);
    }
    if c != '"' {
        return None;
    }
    proof {
        assert(s0.skip(1) =~= sv.skip(i as int + 1));
    }
    let (k, p1) = match lex_string_rest_x(s, i + 1, end) {
        Some(v) => v,
        None => {
            return None;
        },
    };
    let p2 = skip_ws_x(s, p1, end);
    if p2 == end || s.get_char(p2) != ':' {
        proof {
            if p2 < end {
                assert(sv.skip(p2 as int)[0] == sv[p2 as int]);
            }
        }
        return None;
    }
    proof {
        assert(sv.skip(p2 as int)[0] == sv[p2 as int]);
        assert(sv.skip(p2 as int).skip(1) =~= sv.skip(p2 as int + 1));
    }
    let p3 = skip_ws_x(s, p2 + 1, end);
    let step: Option<(Option<Vec<Garage>>, usize)> = if str_eq(k.as_str(), "garages") {
        if found.is_some() {
            None
        } else {
            match parse_garages_array_x(s, p3, end) {
                Some((gs, p4)) => Some((Some(gs), p4)),
                None => None,
            }
        }
    } else {
        match skip_value_x(s, p3, end, VALUE_DEPTH) {
            Some(p4) => Some((found, p4)),
            None => None,
        }
    };
    let (f2, p4) = match step {
        Some(v) => v,
        None => {
            return None;
        },
    };
    let p5 = skip_ws_x(s, p4, end);
    if p5 < end {
        let c5 = s.get_char(p5);
        proof {
            assert(sv.skip(p5 as int)[0] == sv[p5 as int]);
        }
        if c5 == ',' {
            proof {
                assert(sv.skip(p5 as int).skip(1) =~= sv.skip(p5 as int + 1));
            }
            let p6 = skip_ws_x(s, p5 + 1, end);
            return parse_doc_members_x(s, p6, end, n - 1, f2);
        }
        if c5 == '}' {
            proof {
                assert(sv.skip(p5 as int).skip(1) =~= sv.skip(p5 as int + 1));
            }
            match f2 {
                Some(gs) => {
                    return Some((gs, p5 + 1));
                },
                None => {
                    return None;
                },
            }
        }
        return None;
    }
    None
}

/// Decodes a response body into the garage collection: the whole body must
/// be one JSON envelope holding the `garages` array.
pub fn create_ucf_garages_api_object(body: &str) -> (r: Result<GarageCollection, RequestError>)
    ensures
        match r {
            Ok(c) => parse_doc(body@) == Some(c@),
            Err(e) => e == RequestError::JSONParsingError && parse_doc(body@) is None,
        },
{
    let ghost sv = body@;
    let end = body.unicode_len();
    proof {
        assert(sv.skip(0) =~= sv);
    }
    let r0 = skip_ws_x(body, 0, end);
    if r0 == end || body.get_char(r0) != '{' {
        proof {
            if r0 < end {
                assert(sv.skip(r0 as int)[0] == sv[r0 as int]);
            }
        }
        return Err(RequestError::JSONParsingError);
    }
    proof {
        assert(sv.skip(r0 as int)[0] == sv[r0 as int]);
        assert(sv.skip(r0 as int).skip(1) =~= sv.skip(r0 as int + 1));
    }
    let w = skip_ws_x(body, r0 + 1, end);
    match parse_doc_members_x(body, w, end, end, None) {
        Some((gs, j)) => {
            let j2 = skip_ws_x(body, j, end);
            if j2 == end {
                Ok(GarageCollection { garages: gs })
            } else {
                Err(RequestError::JSONParsingError)
            }
        },
        None => Err(RequestError::JSONParsingError),
    }
}

} // verus!
