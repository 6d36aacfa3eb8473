//! The laws of the codec: decoding the canonical encoding of a well-formed
//! collection gives the collection back, field for field.

use vstd::prelude::*;
use crate::garage::{GarageModel, wf_garage, wf_collection};
use crate::grammar::{
    is_ws, is_digit, digit_val, is_hex, hex_val, code_to_char, skip_ws, simple_escape, is_hex4,
    hex4_val, prepend, lex_string_rest, lex_digits, lemma_lex_digits_range, digits_val, lex_u16,
    lex_int_part, lex_frac, lex_exp, lex_number, is_number_token, skip_value, key_name,
    key_max_spaces, key_spaces_filled, key_spaces_left, key_percent_full, key_garages,
    PartialGarage, empty_partial, garage_member_step, finish_partial, parse_garage_members,
    parse_garage, parse_garage_elems, parse_garages_array, parse_doc_members, parse_doc,
    digit_char, hex_char, escape_char, escape_string, enc_string, enc_u16, enc_garage, enc_garages,
    enc_array, enc_doc,
};

verus! {

broadcast use vstd::seq_lib::lemma_seq_skip_of_skip;

/// Whitespace skipping does nothing where no whitespace leads.
proof fn lemma_skip_ws_nil(s: Seq<char>)
    requires
        s.len() == 0 || !is_ws(s[0]),
    ensures
        skip_ws(s) == s,
{
}

/// The digit table gives hex digits with the written-down values.
proof fn lemma_hex_char(n: nat)
    requires
        n < 16,
    ensures
        is_hex(hex_char(n)),
        hex_val(hex_char(n)) == n,
        n < 10 ==> is_digit(hex_char(n)) && digit_val(hex_char(n)) == n,
        n >= 10 ==> !is_digit(hex_char(n)),
{
}

/// A decoded string is read back from its escaped, quoted form, whatever
/// follows the closing quote.
proof fn lemma_string_rt(t: Seq<char>, rest: Seq<char>)
    ensures
        lex_string_rest(escape_string(t) + seq!['"'] + rest) == Some((t, rest)),
    decreases t.len(),
{
    let s = escape_string(t) + seq!['"'] + rest;
    if t.len() == 0 {
        assert(escape_string(t) == Seq::<char>::empty());
        assert(s =~= seq!['"'] + rest);
        assert(s[0] == '"');
        assert(s.skip(1) =~= rest);
        assert(Seq::<char>::empty() =~= t);
    } else {
        let c = t[0];
        lemma_string_rt(t.skip(1), rest);
        let r2 = escape_string(t.skip(1)) + seq!['"'] + rest;
        assert(escape_string(t) == escape_char(c) + escape_string(t.skip(1)));
        assert(s =~= escape_char(c) + r2);
        if c == '"' {
            assert(s[0] == '\\');
            assert(s[1] == '"');
            assert(s.len() >= 2);
            assert(s.skip(2) =~= r2);
            assert(simple_escape('"') == Some('"'));
            assert(lex_string_rest(s) == prepend('"', lex_string_rest(r2)));
            assert(seq![c] + t.skip(1) =~= t);
        } else if c == '\\' {
            assert(s[0] == '\\');
            assert(s[1] == '\\');
            assert(s.skip(2) =~= r2);
            assert(simple_escape('\\') == Some('\\'));
            assert(lex_string_rest(s) == prepend('\\', lex_string_rest(r2)));
            assert(seq![c] + t.skip(1) =~= t);
        } else if (c as u32) < 0x20 {
            let hi = ((c as u32) / 16) as nat;
            let lo = ((c as u32) % 16) as nat;
            lemma_hex_char(hi);
            lemma_hex_char(lo);
            assert(s[0] == '\\');
            assert(s[1] == 'u');
            assert(s.len() >= 6);
            assert(s.subrange(2, 6) =~= seq!['0', '0', hex_char(hi), hex_char(lo)]);
            assert(is_hex4(s.subrange(2, 6)));
            assert(hex4_val(s.subrange(2, 6)) == hi * 16 + lo);
            assert(hi * 16 + lo == c as u32);
            assert(!(0xD800 <= c as u32 && (c as u32) < 0xE000));
            assert(s.skip(6) =~= r2);
            vstd::utf8::char_u32_cast(c, c as u32);
            assert(code_to_char(c as u32) == c);
            assert(lex_string_rest(s) == prepend(c, lex_string_rest(r2)));
            assert(seq![c] + t.skip(1) =~= t);
        } else {
            assert(s[0] == c);
            assert(c != '"' && c != '\\');
            assert(s.skip(1) =~= r2);
            assert(lex_string_rest(s) == prepend(c, lex_string_rest(r2)));
            assert(seq![c] + t.skip(1) =~= t);
        }
    }
}

/// The decimal digits of a value are digits, and carry no leading zero.
proof fn lemma_enc_u16_digits(v: nat)
    ensures
        enc_u16(v).len() >= 1,
        forall|k: int| 0 <= k < enc_u16(v).len() ==> is_digit(#[trigger] enc_u16(v)[k]),
        v > 0 ==> enc_u16(v)[0] != '0',
        v < 10 ==> enc_u16(v).len() == 1,
        digits_val(enc_u16(v)) == v,
    decreases v,
{
    if v < 10 {
        lemma_hex_char(v);
        assert(enc_u16(v) == seq![digit_char(v)]);
        assert(enc_u16(v)[0] == digit_char(v));
        assert(enc_u16(v).drop_last() =~= Seq::<char>::empty());
        assert(digits_val(enc_u16(v)) == digits_val(Seq::<char>::empty()) * 10 + digit_val(
            digit_char(v),
        ));
        if v > 0 {
            assert(digit_char(v) != '0');
        }
    } else {
        lemma_enc_u16_digits(v / 10);
        lemma_hex_char(v % 10);
        let d = digit_char((v % 10) as nat);
        assert(enc_u16(v) == enc_u16(v / 10) + seq![d]);
        assert(enc_u16(v).drop_last() =~= enc_u16(v / 10));
        assert(enc_u16(v).last() == d);
        assert(digits_val(enc_u16(v)) == digits_val(enc_u16(v / 10)) * 10 + digit_val(d));
        assert(enc_u16(v)[0] == enc_u16(v / 10)[0]);
        assert(forall|k: int|
            0 <= k < enc_u16(v).len() ==> is_digit(#[trigger] enc_u16(v)[k])) by {
            assert(forall|k: int|
                0 <= k < enc_u16(v / 10).len() ==> enc_u16(v)[k] == enc_u16(v / 10)[k]);
        }
    }
}

/// The digit run of a digit string followed by something else stops
/// exactly at the boundary.
proof fn lemma_lex_digits_concat(ds: Seq<char>, rest: Seq<char>)
    requires
        forall|k: int| 0 <= k < ds.len() ==> is_digit(#[trigger] ds[k]),
        rest.len() == 0 || !is_digit(rest[0]),
    ensures
        lex_digits(ds + rest) == (ds, rest),
{
    let s = ds + rest;
    lemma_lex_digits_range(s, 0, ds.len() as int);
    assert(s.skip(0) =~= s);
    assert(s.subrange(0, ds.len() as int) =~= ds);
    assert(s.skip(ds.len() as int) =~= rest);
}

/// A value is read back from its decimal digits, up to a boundary that
/// cannot continue a number.
proof fn lemma_u16_rt(v: u16, rest: Seq<char>)
    requires
        rest.len() > 0,
        !is_digit(rest[0]),
        rest[0] != '.',
        rest[0] != 'e',
        rest[0] != 'E',
    ensures
        lex_u16(enc_u16(v as nat) + rest) == Some((v, rest)),
{
    let ds = enc_u16(v as nat);
    lemma_enc_u16_digits(v as nat);
    lemma_lex_digits_concat(ds, rest);
    if ds.len() > 1 {
        assert(v >= 10);
        assert(ds[0] != '0');
    }
}

/// What the digit lexer splits off really is the digit prefix.
proof fn lemma_lex_digits_inv(x: Seq<char>)
    ensures
        x == lex_digits(x).0 + lex_digits(x).1,
        forall|k: int| 0 <= k < lex_digits(x).0.len() ==> is_digit(#[trigger] lex_digits(x).0[k]),
        lex_digits(x).1.len() == 0 || !is_digit(lex_digits(x).1[0]),
    decreases x.len(),
{
    if x.len() > 0 && is_digit(x[0]) {
        lemma_lex_digits_inv(x.skip(1));
        assert(x =~= seq![x[0]] + x.skip(1));
        assert(seq![x[0]] + (lex_digits(x.skip(1)).0 + lex_digits(x.skip(1)).1) =~= (seq![x[0]]
            + lex_digits(x.skip(1)).0) + lex_digits(x.skip(1)).1);
    } else {
        assert(Seq::<char>::empty() + x =~= x);
    }
}

/// Extending the input past a non-number boundary does not change what the
/// integer-part lexer reads.
proof fn lemma_lex_int_ext(x: Seq<char>, ip: Seq<char>, x2: Seq<char>, rest: Seq<char>)
    requires
        lex_int_part(x) == Some((ip, x2)),
        rest.len() == 0 || !is_digit(rest[0]),
    ensures
        lex_int_part(x + rest) == Some((ip, x2 + rest)),
{
    lemma_lex_digits_inv(x);
    assert(lex_digits(x).0 == ip && lex_digits(x).1 == x2);
    lemma_lex_digits_concat(ip, x2 + rest);
    assert(ip + (x2 + rest) =~= x + rest);
}

/// The same, for the optional fraction part.
proof fn lemma_lex_frac_ext(x: Seq<char>, fp: Seq<char>, x2: Seq<char>, rest: Seq<char>)
    requires
        lex_frac(x) == Some((fp, x2)),
        rest.len() > 0,
        !is_digit(rest[0]),
        rest[0] != '.',
    ensures
        lex_frac(x + rest) == Some((fp, x2 + rest)),
{
    let s = x + rest;
    if x.len() > 0 && x[0] == '.' {
        assert(s[0] == '.');
        lemma_lex_digits_inv(x.skip(1));
        let fd = lex_digits(x.skip(1)).0;
        assert(lex_digits(x.skip(1)).1 == x2);
        lemma_lex_digits_concat(fd, x2 + rest);
        assert(s.skip(1) =~= x.skip(1) + rest);
        assert(fd + (x2 + rest) =~= x.skip(1) + rest);
    } else {
        if x.len() == 0 {
            assert(s =~= rest);
        } else {
            assert(s[0] == x[0]);
        }
        assert(x2 + rest =~= s);
    }
}

/// The same, for the optional exponent part.
proof fn lemma_lex_exp_ext(x: Seq<char>, ep: Seq<char>, x2: Seq<char>, rest: Seq<char>)
    requires
        lex_exp(x) == Some((ep, x2)),
        rest.len() > 0,
        !is_digit(rest[0]),
        rest[0] != 'e',
        rest[0] != 'E',
    ensures
        lex_exp(x + rest) == Some((ep, x2 + rest)),
{
    let s = x + rest;
    if x.len() > 0 && (x[0] == 'e' || x[0] == 'E') {
        assert(s[0] == x[0]);
        let sl: int = if x.len() >= 2 && (x[1] == '+' || x[1] == '-') {
            2
        } else {
            1
        };
        lemma_lex_digits_inv(x.skip(sl));
        let ds = lex_digits(x.skip(sl)).0;
        assert(lex_digits(x.skip(sl)).1 == x2);
        assert(ds.len() > 0);
        if x.len() < sl + 1 {
            // then no digits could follow, against the premise
            assert(x.skip(sl).len() == 0);
            assert(false);
        }
        assert(x.len() >= 2);
        assert(s[1] == x[1]);
        let sl2: int = if s.len() >= 2 && (s[1] == '+' || s[1] == '-') {
            2
        } else {
            1
        };
        assert(sl2 == sl);
        lemma_lex_digits_concat(ds, x2 + rest);
        assert(s.skip(sl) =~= x.skip(sl) + rest);
        assert(ds + (x2 + rest) =~= x.skip(sl) + rest);
        assert(s.subrange(0, sl) =~= x.subrange(0, sl));
    } else {
        if x.len() == 0 {
            assert(s =~= rest);
        } else {
            assert(s[0] == x[0]);
        }
        assert(x2 + rest =~= s);
    }
}

/// A number literal is read back from its own text, up to a boundary that
/// cannot continue a number.
proof fn lemma_number_rt(t: Seq<char>, rest: Seq<char>)
    requires
        is_number_token(t),
        rest.len() > 0,
        !is_digit(rest[0]),
        rest[0] != '.',
        rest[0] != 'e',
        rest[0] != 'E',
        rest[0] != '-',
    ensures
        lex_number(t + rest) == Some((t, rest)),
{
    let s = t + rest;
    let sl: int = if t.len() > 0 && t[0] == '-' {
        1
    } else {
        0
    };
    let r1 = lex_int_part(t.skip(sl));
    assert(r1 is Some);
    let (ip, t2) = r1->Some_0;
    let r2 = lex_frac(t2);
    assert(r2 is Some);
    let (fp, t3) = r2->Some_0;
    let r3 = lex_exp(t3);
    assert(r3 is Some);
    let (ep, tr) = r3->Some_0;
    assert(tr == Seq::<char>::empty());
    assert(t.subrange(0, sl) + ip + fp + ep == t);
    assert(ip.len() > 0);
    if t.len() == 0 {
        assert(false);
    }
    assert(s[0] == t[0]);
    let sl2: int = if s.len() > 0 && s[0] == '-' {
        1
    } else {
        0
    };
    assert(sl2 == sl);
    lemma_lex_int_ext(t.skip(sl), ip, t2, rest);
    assert(t.skip(sl) + rest =~= s.skip(sl));
    lemma_lex_frac_ext(t2, fp, t3, rest);
    lemma_lex_exp_ext(t3, ep, tr, rest);
    assert(tr + rest =~= rest);
    assert(s.subrange(0, sl) =~= t.subrange(0, sl));
    assert(lex_number(s) == Some((s.subrange(0, sl) + ip + fp + ep, rest)));
    assert(s.subrange(0, sl) + ip + fp + ep == t);
}

/// One member of a garage object, written as key, colon and value text,
/// advances the member parser by exactly that member.
#[verifier::rlimit(100)]
#[verifier::spinoff_prover]
proof fn lemma_member_step(
    key: Seq<char>,
    vtxt: Seq<char>,
    tail: Seq<char>,
    n: nat,
    p: PartialGarage,
    p2: PartialGarage,
)
    requires
        garage_member_step(key, vtxt + tail, p) == Some((p2, tail)),
        vtxt.len() > 0,
        !is_ws(vtxt[0]),
        tail.len() > 0,
        tail[0] == ',' || tail[0] == '}',
        n >= 1,
    ensures
        parse_garage_members(enc_string(key) + seq![':'] + vtxt + tail, n, p) == (
        if tail[0] == ',' {
            parse_garage_members(skip_ws(tail.skip(1)), (n - 1) as nat, p2)
        } else {
            match finish_partial(p2) {
                Some(g) => Some((g, tail.skip(1))),
                None => None,
            }
        }),
{
    let s = enc_string(key) + seq![':'] + vtxt + tail;
    let r1 = seq![':'] + vtxt + tail;
    assert(s[0] == '"');
    assert(s.skip(1) =~= escape_string(key) + seq!['"'] + r1);
    lemma_string_rt(key, r1);
    assert(lex_string_rest(s.skip(1)) == Some((key, r1)));
    assert(r1[0] == ':');
    lemma_skip_ws_nil(r1);
    assert(r1.skip(1) =~= vtxt + tail);
    assert((vtxt + tail)[0] == vtxt[0]);
    lemma_skip_ws_nil(vtxt + tail);
    lemma_skip_ws_nil(tail);
}

/// The partial record after each member of the canonical order.
spec fn pg1(g: GarageModel) -> PartialGarage {
    PartialGarage {
        name: None,
        max_spaces: Some(g.max_spaces),
        spaces_filled: None,
        spaces_left: None,
        percent_full: None,
    }
}

spec fn pg2(g: GarageModel) -> PartialGarage {
    PartialGarage { name: Some(g.name), ..pg1(g) }
}

spec fn pg3(g: GarageModel) -> PartialGarage {
    PartialGarage { percent_full: Some(g.percent_full), ..pg2(g) }
}

spec fn pg4(g: GarageModel) -> PartialGarage {
    PartialGarage { spaces_filled: Some(g.spaces_filled), ..pg3(g) }
}

#[verifier::spinoff_prover]
proof fn lemma_step_max(g: GarageModel, s2: Seq<char>, n: nat)
    requires
        s2.len() > 0,
        s2[0] == '"',
        n >= 1,
    ensures
        parse_garage_members(
            enc_string(key_max_spaces()) + seq![':'] + enc_u16(g.max_spaces as nat) + (seq![',']
                + s2),
            n,
            empty_partial(),
        ) == parse_garage_members(s2, (n - 1) as nat, pg1(g)),
{
    reveal_strlit("name");
    reveal_strlit("max_spaces");
    let t1 = seq![','] + s2;
    let v1 = enc_u16(g.max_spaces as nat);
    lemma_enc_u16_digits(g.max_spaces as nat);
    lemma_u16_rt(g.max_spaces, t1);
    assert(garage_member_step(key_max_spaces(), v1 + t1, empty_partial()) == Some((pg1(g), t1)));
    lemma_member_step(key_max_spaces(), v1, t1, n, empty_partial(), pg1(g));
    assert(t1.skip(1) =~= s2);
    lemma_skip_ws_nil(s2);
}

#[verifier::spinoff_prover]
proof fn lemma_step_name(g: GarageModel, s3: Seq<char>, n: nat)
    requires
        s3.len() > 0,
        s3[0] == '"',
        n >= 1,
    ensures
        parse_garage_members(
            enc_string(key_name()) + seq![':'] + enc_string(g.name) + (seq![','] + s3),
            n,
            pg1(g),
        ) == parse_garage_members(s3, (n - 1) as nat, pg2(g)),
{
    let t2 = seq![','] + s3;
    let v2 = enc_string(g.name);
    assert(v2[0] == '"');
    assert((v2 + t2).skip(1) =~= escape_string(g.name) + seq!['"'] + t2);
    lemma_string_rt(g.name, t2);
    assert(garage_member_step(key_name(), v2 + t2, pg1(g)) == Some((pg2(g), t2)));
    lemma_member_step(key_name(), v2, t2, n, pg1(g), pg2(g));
    assert(t2.skip(1) =~= s3);
    lemma_skip_ws_nil(s3);
}

#[verifier::spinoff_prover]
proof fn lemma_step_percent(g: GarageModel, s4: Seq<char>, n: nat)
    requires
        wf_garage(g),
        s4.len() > 0,
        s4[0] == '"',
        n >= 1,
    ensures
        parse_garage_members(
            enc_string(key_percent_full()) + seq![':'] + g.percent_full + (seq![','] + s4),
            n,
            pg2(g),
        ) == parse_garage_members(s4, (n - 1) as nat, pg3(g)),
{
    reveal_strlit("name");
    reveal_strlit("max_spaces");
    reveal_strlit("spaces_filled");
    reveal_strlit("spaces_left");
    reveal_strlit("percent_full");
    let t3 = seq![','] + s4;
    let v3 = g.percent_full;
    lemma_number_rt(v3, t3);
    lemma_number_inspect(v3);
    assert(garage_member_step(key_percent_full(), v3 + t3, pg2(g)) == Some((pg3(g), t3)));
    lemma_member_step(key_percent_full(), v3, t3, n, pg2(g), pg3(g));
    assert(t3.skip(1) =~= s4);
    lemma_skip_ws_nil(s4);
}

#[verifier::spinoff_prover]
proof fn lemma_step_filled(g: GarageModel, s5: Seq<char>, n: nat)
    requires
        s5.len() > 0,
        s5[0] == '"',
        n >= 1,
    ensures
        parse_garage_members(
            enc_string(key_spaces_filled()) + seq![':'] + enc_u16(g.spaces_filled as nat) + (seq![
                ','
            ] + s5),
            n,
            pg3(g),
        ) == parse_garage_members(s5, (n - 1) as nat, pg4(g)),
{
    reveal_strlit("name");
    reveal_strlit("max_spaces");
    reveal_strlit("spaces_filled");
    let t4 = seq![','] + s5;
    let v4 = enc_u16(g.spaces_filled as nat);
    lemma_enc_u16_digits(g.spaces_filled as nat);
    lemma_u16_rt(g.spaces_filled, t4);
    assert(garage_member_step(key_spaces_filled(), v4 + t4, pg3(g)) == Some((pg4(g), t4)));
    lemma_member_step(key_spaces_filled(), v4, t4, n, pg3(g), pg4(g));
    assert(t4.skip(1) =~= s5);
    lemma_skip_ws_nil(s5);
}

#[verifier::spinoff_prover]
proof fn lemma_step_left(g: GarageModel, rest: Seq<char>, n: nat)
    requires
        rest.len() > 0,
        n >= 1,
    ensures
        parse_garage_members(
            enc_string(key_spaces_left()) + seq![':'] + enc_u16(g.spaces_left as nat) + (seq!['}']
                + rest),
            n,
            pg4(g),
        ) == Some((g, rest)),
{
    reveal_strlit("name");
    reveal_strlit("max_spaces");
    reveal_strlit("spaces_filled");
    reveal_strlit("spaces_left");
    let t5 = seq!['}'] + rest;
    let v5 = enc_u16(g.spaces_left as nat);
    lemma_enc_u16_digits(g.spaces_left as nat);
    lemma_u16_rt(g.spaces_left, t5);
    let p5 = PartialGarage { spaces_left: Some(g.spaces_left), ..pg4(g) };
    assert(garage_member_step(key_spaces_left(), v5 + t5, pg4(g)) == Some((p5, t5)));
    lemma_member_step(key_spaces_left(), v5, t5, n, pg4(g), p5);
    assert(t5.skip(1) =~= rest);
    assert(finish_partial(p5) == Some(g));
}

/// A garage record is read back from its canonical text, whatever follows.
#[verifier::rlimit(100)]
#[verifier::spinoff_prover]
proof fn lemma_garage_rt(g: GarageModel, rest: Seq<char>)
    requires
        wf_garage(g),
        rest.len() > 0,
        rest[0] == ',' || rest[0] == ']',
    ensures
        parse_garage(enc_garage(g) + rest) == Some((g, rest)),
{
    let s = enc_garage(g) + rest;
    let v1 = enc_u16(g.max_spaces as nat);
    let v2 = enc_string(g.name);
    let v3 = g.percent_full;
    let v4 = enc_u16(g.spaces_filled as nat);
    let v5 = enc_u16(g.spaces_left as nat);
    let s5 = enc_string(key_spaces_left()) + seq![':'] + v5 + (seq!['}'] + rest);
    let s4 = enc_string(key_spaces_filled()) + seq![':'] + v4 + (seq![','] + s5);
    let s3 = enc_string(key_percent_full()) + seq![':'] + v3 + (seq![','] + s4);
    let s2 = enc_string(key_name()) + seq![':'] + v2 + (seq![','] + s3);
    let s1 = enc_string(key_max_spaces()) + seq![':'] + v1 + (seq![','] + s2);
    assert(s =~= seq!['{'] + s1);
    assert(s[0] == '{');
    assert(s.skip(1) =~= s1);
    assert(s1[0] == '"');
    lemma_skip_ws_nil(s1);
    let n1 = s.len() as nat;
    assert(n1 >= 5);
    assert(parse_garage(s) == parse_garage_members(s1, n1, empty_partial()));
    assert(s2[0] == '"');
    assert(s3[0] == '"');
    assert(s4[0] == '"');
    assert(s5[0] == '"');
    lemma_step_max(g, s2, n1);
    lemma_step_name(g, s3, (n1 - 1) as nat);
    lemma_step_percent(g, s4, (n1 - 2) as nat);
    lemma_step_filled(g, s5, (n1 - 3) as nat);
    lemma_step_left(g, rest, (n1 - 4) as nat);
}

/// The text of a record list is at least as long as the list.
proof fn lemma_enc_garages_len(gs: Seq<GarageModel>)
    ensures
        enc_garages(gs).len() >= gs.len(),
    decreases gs.len(),
{
    if gs.len() == 0 {
    } else if gs.len() == 1 {
        assert(enc_garage(gs[0]).len() >= 2);
    } else {
        lemma_enc_garages_len(gs.skip(1));
        assert(enc_garage(gs[0]).len() >= 2);
    }
}

/// The canonical text of any record starts the way an object starts.
proof fn lemma_enc_garage_head(g: GarageModel)
    ensures
        enc_garage(g).len() >= 2,
        enc_garage(g)[0] == '{',
{
}

/// The elements of an encoded record list are read back one by one.
#[verifier::rlimit(100)]
#[verifier::spinoff_prover]
proof fn lemma_elems_rt(gs: Seq<GarageModel>, acc: Seq<GarageModel>, rest: Seq<char>, n: nat)
    requires
        gs.len() >= 1,
        forall|k: int| 0 <= k < gs.len() ==> wf_garage(#[trigger] gs[k]),
        n >= gs.len(),
    ensures
        parse_garage_elems(enc_garages(gs) + seq![']'] + rest, n, acc) == Some((acc + gs, rest)),
    decreases gs.len(),
{
    let s = enc_garages(gs) + seq![']'] + rest;
    if gs.len() == 1 {
        let tail = seq![']'] + rest;
        assert(s =~= enc_garage(gs[0]) + tail);
        lemma_garage_rt(gs[0], tail);
        lemma_skip_ws_nil(tail);
        assert(tail.skip(1) =~= rest);
        assert(acc.push(gs[0]) =~= acc + gs);
    } else {
        let r = enc_garages(gs.skip(1)) + seq![']'] + rest;
        let tail = seq![','] + r;
        assert(s =~= enc_garage(gs[0]) + tail);
        lemma_garage_rt(gs[0], tail);
        lemma_skip_ws_nil(tail);
        assert(tail.skip(1) =~= r);
        lemma_enc_garage_head(gs.skip(1)[0]);
        assert(enc_garages(gs.skip(1))[0] == '{') by {
            if gs.skip(1).len() == 1 {
                assert(enc_garages(gs.skip(1)) == enc_garage(gs.skip(1)[0]));
            } else {
                assert(enc_garages(gs.skip(1))[0] == enc_garage(gs.skip(1)[0])[0]);
            }
        }
        assert(r[0] == '{');
        lemma_skip_ws_nil(r);
        assert(forall|k: int| 0 <= k < gs.skip(1).len() ==> wf_garage(#[trigger] gs.skip(1)[k]))
            by {
            assert(forall|k: int|
                0 <= k < gs.skip(1).len() ==> gs.skip(1)[k] == gs[k + 1]);
        }
        lemma_elems_rt(gs.skip(1), acc.push(gs[0]), rest, (n - 1) as nat);
        assert(acc.push(gs[0]) + gs.skip(1) =~= acc + gs);
    }
}

/// Decoding the canonical encoding of a well-formed collection yields
/// exactly the collection back: the codec loses none of the five fields
/// of any record.
#[verifier::rlimit(100)]
#[verifier::spinoff_prover]
pub proof fn lemma_round_trip(gs: Seq<GarageModel>)
    requires
        wf_collection(gs),
    ensures
        parse_doc(enc_doc(gs)) == Some(gs),
{
    let s = enc_doc(gs);
    let r1 = seq![':'] + enc_array(gs) + seq!['}'];
    let s1 = enc_string(key_garages()) + r1;
    assert(s =~= seq!['{'] + s1);
    assert(s[0] == '{');
    lemma_skip_ws_nil(s);
    assert(s.skip(1) =~= s1);
    assert(s1[0] == '"');
    lemma_skip_ws_nil(s1);
    let n0 = s.len() as nat;
    assert(n0 >= 1);
    // the one member: its key, then the array
    assert(s1.skip(1) =~= escape_string(key_garages()) + seq!['"'] + r1);
    lemma_string_rt(key_garages(), r1);
    assert(r1[0] == ':');
    lemma_skip_ws_nil(r1);
    let r3 = enc_array(gs) + seq!['}'];
    assert(r1.skip(1) =~= r3);
    assert(r3[0] == '[');
    lemma_skip_ws_nil(r3);
    // the array
    let ra = enc_garages(gs) + seq![']'] + seq!['}'];
    assert(r3.skip(1) =~= ra);
    if gs.len() == 0 {
        assert(ra =~= seq![']'] + seq!['}']);
        assert(ra[0] == ']');
        lemma_skip_ws_nil(ra);
        assert(ra.skip(1) =~= seq!['}']);
        assert(Seq::<GarageModel>::empty() =~= gs);
        assert(parse_garages_array(r3) == Some((gs, seq!['}'])));
    } else {
        lemma_enc_garages_len(gs);
        lemma_enc_garage_head(gs[0]);
        assert(enc_garages(gs)[0] == '{') by {
            if gs.len() == 1 {
                assert(enc_garages(gs) == enc_garage(gs[0]));
            } else {
                assert(enc_garages(gs)[0] == enc_garage(gs[0])[0]);
            }
        }
        assert(ra[0] == '{');
        lemma_skip_ws_nil(ra);
        lemma_elems_rt(gs, Seq::<GarageModel>::empty(), seq!['}'], r3.len() as nat);
        assert(Seq::<GarageModel>::empty() + gs =~= gs);
        assert(parse_garages_array(r3) == Some((gs, seq!['}'])));
    }
    // close the envelope
    let r5 = seq!['}'];
    lemma_skip_ws_nil(r5);
    assert(r5[0] == '}');
    assert(r5.skip(1) =~= Seq::<char>::empty());
    assert(parse_doc_members(s1, n0, None) == Some((gs, Seq::<char>::empty())));
    assert(skip_ws(Seq::<char>::empty()).len() == 0);
}

/// A number token starts with a minus sign or a digit.
proof fn lemma_number_inspect(t: Seq<char>)
    requires
        is_number_token(t),
    ensures
        t.len() > 0,
        t[0] == '-' || is_digit(t[0]),
{
    if t.len() == 0 {
        assert(lex_number(t) is None);
    } else if t[0] != '-' {
        let r1 = lex_int_part(t);
        assert(lex_number(t) is Some);
        lemma_lex_digits_inv(t);
        let (ds, r) = lex_digits(t);
        if ds.len() == 0 {
            assert(r1 is None);
        } else {
            assert(t =~= ds + r);
            assert(t[0] == ds[0]);
        }
    }
}

/// What the number lexer reads is itself one whole number literal.
#[verifier::rlimit(100)]
#[verifier::spinoff_prover]
proof fn lemma_number_self(s: Seq<char>)
    requires
        lex_number(s) is Some,
    ensures
        is_number_token(lex_number(s)->Some_0.0),
{
    let sl: int = if s.len() > 0 && s[0] == '-' {
        1
    } else {
        0
    };
    let (ip, s2) = lex_int_part(s.skip(sl))->Some_0;
    let (fp, s3) = lex_frac(s2)->Some_0;
    let (ep, r) = lex_exp(s3)->Some_0;
    let t = s.subrange(0, sl) + ip + fp + ep;
    assert(lex_number(s)->Some_0.0 == t);
    lemma_lex_digits_inv(s.skip(sl));
    assert(ip == lex_digits(s.skip(sl)).0);
    assert(ip.len() > 0);
    // heads of the optional parts
    if fp.len() > 0 {
        assert(s2.len() > 0 && s2[0] == '.');
        assert(fp == seq!['.'] + lex_digits(s2.skip(1)).0);
        assert(fp[0] == '.');
        lemma_lex_digits_inv(s2.skip(1));
    }
    if ep.len() > 0 {
        assert(s3.len() > 0 && (s3[0] == 'e' || s3[0] == 'E'));
    }
    // the sign of the token
    assert(t.len() > 0);
    let slt: int = if t[0] == '-' {
        1
    } else {
        0
    };
    if sl == 1 {
        assert(t[0] == s[0]);
        assert(slt == 1);
    } else {
        assert(t[0] == ip[0]);
        assert(is_digit(ip[0]));
        assert(t[0] != '-');
        assert(slt == 0);
    }
    // integer part of the token
    let tail1 = fp + ep;
    assert(t.skip(sl) =~= ip + tail1);
    if tail1.len() > 0 {
        if fp.len() > 0 {
            assert(tail1[0] == '.');
        } else {
            assert(tail1 =~= ep);
            assert(tail1[0] == 'e' || tail1[0] == 'E');
        }
        assert(!is_digit(tail1[0]));
    }
    lemma_lex_digits_concat(ip, tail1);
    assert(lex_int_part(t.skip(sl)) == Some((ip, tail1)));
    // fraction part of the token
    if fp.len() > 0 {
        let fd = lex_digits(s2.skip(1)).0;
        assert(tail1[0] == '.');
        assert(tail1.skip(1) =~= fd + ep);
        if ep.len() > 0 {
            assert(!is_digit(ep[0]));
        }
        lemma_lex_digits_concat(fd, ep);
        assert(fd.len() > 0);
        assert(seq!['.'] + fd =~= fp);
        assert(lex_frac(tail1) == Some((fp, ep)));
    } else {
        assert(tail1 =~= ep);
        if ep.len() > 0 {
            assert(tail1[0] != '.');
        }
        assert(lex_frac(tail1) == Some((fp, ep)));
    }
    // exponent part of the token
    if ep.len() > 0 {
        let sl2: int = if s3.len() >= 2 && (s3[1] == '+' || s3[1] == '-') {
            2
        } else {
            1
        };
        let ds = lex_digits(s3.skip(sl2)).0;
        lemma_lex_digits_inv(s3.skip(sl2));
        assert(ds.len() > 0);
        assert(ep == s3.subrange(0, sl2) + ds);
        assert(ep.len() == sl2 + ds.len());
        assert(ep[0] == s3[0]);
        let sl2t: int = if ep.len() >= 2 && (ep[1] == '+' || ep[1] == '-') {
            2
        } else {
            1
        };
        if sl2 == 2 {
            assert(ep[1] == s3[1]);
            assert(sl2t == 2);
        } else {
            assert(ep[1] == ds[0]);
            assert(is_digit(ds[0]));
            assert(sl2t == 1);
        }
        assert(ep.skip(sl2) =~= ds + Seq::<char>::empty());
        assert(ds + Seq::<char>::empty() =~= ds);
        lemma_lex_digits_concat(ds, Seq::<char>::empty());
        assert(ep.subrange(0, sl2) =~= s3.subrange(0, sl2));
        assert(lex_exp(ep) == Some((ep.subrange(0, sl2) + ds, Seq::<char>::empty())));
        assert(ep.subrange(0, sl2) + ds == ep);
    } else {
        assert(lex_exp(ep) == Some((Seq::<char>::empty(), ep)));
    }
    assert(t.subrange(0, sl) =~= s.subrange(0, sl));
    assert(lex_number(t) == Some((t.subrange(0, sl) + ip + fp + ep, Seq::<char>::empty())));
    assert(t.subrange(0, sl) + ip + fp + ep == t);
}

/// Reading members keeps the ratio field an exact number literal.
#[verifier::rlimit(100)]
#[verifier::spinoff_prover]
proof fn lemma_members_wf(s: Seq<char>, n: nat, p: PartialGarage)
    requires
        parse_garage_members(s, n, p) is Some,
        p.percent_full matches Some(t) ==> is_number_token(t),
    ensures
        wf_garage(parse_garage_members(s, n, p)->Some_0.0),
    decreases n,
{
    lemma_keys_distinct();
    assert(s.len() > 0 && n > 0 && s[0] == '"');
    let (k, r1) = lex_string_rest(s.skip(1))->Some_0;
    let r2 = skip_ws(r1);
    assert(r2.len() > 0 && r2[0] == ':');
    let r3 = skip_ws(r2.skip(1));
    let (p2, r4) = garage_member_step(k, r3, p)->Some_0;
    if k == key_percent_full() {
        assert(garage_member_step(k, r3, p) is Some);
        assert(p.percent_full is None);
        assert(lex_number(r3) is Some);
        lemma_number_self(r3);
        assert(p2.percent_full matches Some(t) ==> is_number_token(t));
    } else {
        assert(p2.percent_full == p.percent_full);
    }
    let r5 = skip_ws(r4);
    assert(r5.len() > 0);
    if r5[0] == ',' {
        lemma_members_wf(skip_ws(r5.skip(1)), (n - 1) as nat, p2);
    } else {
        assert(r5[0] == '}');
        let g = finish_partial(p2)->Some_0;
        assert(g.percent_full == p2.percent_full->Some_0);
    }
}

/// A garage record read from text carries an exact number literal.
proof fn lemma_garage_wf(s: Seq<char>)
    requires
        parse_garage(s) is Some,
    ensures
        wf_garage(parse_garage(s)->Some_0.0),
{
    lemma_members_wf(skip_ws(s.skip(1)), s.len() as nat, empty_partial());
}

/// Every record read from an array element list is well formed.
proof fn lemma_elems_wf(s: Seq<char>, n: nat, acc: Seq<GarageModel>)
    requires
        parse_garage_elems(s, n, acc) is Some,
        forall|i: int| 0 <= i < acc.len() ==> wf_garage(#[trigger] acc[i]),
    ensures
        forall|i: int|
            0 <= i < parse_garage_elems(s, n, acc)->Some_0.0.len() ==> wf_garage(
                #[trigger] parse_garage_elems(s, n, acc)->Some_0.0[i],
            ),
    decreases n,
{
    assert(n > 0);
    let (g, r1) = parse_garage(s)->Some_0;
    lemma_garage_wf(s);
    let r2 = skip_ws(r1);
    assert(r2.len() > 0);
    if r2[0] == ',' {
        lemma_elems_wf(skip_ws(r2.skip(1)), (n - 1) as nat, acc.push(g));
    }
}

/// Every record read from the garages array is well formed.
proof fn lemma_array_wf(s: Seq<char>)
    requires
        parse_garages_array(s) is Some,
    ensures
        forall|i: int|
            0 <= i < parse_garages_array(s)->Some_0.0.len() ==> wf_garage(
                #[trigger] parse_garages_array(s)->Some_0.0[i],
            ),
{
    let r = skip_ws(s.skip(1));
    if r.len() > 0 && r[0] == ']' {
    } else {
        lemma_elems_wf(r, s.len() as nat, Seq::<GarageModel>::empty());
    }
}

/// Every record read from the envelope members is well formed.
proof fn lemma_doc_members_wf(s: Seq<char>, n: nat, found: Option<Seq<GarageModel>>)
    requires
        parse_doc_members(s, n, found) is Some,
        found matches Some(gs) ==> forall|i: int|
            0 <= i < gs.len() ==> wf_garage(#[trigger] gs[i]),
    ensures
        forall|i: int|
            0 <= i < parse_doc_members(s, n, found)->Some_0.0.len() ==> wf_garage(
                #[trigger] parse_doc_members(s, n, found)->Some_0.0[i],
            ),
    decreases n,
{
    assert(s.len() > 0 && n > 0 && s[0] == '"');
    let (k, r1) = lex_string_rest(s.skip(1))->Some_0;
    let r2 = skip_ws(r1);
    assert(r2.len() > 0 && r2[0] == ':');
    let r3 = skip_ws(r2.skip(1));
    if k == key_garages() {
        lemma_array_wf(r3);
        let (gs, r4) = parse_garages_array(r3)->Some_0;
        let r5 = skip_ws(r4);
        if r5.len() > 0 && r5[0] == ',' {
            lemma_doc_members_wf(skip_ws(r5.skip(1)), (n - 1) as nat, Some(gs));
        }
    } else {
        let r4 = skip_value(r3, crate::grammar::VALUE_DEPTH as nat)->Some_0;
        let r5 = skip_ws(r4);
        if r5.len() > 0 && r5[0] == ',' {
            lemma_doc_members_wf(skip_ws(r5.skip(1)), (n - 1) as nat, found);
        }
    }
}

/// Whatever body decodes at all decodes to a well-formed collection.
pub proof fn lemma_parse_doc_wf(s: Seq<char>)
    requires
        parse_doc(s) is Some,
    ensures
        wf_collection(parse_doc(s)->Some_0),
{
    let r0 = skip_ws(s);
    lemma_doc_members_wf(skip_ws(r0.skip(1)), s.len() as nat, None);
}

/// Decoding, re-encoding and decoding again gives the same records: for
/// every body the parser accepts, nothing of the five fields is lost.
pub proof fn lemma_body_round_trip(s: Seq<char>, c: Seq<GarageModel>)
    requires
        parse_doc(s) == Some(c),
    ensures
        wf_collection(c),
        parse_doc(enc_doc(c)) == Some(c),
{
    lemma_parse_doc_wf(s);
    lemma_round_trip(c);
}


/// The five member keys are pairwise different.
proof fn lemma_keys_distinct()
    ensures
        key_name() != key_max_spaces(),
        key_name() != key_spaces_filled(),
        key_name() != key_spaces_left(),
        key_name() != key_percent_full(),
        key_max_spaces() != key_spaces_filled(),
        key_max_spaces() != key_spaces_left(),
        key_max_spaces() != key_percent_full(),
        key_spaces_filled() != key_spaces_left(),
        key_spaces_filled() != key_percent_full(),
        key_spaces_left() != key_percent_full(),
{
    reveal_strlit("name");
    reveal_strlit("max_spaces");
    reveal_strlit("spaces_filled");
    reveal_strlit("spaces_left");
    reveal_strlit("percent_full");
    assert("name"@.len() == 4);
    assert("max_spaces"@.len() == 10);
    assert("spaces_filled"@.len() == 13);
    assert("spaces_left"@.len() == 11);
    assert("percent_full"@.len() == 12);
}

} // verus!
