//! The executable encoder: writes the canonical JSON text of a collection.

use vstd::prelude::*;
use vstd::string::StrSliceExecFns;
use vstd::string::StringExecFns;
use crate::garage::{Garage, GarageCollection, garages_view};
use crate::ext::push_char;
use crate::grammar::{
    escape_char, escape_string, enc_string, enc_u16, enc_garage, enc_garages, enc_doc, digit_char,
    hex_char,
};

verus! {

/// Appends one character, seen as a one-element piece.
pub(crate) fn push_c(out: &mut String, c: char)
    ensures
        final(out)@ == old(out)@ + seq![c],
{
    push_char(out, c);
    proof {
        assert(old(out)@.push(c) =~= old(out)@ + seq![c]);
    }
}

/// The character for a value below sixteen.
fn hex_char_x(v: u32) -> (c: char)
    requires
        v < 16,
    ensures
        c == hex_char(v as nat),
{
    if v == 0 {
        '0'
    } else if v == 1 {
        '1'
    } else if v == 2 {
        '2'
    } else if v == 3 {
        '3'
    } else if v == 4 {
        '4'
    } else if v == 5 {
        '5'
    } else if v == 6 {
        '6'
    } else if v == 7 {
        '7'
    } else if v == 8 {
        '8'
    } else if v == 9 {
        '9'
    } else if v == 10 {
        'a'
    } else if v == 11 {
        'b'
    } else if v == 12 {
        'c'
    } else if v == 13 {
        'd'
    } else if v == 14 {
        'e'
    } else {
        'f'
    }
}

/// Escaping a text one character at a time is escaping the whole.
proof fn lemma_escape_append(a: Seq<char>, c: char)
    ensures
        escape_string(a.push(c)) == escape_string(a) + escape_char(c),
    decreases a.len(),
{
    if a.len() == 0 {
        assert(a.push(c).len() == 1);
        assert(a.push(c)[0] == c);
        assert(a.push(c).skip(1) =~= Seq::<char>::empty());
        assert(escape_string(Seq::<char>::empty()) == Seq::<char>::empty());
        assert(escape_string(a.push(c)) == escape_char(c) + escape_string(Seq::<char>::empty()));
        assert(escape_char(c) + Seq::<char>::empty() =~= escape_char(c));
        assert(escape_string(a) == Seq::<char>::empty());
        assert(escape_string(a) + escape_char(c) =~= escape_char(c));
    } else {
        lemma_escape_append(a.skip(1), c);
        assert(a.push(c).skip(1) =~= a.skip(1).push(c));
        assert(a.push(c)[0] == a[0]);
        assert(escape_string(a.push(c)) == escape_char(a[0]) + escape_string(a.skip(1).push(c)));
        assert(escape_string(a) == escape_char(a[0]) + escape_string(a.skip(1)));
        assert(escape_char(a[0]) + (escape_string(a.skip(1)) + escape_char(c)) =~= (escape_char(
            a[0],
        ) + escape_string(a.skip(1))) + escape_char(c));
    }
}

/// Appends the escaped form of a text.
fn append_escaped(out: &mut String, t: &str)
    ensures
        final(out)@ == old(out)@ + escape_string(t@),
{
    let end = t.unicode_len();
    let mut i: usize = 0;
    proof {
        assert(t@.subrange(0, 0) =~= Seq::<char>::empty());
        assert(old(out)@ + escape_string(Seq::<char>::empty()) =~= old(out)@);
    }
    while i < end
        invariant
            end == t@.len(),
            0 <= i <= end,
            out@ == old(out)@ + escape_string(t@.subrange(0, i as int)),
        decreases end - i,
    {
        let c = t.get_char(i);
        proof {
            assert(t@.subrange(0, i as int + 1) =~= t@.subrange(0, i as int).push(c));
            lemma_escape_append(t@.subrange(0, i as int), c);
        }
        let ghost pre = out@;
        if c == '"' {
            push_c(out, '\\');
            push_c(out, '"');
            proof {
                assert((pre + seq!['\\']) + seq!['"'] =~= pre + escape_char(c));
            }
        } else if c == '\\' {
            push_c(out, '\\');
            push_c(out, '\\');
            proof {
                assert((pre + seq!['\\']) + seq!['\\'] =~= pre + escape_char(c));
            }
        } else if (c as u32) < 0x20 {
            push_c(out, '\\');
            push_c(out, 'u');
            push_c(out, '0');
            push_c(out, '0');
            push_c(out, hex_char_x((c as u32) / 16));
            push_c(out, hex_char_x((c as u32) % 16));
            proof {
                assert(pre + seq!['\\'] + seq!['u'] + seq!['0'] + seq!['0'] + seq![hex_char(
                    ((c as u32) / 16) as nat,
                )] + seq![hex_char(((c as u32) % 16) as nat)] =~= pre + escape_char(c));
            }
        } else {
            push_c(out, c);
            proof {
                assert(pre + seq![c] =~= pre + escape_char(c));
            }
        }
        proof {
            assert(pre + escape_char(c) =~= old(out)@ + escape_string(t@.subrange(0, i as int + 1)));
        }
        i += 1;
    }
    proof {
        assert(t@.subrange(0, end as int) =~= t@);
    }
}

/// Appends a quoted, escaped text.
fn append_quoted(out: &mut String, t: &str)
    ensures
        final(out)@ == old(out)@ + enc_string(t@),
{
    push_c(out, '"');
    append_escaped(out, t);
    push_c(out, '"');
    proof {
        assert(((old(out)@ + seq!['"']) + escape_string(t@)) + seq!['"'] =~= old(out)@ + enc_string(
            t@,
        ));
    }
}

/// Appends the decimal digits of a value.
pub(crate) fn append_u16(out: &mut String, v: u16)
    ensures
        final(out)@ == old(out)@ + enc_u16(v as nat),
    decreases v,
{
    if v < 10 {
        push_c(out, hex_char_x(v as u32));
        proof {
            assert(seq![digit_char(v as nat)] =~= enc_u16(v as nat));
        }
    } else {
        append_u16(out, v / 10);
        push_c(out, hex_char_x((v % 10) as u32));
        proof {
            assert((old(out)@ + enc_u16((v / 10) as nat)) + seq![digit_char((v % 10) as nat)]
                =~= old(out)@ + enc_u16(v as nat));
        }
    }
}

/// Appends the canonical text of one garage record.
#[verifier::rlimit(60)]
fn append_garage(out: &mut String, g: &Garage)
    ensures
        final(out)@ == old(out)@ + enc_garage(g@),
{
    push_c(out, '{');
    append_quoted(out, "max_spaces");
    push_c(out, ':');
    append_u16(out, g.max_spaces);
    push_c(out, ',');
    append_quoted(out, "name");
    push_c(out, ':');
    append_quoted(out, g.name.as_str());
    push_c(out, ',');
    append_quoted(out, "percent_full");
    push_c(out, ':');
    out.append(g.percent_full.as_str());
    push_c(out, ',');
    append_quoted(out, "spaces_filled");
    push_c(out, ':');
    append_u16(out, g.spaces_filled);
    push_c(out, ',');
    append_quoted(out, "spaces_left");
    push_c(out, ':');
    append_u16(out, g.spaces_left);
    push_c(out, '}');
    proof {
        assert(out@ =~= old(out)@ + enc_garage(g@));
    }
}

/// Appends the records from `i` on, comma separated.
fn append_garages_from(out: &mut String, v: &Vec<Garage>, i: usize)
    requires
        i <= v@.len(),
    ensures
        final(out)@ == old(out)@ + enc_garages(garages_view(v@).skip(i as int)),
    decreases v@.len() - i,
{
    let ghost gsv = garages_view(v@);
    if i == v.len() {
        proof {
            assert(gsv.skip(i as int) =~= Seq::<crate::garage::GarageModel>::empty());
            assert(out@ + enc_garages(gsv.skip(i as int)) =~= out@);
        }
        return ;
    }
    let g = &v[i];
    proof {
        assert(gsv.skip(i as int)[0] == g@);
    }
    if i + 1 == v.len() {
        append_garage(out, g);
        proof {
            assert(gsv.skip(i as int).len() == 1);
            assert(enc_garages(gsv.skip(i as int)) == enc_garage(g@));
        }
    } else {
        append_garage(out, g);
        push_c(out, ',');
        proof {
            assert(gsv.skip(i as int).skip(1) =~= gsv.skip(i as int + 1));
        }
        append_garages_from(out, v, i + 1);
        proof {
            assert(((old(out)@ + enc_garage(g@)) + seq![',']) + enc_garages(gsv.skip(i as int + 1))
                =~= old(out)@ + enc_garages(gsv.skip(i as int)));
        }
    }
}

/// Writes the canonical JSON text of a collection: the envelope object with
/// its `garages` array, no whitespace, fields in a fixed order.
pub fn encode_garages_json(c: &GarageCollection) -> (r: String)
    ensures
        r@ == enc_doc(c@),
{
    let mut out = String::new();
    push_c(&mut out, '{');
    append_quoted(&mut out, "garages");
    push_c(&mut out, ':');
    push_c(&mut out, '[');
    proof {
        assert(garages_view(c.garages@).skip(0) =~= c@);
    }
    append_garages_from(&mut out, &c.garages, 0);
    push_c(&mut out, ']');
    push_c(&mut out, '}');
    proof {
        assert(out@ =~= enc_doc(c@));
    }
    out
}

} // verus!
