//! A verified UTF-16 codec: between character sequences and 16-bit code
//! units, with the round-trip law proved.
//!
//! Characters outside the basic multilingual plane become a surrogate pair;
//! a lone surrogate in the input makes decoding fail.

use vstd::prelude::*;
use vstd::arithmetic::div_mod::{
    lemma_fundamental_div_mod, lemma_fundamental_div_mod_converse_div,
    lemma_fundamental_div_mod_converse_mod,
};
use vstd::utf8::{char_is_scalar, char_u32_cast, is_scalar};

verus! {

/// The first unit of a surrogate pair.
pub open spec fn is_high_surrogate(u: u16) -> bool {
    0xD800 <= u < 0xDC00
}

/// The second unit of a surrogate pair.
pub open spec fn is_low_surrogate(u: u16) -> bool {
    0xDC00 <= u < 0xE000
}

/// The UTF-16 code units of one Unicode scalar value: the value itself below
/// 0x10000, a surrogate pair above.
pub open spec fn units_of_scalar(v: u32) -> Seq<u16> {
    if v < 0x10000 {
        seq![v as u16]
    } else {
        seq![
            (0xD800 + (v - 0x10000) / 0x400) as u16,
            (0xDC00 + (v - 0x10000) % 0x400) as u16,
        ]
    }
}

/// The UTF-16 encoding of a character sequence.
pub open spec fn utf16_of(chars: Seq<char>) -> Seq<u16>
    decreases chars.len(),
{
    if chars.len() == 0 {
        Seq::empty()
    } else {
        units_of_scalar(chars[0] as u32) + utf16_of(chars.drop_first())
    }
}

/// True when the sequence starts with a whole encoded scalar: either a
/// non-surrogate unit or a high surrogate followed by a low one.
pub open spec fn valid_first_unit(units: Seq<u16>) -> bool
    recommends
        units.len() > 0,
{
    if is_high_surrogate(units[0]) {
        units.len() >= 2 && is_low_surrogate(units[1])
    } else {
        !is_low_surrogate(units[0])
    }
}

/// How many units the first encoded scalar occupies.
pub open spec fn first_scalar_len(units: Seq<u16>) -> int
    recommends
        units.len() > 0,
{
    if is_high_surrogate(units[0]) {
        2
    } else {
        1
    }
}

/// The scalar value of the first encoded scalar.
pub open spec fn first_scalar(units: Seq<u16>) -> u32
    recommends
        units.len() > 0,
        valid_first_unit(units),
{
    if is_high_surrogate(units[0]) {
        (0x10000 + (units[0] - 0xD800) * 0x400 + (units[1] - 0xDC00)) as u32
    } else {
        units[0] as u32
    }
}

/// True when the whole sequence is a well-formed UTF-16 encoding.
pub open spec fn valid_utf16(units: Seq<u16>) -> bool
    decreases units.len(),
{
    if units.len() == 0 {
        true
    } else if !valid_first_unit(units) {
        false
    } else {
        valid_utf16(units.skip(first_scalar_len(units)))
    }
}

/// The characters a well-formed UTF-16 sequence encodes.
pub open spec fn decode_utf16(units: Seq<u16>) -> Seq<char>
    recommends
        valid_utf16(units),
    decreases units.len(),
{
    if units.len() == 0 {
        Seq::empty()
    } else if !valid_first_unit(units) {
        Seq::empty()
    } else {
        seq![first_scalar(units) as char] + decode_utf16(units.skip(first_scalar_len(units)))
    }
}

/// A character's encoding, put in front of anything, is a well-formed first
/// scalar that decodes back to the character's value.
pub proof fn lemma_scalar_first(c: char, rest: Seq<u16>)
    ensures
        ({
            let u = units_of_scalar(c as u32);
            let w = u + rest;
            &&& 1 <= u.len() <= 2
            &&& valid_first_unit(w)
            &&& first_scalar_len(w) == u.len()
            &&& first_scalar(w) == c as u32
            &&& w.skip(u.len() as int) == rest
        }),
{
    char_is_scalar(c);
    let v = c as u32;
    let u = units_of_scalar(v);
    let w = u + rest;
    if v < 0x10000 {
        assert(w[0] == v as u16);
        assert(w.skip(1) =~= rest);
    } else {
        let x = (v - 0x10000) as int;
        lemma_fundamental_div_mod(x, 0x400);
        assert(0x400 * (x / 0x400) <= x);
        assert(x / 0x400 < 0x400);
        assert(w[0] == (0xD800 + x / 0x400) as u16);
        assert(w[1] == (0xDC00 + x % 0x400) as u16);
        assert(is_high_surrogate(w[0]));
        assert(is_low_surrogate(w[1]));
        assert(first_scalar(w) == v);
        assert(w.skip(2) =~= rest);
    }
}

/// Encoding a character sequence yields well-formed UTF-16 that decodes back
/// to the same sequence.
pub proof fn lemma_utf16_round_trip(chars: Seq<char>)
    ensures
        valid_utf16(utf16_of(chars)),
        decode_utf16(utf16_of(chars)) == chars,
    decreases chars.len(),
{
    if chars.len() == 0 {
        assert(decode_utf16(utf16_of(chars)) =~= chars);
    } else {
        let c = chars[0];
        let rest = utf16_of(chars.drop_first());
        lemma_scalar_first(c, rest);
        char_u32_cast(c, c as u32);
        lemma_utf16_round_trip(chars.drop_first());
        assert(utf16_of(chars) == units_of_scalar(c as u32) + rest);
        assert(decode_utf16(utf16_of(chars)) =~= chars);
    }
}

/// Appending one character extends the encoding by that character's units.
pub proof fn lemma_utf16_of_push(chars: Seq<char>, c: char)
    ensures
        utf16_of(chars.push(c)) == utf16_of(chars) + units_of_scalar(c as u32),
    decreases chars.len(),
{
    if chars.len() == 0 {
        assert(chars.push(c).drop_first() =~= Seq::<char>::empty());
        assert(chars.push(c)[0] == c);
        assert(utf16_of(chars.push(c)) == units_of_scalar(c as u32) + utf16_of(
            Seq::<char>::empty(),
        ));
        assert(units_of_scalar(c as u32) + Seq::<u16>::empty() =~= units_of_scalar(c as u32));
        assert(Seq::<u16>::empty() + units_of_scalar(c as u32) =~= units_of_scalar(c as u32));
    } else {
        assert(chars.push(c).drop_first() =~= chars.drop_first().push(c));
        assert(chars.push(c)[0] == chars[0]);
        lemma_utf16_of_push(chars.drop_first(), c);
        assert(utf16_of(chars.push(c)) =~= utf16_of(chars) + units_of_scalar(c as u32));
    }
}

/// After a well-formed prefix, well-formedness of the whole is
/// well-formedness of the remainder.
pub proof fn lemma_valid_utf16_suffix(p: Seq<u16>, s: Seq<u16>)
    requires
        valid_utf16(p),
    ensures
        valid_utf16(p + s) == valid_utf16(s),
    decreases p.len(),
{
    if p.len() == 0 {
        assert(p + s =~= s);
    } else {
        let w = p + s;
        let k = first_scalar_len(p);
        assert(w[0] == p[0]);
        if is_high_surrogate(p[0]) {
            assert(w[1] == p[1]);
        }
        assert(valid_first_unit(w));
        assert(first_scalar_len(w) == k);
        assert(w.skip(k) =~= p.skip(k) + s);
        lemma_valid_utf16_suffix(p.skip(k), s);
    }
}

/// Decoding well-formed UTF-16 and re-encoding the characters yields the
/// original units.
pub proof fn lemma_utf16_decode_encode(units: Seq<u16>)
    requires
        valid_utf16(units),
    ensures
        utf16_of(decode_utf16(units)) == units,
    decreases units.len(),
{
    if units.len() == 0 {
        assert(utf16_of(decode_utf16(units)) =~= units);
    } else {
        let k = first_scalar_len(units);
        let v = first_scalar(units);
        if is_high_surrogate(units[0]) {
            let a = (units[0] - 0xD800) as int;
            let b = (units[1] - 0xDC00) as int;
            assert(v == 0x10000 + a * 0x400 + b);
            assert(is_scalar(v));
            lemma_fundamental_div_mod_converse_div(v - 0x10000, 0x400, a, b);
            lemma_fundamental_div_mod_converse_mod(v - 0x10000, 0x400, a, b);
            assert(units_of_scalar(v) =~= units.take(2));
        } else {
            assert(is_scalar(v));
            assert(units_of_scalar(v) =~= units.take(1));
        }
        let c = v as char;
        assert(c as u32 == v);
        let chars = decode_utf16(units);
        assert(chars == seq![c] + decode_utf16(units.skip(k)));
        assert(chars[0] == c);
        assert(chars.drop_first() =~= decode_utf16(units.skip(k)));
        lemma_utf16_decode_encode(units.skip(k));
        assert(utf16_of(chars) == units_of_scalar(c as u32) + utf16_of(chars.drop_first()));
        assert(utf16_of(decode_utf16(units)) =~= units);
    }
}

/// Encodes a string as UTF-16 code units.
pub fn encode_utf16_units(s: &str) -> (r: Vec<u16>)
    ensures
        r@ == utf16_of(s@),
{
    let n = s.unicode_len();
    let mut r: Vec<u16> = Vec::new();
    let mut j: usize = 0;
    proof {
        assert(s@.subrange(0, 0) =~= Seq::<char>::empty());
    }
    while j < n
        invariant
            j <= n,
            n == s@.len(),
            r@ == utf16_of(s@.subrange(0, j as int)),
        decreases n - j,
    {
        let c = s.get_char(j);
        let v = c as u32;
        proof {
            char_is_scalar(c);
            lemma_utf16_of_push(s@.subrange(0, j as int), c);
            assert(s@.subrange(0, j as int).push(s@[j as int]) =~= s@.subrange(0, j + 1));
        }
        if v < 0x10000 {
            r.push(v as u16);
        } else {
            let x = v - 0x10000;
            proof {
                lemma_fundamental_div_mod(x as int, 0x400);
                assert(0x400 * (x as int / 0x400) <= x as int);
            }
            let hi = 0xD800 + x / 0x400;
            let lo = 0xDC00 + x % 0x400;
            r.push(hi as u16);
            r.push(lo as u16);
        }
        proof {
            assert(r@ =~= utf16_of(s@.subrange(0, j + 1)));
        }
        j += 1;
    }
    proof {
        assert(s@.subrange(0, n as int) =~= s@);
    }
    r
}

/// Decodes UTF-16 code units into a string; fails exactly on ill-formed
/// input (a lone or misordered surrogate).
pub fn decode_utf16_units(units: &Vec<u16>) -> (r: Option<String>)
    ensures
        r is Some <==> valid_utf16(units@),
        r matches Some(s) ==> utf16_of(s@) == units@ && s@ == decode_utf16(units@),
{
    let n = units.len();
    let mut out = String::new();
    let mut i: usize = 0;
    proof {
        assert(units@.subrange(0, 0) =~= Seq::<u16>::empty());
    }
    while i < n
        invariant
            i <= n,
            n == units@.len(),
            utf16_of(out@) == units@.subrange(0, i as int),
        decreases n - i,
    {
        let ghost prefix = units@.subrange(0, i as int);
        let ghost suffix = units@.skip(i as int);
        proof {
            assert(prefix + suffix =~= units@);
            assert(suffix[0] == units@[i as int]);
            if i + 1 < n {
                assert(suffix[1] == units@[i + 1]);
            }
        }
        let u = units[i];
        if 0xD800 <= u && u < 0xDC00 {
            // High surrogate: a low surrogate must follow.
            if i + 1 >= n {
                proof {
                    lemma_utf16_round_trip(out@);
                    lemma_valid_utf16_suffix(prefix, suffix);
                }
                return None;
            }
            let u2 = units[i + 1];
            if !(0xDC00 <= u2 && u2 < 0xE000) {
                proof {
                    lemma_utf16_round_trip(out@);
                    lemma_valid_utf16_suffix(prefix, suffix);
                }
                return None;
            }
            let v: u32 = 0x10000 + (u as u32 - 0xD800) * 0x400 + (u2 as u32 - 0xDC00);
            let c = match char::from_u32(v) {
                Some(c) => c,
                None => {
                    proof {
                        assert(is_scalar(v));
                        assert(false);
                    }
                    return None;
                },
            };
            proof {
                lemma_utf16_of_push(out@, c);
                lemma_fundamental_div_mod_converse_div(
                    v - 0x10000,
                    0x400,
                    u - 0xD800,
                    u2 - 0xDC00,
                );
                lemma_fundamental_div_mod_converse_mod(
                    v - 0x10000,
                    0x400,
                    u - 0xD800,
                    u2 - 0xDC00,
                );
                assert(units_of_scalar(c as u32) =~= units@.subrange(i as int, i + 2));
                assert(prefix + units@.subrange(i as int, i + 2) =~= units@.subrange(0, i + 2));
            }
            out.push(c);
            i += 2;
        } else if 0xDC00 <= u && u < 0xE000 {
            // A low surrogate with no preceding high surrogate.
            proof {
                lemma_utf16_round_trip(out@);
                lemma_valid_utf16_suffix(prefix, suffix);
            }
            return None;
        } else {
            let c = match char::from_u32(u as u32) {
                Some(c) => c,
                None => {
                    proof {
                        assert(is_scalar(u as u32));
                        assert(false);
                    }
                    return None;
                },
            };
            proof {
                lemma_utf16_of_push(out@, c);
                assert(units_of_scalar(c as u32) =~= units@.subrange(i as int, i + 1));
                assert(prefix + units@.subrange(i as int, i + 1) =~= units@.subrange(0, i + 1));
            }
            out.push(c);
            i += 1;
        }
    }
    proof {
        assert(units@.subrange(0, n as int) =~= units@);
        lemma_utf16_round_trip(out@);
    }
    Some(out)
}

} // verus!
