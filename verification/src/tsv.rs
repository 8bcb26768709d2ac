//! The tab-separated interchange form: a lossless text round-trip of a
//! table's identity and rows.
//!
//! One header record names the table kind and version; then one record per
//! row, fields in definition order. Integers are decimal, floats are the
//! decimal of their bit pattern, booleans a fixed literal pair, and strings
//! are escaped so no value can corrupt the tab/newline delimiter scheme.

use vstd::prelude::*;
use crate::data::{data_matches, DataV};
use crate::schema::FieldType;

verus! {

// ---------------------------------------------------------------------------
// Decimal numerals.
// ---------------------------------------------------------------------------
/// The digit character for one decimal digit.
pub open spec fn digit_char(d: int) -> char {
    ((48 + d) as u32) as char
}

/// The canonical decimal numeral of a non-negative number.
pub open spec fn dec_of(n: nat) -> Seq<char>
    decreases n,
{
    if n < 10 {
        seq![digit_char(n as int)]
    } else {
        dec_of(n / 10) + seq![digit_char((n % 10) as int)]
    }
}

/// The canonical decimal numeral of an integer, with a leading minus for
/// negatives.
pub open spec fn dec_int(x: int) -> Seq<char> {
    if x >= 0 {
        dec_of(x as nat)
    } else {
        seq!['-'] + dec_of((-x) as nat)
    }
}

/// True when the character is a decimal digit.
pub open spec fn is_digit(c: char) -> bool {
    48 <= c as u32 <= 57
}

/// True when the text is one or more decimal digits.
pub open spec fn digits_ok(s: Seq<char>) -> bool {
    s.len() > 0 && forall|i: int| 0 <= i < s.len() ==> is_digit(#[trigger] s[i])
}

/// The number the digits denote, read left to right.
pub open spec fn digits_val_from(s: Seq<char>, acc: nat) -> nat
    decreases s.len(),
{
    if s.len() == 0 {
        acc
    } else {
        digits_val_from(s.drop_first(), acc * 10 + (s[0] as u32 - 48) as nat)
    }
}

/// The number the digits denote.
pub open spec fn digits_val(s: Seq<char>) -> nat {
    digits_val_from(s, 0)
}

/// Reading digits never shrinks the accumulator.
pub proof fn lemma_digits_val_from_lower(s: Seq<char>, acc: nat)
    requires
        forall|i: int| 0 <= i < s.len() ==> is_digit(#[trigger] s[i]),
    ensures
        digits_val_from(s, acc) >= acc,
    decreases s.len(),
{
    if s.len() > 0 {
        assert forall|i: int| 0 <= i < s.drop_first().len() implies is_digit(
            #[trigger] s.drop_first()[i],
        ) by {
            assert(s.drop_first()[i] == s[i + 1]);
        }
        lemma_digits_val_from_lower(s.drop_first(), acc * 10 + (s[0] as u32 - 48) as nat);
    }
}

/// Appending one digit multiplies the value by ten and adds the digit.
pub proof fn lemma_digits_val_from_snoc(s: Seq<char>, c: char, acc: nat)
    ensures
        digits_val_from(s.push(c), acc) == digits_val_from(s, acc) * 10 + ((c as u32 - 48) as nat),
    decreases s.len(),
{
    if s.len() == 0 {
        assert(s.push(c)[0] == c);
        assert(s.push(c).drop_first() =~= Seq::<char>::empty());
        assert(s =~= Seq::<char>::empty());
        assert(digits_val_from(s.push(c), acc) == digits_val_from(
            s.push(c).drop_first(),
            acc * 10 + (s.push(c)[0] as u32 - 48) as nat,
        ));
    } else {
        assert(s.push(c)[0] == s[0]);
        assert(s.push(c).drop_first() =~= s.drop_first().push(c));
        lemma_digits_val_from_snoc(s.drop_first(), c, acc * 10 + (s[0] as u32 - 48) as nat);
        assert(digits_val_from(s.push(c), acc) == digits_val_from(
            s.drop_first().push(c),
            acc * 10 + (s[0] as u32 - 48) as nat,
        ));
        assert(digits_val_from(s, acc) == digits_val_from(
            s.drop_first(),
            acc * 10 + (s[0] as u32 - 48) as nat,
        ));
    }
}

/// The canonical numeral is all digits and denotes its number.
pub proof fn lemma_dec_of_round_trip(n: nat)
    ensures
        digits_ok(dec_of(n)),
        digits_val(dec_of(n)) == n,
        dec_of(n).len() >= 1,
    decreases n,
{
    if n < 10 {
        assert((48 + n) < 128);
        assert(digit_char(n as int) as u32 == 48 + n);
        assert(dec_of(n)[0] == digit_char(n as int));
        assert(dec_of(n).drop_first() =~= Seq::<char>::empty());
        assert(digits_val(dec_of(n)) == digits_val_from(
            dec_of(n).drop_first(),
            0 * 10 + (dec_of(n)[0] as u32 - 48) as nat,
        ));
        assert(digits_val(dec_of(n)) == n);
    } else {
        lemma_dec_of_round_trip(n / 10);
        let head = dec_of(n / 10);
        let d = (n % 10) as int;
        assert(digit_char(d) as u32 == 48 + d);
        assert(head + seq![digit_char(d)] =~= head.push(digit_char(d)));
        lemma_digits_val_from_snoc(head, digit_char(d), 0);
        vstd::arithmetic::div_mod::lemma_fundamental_div_mod(n as int, 10);
        assert(digits_val(dec_of(n)) == digits_val_from(head.push(digit_char(d)), 0));
        assert((digit_char(d) as u32 - 48) as nat == d as nat);
        assert(digits_val_from(head.push(digit_char(d)), 0) == digits_val_from(head, 0) * 10 + d);
        assert(digits_val_from(head, 0) == n / 10);
        assert(n / 10 * 10 + n % 10 == n);
        assert(digits_val(dec_of(n)) == n);
        assert forall|i: int| 0 <= i < dec_of(n).len() implies is_digit(#[trigger] dec_of(n)[i]) by {
            if i < head.len() {
                assert(dec_of(n)[i] == head[i]);
            } else {
                assert(dec_of(n)[i] == digit_char(d));
            }
        }
    }
}

/// Numerals contain no tab, newline, or minus sign.
pub proof fn lemma_dec_of_chars(n: nat)
    ensures
        forall|i: int| 0 <= i < dec_of(n).len() ==> is_digit(#[trigger] dec_of(n)[i]),
        forall|i: int|
            0 <= i < dec_of(n).len() ==> #[trigger] dec_of(n)[i] != '\t' && dec_of(n)[i] != '\n',
{
    lemma_dec_of_round_trip(n);
    assert forall|i: int| 0 <= i < dec_of(n).len() implies #[trigger] dec_of(n)[i] != '\t'
        && dec_of(n)[i] != '\n' by {
        assert(is_digit(dec_of(n)[i]));
        assert('\t' as u32 == 9 && '\n' as u32 == 10);
    }
}

// ---------------------------------------------------------------------------
// Escaping.
// ---------------------------------------------------------------------------
/// One character's textual form: tab, newline and backslash become two-byte
/// escapes, everything else stands for itself.
pub open spec fn esc_char(c: char) -> Seq<char> {
    if c == '\\' {
        seq!['\\', '\\']
    } else if c == '\t' {
        seq!['\\', 't']
    } else if c == '\n' {
        seq!['\\', 'n']
    } else {
        seq![c]
    }
}

/// The escaped form of a string.
pub open spec fn escape(s: Seq<char>) -> Seq<char>
    decreases s.len(),
{
    if s.len() == 0 {
        Seq::empty()
    } else {
        esc_char(s[0]) + escape(s.drop_first())
    }
}

/// The string an escaped form denotes, when every escape is well-formed and
/// no raw separator occurs.
pub open spec fn unescape(s: Seq<char>) -> Option<Seq<char>>
    decreases s.len(),
{
    if s.len() == 0 {
        Some(Seq::empty())
    } else if s[0] == '\\' {
        if s.len() >= 2 {
            let c = if s[1] == 't' {
                Some('\t')
            } else if s[1] == 'n' {
                Some('\n')
            } else if s[1] == '\\' {
                Some('\\')
            } else {
                None
            };
            match c {
                Some(c) => match unescape(s.skip(2)) {
                    Some(rest) => Some(seq![c] + rest),
                    None => None,
                },
                None => None,
            }
        } else {
            None
        }
    } else if s[0] == '\t' || s[0] == '\n' {
        None
    } else {
        match unescape(s.drop_first()) {
            Some(rest) => Some(seq![s[0]] + rest),
            None => None,
        }
    }
}

/// Appending one character extends the escaped form by its escape.
pub proof fn lemma_escape_push(s: Seq<char>, c: char)
    ensures
        escape(s.push(c)) == escape(s) + esc_char(c),
    decreases s.len(),
{
    if s.len() == 0 {
        assert(s.push(c)[0] == c);
        assert(s.push(c).drop_first() =~= Seq::<char>::empty());
        assert(s =~= Seq::<char>::empty());
        assert(escape(s.push(c)) =~= escape(s) + esc_char(c));
    } else {
        assert(s.push(c)[0] == s[0]);
        assert(s.push(c).drop_first() =~= s.drop_first().push(c));
        lemma_escape_push(s.drop_first(), c);
        assert(escape(s.push(c)) =~= escape(s) + esc_char(c));
    }
}

/// Unescaping an escaped string yields the string back.
pub proof fn lemma_unescape_escape(s: Seq<char>)
    ensures
        unescape(escape(s)) == Some(s),
    decreases s.len(),
{
    if s.len() == 0 {
        assert(escape(s) =~= Seq::<char>::empty());
    } else {
        let c = s[0];
        let w = escape(s);
        let rest = escape(s.drop_first());
        lemma_unescape_escape(s.drop_first());
        assert(w == esc_char(c) + rest);
        if c == '\\' || c == '\t' || c == '\n' {
            assert(w[0] == '\\');
            assert(w[1] == esc_char(c)[1]);
            assert(w.skip(2) =~= rest);
            assert(seq![c] + s.drop_first() =~= s);
        } else {
            assert(w[0] == c);
            assert(w.drop_first() =~= rest);
            assert(seq![c] + s.drop_first() =~= s);
        }
    }
}

/// The escaped form holds no raw tab or newline.
pub proof fn lemma_escape_chars(s: Seq<char>)
    ensures
        forall|i: int|
            0 <= i < escape(s).len() ==> #[trigger] escape(s)[i] != '\t' && escape(s)[i] != '\n',
    decreases s.len(),
{
    if s.len() > 0 {
        lemma_escape_chars(s.drop_first());
        let w = escape(s);
        let e0 = esc_char(s[0]);
        let rest = escape(s.drop_first());
        assert forall|i: int| 0 <= i < w.len() implies #[trigger] w[i] != '\t' && w[i]
            != '\n' by {
            if i < e0.len() {
                assert(w[i] == e0[i]);
            } else {
                assert(w[i] == rest[i - e0.len()]);
            }
        }
    }
}


// ---------------------------------------------------------------------------
// Records and fields.
// ---------------------------------------------------------------------------
/// Splits text on a separator; n separators yield n + 1 pieces.
pub open spec fn split(s: Seq<char>, sep: char) -> Seq<Seq<char>>
    decreases s.len(),
{
    if s.len() == 0 {
        seq![Seq::empty()]
    } else {
        let rest = split(s.drop_first(), sep);
        if s[0] == sep {
            seq![Seq::<char>::empty()] + rest
        } else {
            seq![seq![s[0]] + rest[0]] + rest.drop_first()
        }
    }
}

/// A split has at least one piece.
pub proof fn lemma_split_len(s: Seq<char>, sep: char)
    ensures
        split(s, sep).len() >= 1,
    decreases s.len(),
{
    if s.len() > 0 {
        lemma_split_len(s.drop_first(), sep);
    }
}

/// Text without the separator is one piece.
pub proof fn lemma_split_no_sep(s: Seq<char>, sep: char)
    requires
        forall|i: int| 0 <= i < s.len() ==> s[i] != sep,
    ensures
        split(s, sep) == seq![s],
    decreases s.len(),
{
    if s.len() == 0 {
        assert(s =~= Seq::<char>::empty());
        assert(split(s, sep) =~= seq![s]);
    } else {
        assert forall|i: int| 0 <= i < s.drop_first().len() implies s.drop_first()[i] != sep by {
            assert(s.drop_first()[i] == s[i + 1]);
        }
        lemma_split_no_sep(s.drop_first(), sep);
        let rest = split(s.drop_first(), sep);
        assert(rest[0] == s.drop_first());
        assert(seq![s[0]] + s.drop_first() =~= s);
        assert(rest.drop_first() =~= Seq::<Seq<char>>::empty());
        assert(split(s, sep) =~= seq![s]);
    }
}

/// A separator after separator-free text splits off that text.
pub proof fn lemma_split_sep_prefix(x: Seq<char>, y: Seq<char>, sep: char)
    requires
        forall|i: int| 0 <= i < x.len() ==> x[i] != sep,
    ensures
        split(x + seq![sep] + y, sep) == seq![x] + split(y, sep),
    decreases x.len(),
{
    let w = x + seq![sep] + y;
    if x.len() == 0 {
        assert(x =~= Seq::<char>::empty());
        assert(w[0] == sep);
        assert(w.drop_first() =~= y);
        assert(seq![x] + split(y, sep) =~= seq![Seq::<char>::empty()] + split(y, sep));
    } else {
        assert forall|i: int| 0 <= i < x.drop_first().len() implies x.drop_first()[i] != sep by {
            assert(x.drop_first()[i] == x[i + 1]);
        }
        lemma_split_sep_prefix(x.drop_first(), y, sep);
        assert(w[0] == x[0]);
        assert(w.drop_first() =~= x.drop_first() + seq![sep] + y);
        let rest = split(x.drop_first() + seq![sep] + y, sep);
        assert(rest == seq![x.drop_first()] + split(y, sep));
        assert(rest[0] == x.drop_first());
        assert(seq![x[0]] + x.drop_first() =~= x);
        assert(rest.drop_first() =~= split(y, sep));
        assert(split(w, sep) =~= seq![x] + split(y, sep));
    }
}

/// The boolean literal for truth.
pub open spec fn true_chars() -> Seq<char> {
    seq!['t', 'r', 'u', 'e']
}

/// The boolean literal for falsity.
pub open spec fn false_chars() -> Seq<char> {
    seq!['f', 'a', 'l', 's', 'e']
}

/// One cell's textual form, by its type.
pub open spec fn render_field(v: DataV) -> Seq<char> {
    match v {
        DataV::Boolean(b) => if b {
            true_chars()
        } else {
            false_chars()
        },
        DataV::Float(bits) => dec_of(bits as nat),
        DataV::Integer(x) => dec_int(x as int),
        DataV::LongInteger(x) => dec_int(x as int),
        DataV::StringU8(s) => escape(s),
        DataV::StringU16(s) => escape(s),
        DataV::OptionalStringU8(s) => escape(s),
        DataV::OptionalStringU16(s) => escape(s),
    }
}

/// The cell a text denotes under a column type, if any: the boolean
/// literals, decimal numerals in range, or an escaped string that fits its
/// length prefix.
pub open spec fn parse_field(txt: Seq<char>, t: FieldType) -> Option<DataV> {
    match t {
        FieldType::Boolean => if txt == true_chars() {
            Some(DataV::Boolean(true))
        } else if txt == false_chars() {
            Some(DataV::Boolean(false))
        } else {
            None
        },
        FieldType::Float => if digits_ok(txt) && digits_val(txt) <= u32::MAX {
            Some(DataV::Float(digits_val(txt) as u32))
        } else {
            None
        },
        FieldType::Integer => if txt.len() > 0 && txt[0] == '-' {
            if digits_ok(txt.skip(1)) && digits_val(txt.skip(1)) <= 0x8000_0000 {
                Some(DataV::Integer((-(digits_val(txt.skip(1)) as int)) as i32))
            } else {
                None
            }
        } else if digits_ok(txt) && digits_val(txt) <= i32::MAX {
            Some(DataV::Integer(digits_val(txt) as i32))
        } else {
            None
        },
        FieldType::LongInteger => if txt.len() > 0 && txt[0] == '-' {
            if digits_ok(txt.skip(1)) && digits_val(txt.skip(1)) <= 0x8000_0000_0000_0000 {
                Some(DataV::LongInteger((-(digits_val(txt.skip(1)) as int)) as i64))
            } else {
                None
            }
        } else if digits_ok(txt) && digits_val(txt) <= i64::MAX {
            Some(DataV::LongInteger(digits_val(txt) as i64))
        } else {
            None
        },
        FieldType::StringU8 => match unescape(txt) {
            Some(s) => if vstd::utf8::encode_utf8(s).len() <= 0xFFFF {
                Some(DataV::StringU8(s))
            } else {
                None
            },
            None => None,
        },
        FieldType::StringU16 => match unescape(txt) {
            Some(s) => if crate::utf16::utf16_of(s).len() <= 0xFFFF {
                Some(DataV::StringU16(s))
            } else {
                None
            },
            None => None,
        },
        FieldType::OptionalStringU8 => match unescape(txt) {
            Some(s) => if vstd::utf8::encode_utf8(s).len() <= 0xFFFF {
                Some(DataV::OptionalStringU8(s))
            } else {
                None
            },
            None => None,
        },
        FieldType::OptionalStringU16 => match unescape(txt) {
            Some(s) => if crate::utf16::utf16_of(s).len() <= 0xFFFF {
                Some(DataV::OptionalStringU16(s))
            } else {
                None
            },
            None => None,
        },
    }
}

/// A rendered cell holds no tab and no newline.
pub proof fn lemma_render_field_chars(v: DataV)
    ensures
        forall|i: int|
            0 <= i < render_field(v).len() ==> #[trigger] render_field(v)[i] != '\t'
                && render_field(v)[i] != '\n',
{
    let w = render_field(v);
    match v {
        DataV::Boolean(b) => {
            assert forall|i: int| 0 <= i < w.len() implies #[trigger] w[i] != '\t' && w[i]
                != '\n' by {
                if b {
                    assert(w == true_chars());
                } else {
                    assert(w == false_chars());
                }
            }
        },
        DataV::Float(bits) => {
            lemma_dec_of_chars(bits as nat);
        },
        DataV::Integer(x) => {
            lemma_dec_int_chars(x as int);
        },
        DataV::LongInteger(x) => {
            lemma_dec_int_chars(x as int);
        },
        DataV::StringU8(s) => {
            lemma_escape_chars(s);
        },
        DataV::StringU16(s) => {
            lemma_escape_chars(s);
        },
        DataV::OptionalStringU8(s) => {
            lemma_escape_chars(s);
        },
        DataV::OptionalStringU16(s) => {
            lemma_escape_chars(s);
        },
    }
}

/// A signed numeral holds no tab and no newline.
pub proof fn lemma_dec_int_chars(x: int)
    ensures
        forall|i: int|
            0 <= i < dec_int(x).len() ==> #[trigger] dec_int(x)[i] != '\t' && dec_int(x)[i]
                != '\n',
{
    if x >= 0 {
        lemma_dec_of_chars(x as nat);
    } else {
        lemma_dec_of_chars((-x) as nat);
        let w = dec_int(x);
        assert forall|i: int| 0 <= i < w.len() implies #[trigger] w[i] != '\t' && w[i]
            != '\n' by {
            if i == 0 {
                assert(w[0] == '-');
            } else {
                assert(w[i] == dec_of((-x) as nat)[i - 1]);
            }
        }
    }
}

/// Parsing a rendered cell yields the cell back.
pub proof fn lemma_parse_render_field(v: DataV, t: FieldType)
    requires
        data_matches(v, t),
        crate::codec::data_fits(v),
    ensures
        parse_field(render_field(v), t) == Some(v),
{
    match v {
        DataV::Boolean(b) => {
            if !b {
                assert(false_chars().len() != true_chars().len());
            }
        },
        DataV::Float(bits) => {
            lemma_dec_of_round_trip(bits as nat);
        },
        DataV::Integer(x) => {
            lemma_parse_render_int(x as int);
            assert(dec_int(x as int).len() > 0);
        },
        DataV::LongInteger(x) => {
            lemma_parse_render_int(x as int);
        },
        DataV::StringU8(s) => {
            lemma_unescape_escape(s);
        },
        DataV::StringU16(s) => {
            lemma_unescape_escape(s);
        },
        DataV::OptionalStringU8(s) => {
            lemma_unescape_escape(s);
        },
        DataV::OptionalStringU16(s) => {
            lemma_unescape_escape(s);
        },
    }
}

/// A signed numeral starts with a digit or a minus and denotes its value.
proof fn lemma_parse_render_int(x: int)
    ensures
        x >= 0 ==> digits_ok(dec_int(x)) && digits_val(dec_int(x)) == x,
        x < 0 ==> dec_int(x).len() > 0 && dec_int(x)[0] == '-' && digits_ok(dec_int(x).skip(1))
            && digits_val(dec_int(x).skip(1)) == -x,
        dec_int(x).len() > 0,
        x >= 0 ==> dec_int(x)[0] != '-',
{
    if x >= 0 {
        lemma_dec_of_round_trip(x as nat);
        assert(is_digit(dec_int(x)[0]));
        assert('-' as u32 == 45);
    } else {
        lemma_dec_of_round_trip((-x) as nat);
        assert(dec_int(x)[0] == '-');
        assert(dec_int(x).skip(1) =~= dec_of((-x) as nat));
    }
}


// ---------------------------------------------------------------------------
// Whole tables.
// ---------------------------------------------------------------------------
/// One row's record: its cells in order, tab-separated.
pub open spec fn render_line(row: Seq<DataV>) -> Seq<char>
    decreases row.len(),
{
    if row.len() == 0 {
        Seq::empty()
    } else if row.len() == 1 {
        render_field(row[0])
    } else {
        render_field(row[0]) + seq!['\t'] + render_line(row.drop_first())
    }
}

/// All rows' records, each terminated by a newline.
pub open spec fn render_lines(rows: Seq<Seq<DataV>>) -> Seq<char>
    decreases rows.len(),
{
    if rows.len() == 0 {
        Seq::empty()
    } else {
        render_line(rows[0]) + seq!['\n'] + render_lines(rows.drop_first())
    }
}

/// What `export_tsv` writes: a header record naming the table kind and
/// version, then one record per row.
pub open spec fn spec_export(rows: Seq<Seq<DataV>>, name: Seq<char>, version: i32) -> Seq<char> {
    escape(name) + seq!['\t'] + dec_int(version as int) + seq!['\n'] + render_lines(rows)
}

/// The cells a record's pieces denote under the column types, if all parse.
pub open spec fn parse_fields(fs: Seq<Seq<char>>, types: Seq<FieldType>) -> Option<Seq<DataV>>
    decreases types.len(),
{
    if types.len() == 0 {
        Some(Seq::empty())
    } else {
        match parse_field(fs[0], types[0]) {
            Some(v) => match parse_fields(fs.drop_first(), types.drop_first()) {
                Some(vals) => Some(seq![v] + vals),
                None => None,
            },
            None => None,
        }
    }
}

/// The row one record denotes: its piece count must equal the column count
/// and every piece must parse.
pub open spec fn parse_line(line: Seq<char>, types: Seq<FieldType>) -> Option<Seq<DataV>> {
    if types.len() == 0 {
        if line.len() == 0 {
            Some(Seq::empty())
        } else {
            None
        }
    } else {
        let fs = split(line, '\t');
        if fs.len() == types.len() {
            parse_fields(fs, types)
        } else {
            None
        }
    }
}

/// The rows a record list denotes, if every record parses.
pub open spec fn parse_lines(lines: Seq<Seq<char>>, types: Seq<FieldType>) -> Option<
    Seq<Seq<DataV>>,
>
    decreases lines.len(),
{
    if lines.len() == 0 {
        Some(Seq::empty())
    } else {
        match parse_line(lines[0], types) {
            Some(row) => match parse_lines(lines.drop_first(), types) {
                Some(rows) => Some(seq![row] + rows),
                None => None,
            },
            None => None,
        }
    }
}

/// What `import_tsv` means: the exact table a text denotes under a
/// definition, or the exact rejection. The text must end in a newline, its
/// header must carry the expected name and version in canonical form, every
/// record must have the definition's column count with every piece parsing,
/// and the row count must fit the binary envelope's count field.
pub open spec fn spec_import(def: crate::schema::DefV, text: Seq<char>, name: Seq<char>, version: i32) -> Result<
    crate::table::TableV,
    crate::error::TableError,
> {
    let lines = split(text, '\n');
    if lines.len() < 2 || lines.last().len() != 0 {
        Err(crate::error::TableError::TsvFormatMismatch)
    } else {
        let hf = split(lines[0], '\t');
        if hf.len() != 2 || hf[0] != escape(name) || hf[1] != dec_int(version as int) {
            Err(crate::error::TableError::TsvFormatMismatch)
        } else {
            match parse_lines(lines.subrange(1, lines.len() - 1), def.types()) {
                Some(rows) => if rows.len() <= u32::MAX {
                    Ok(crate::table::TableV { definition: def, entries: rows })
                } else {
                    Err(crate::error::TableError::TsvFormatMismatch)
                },
                None => Err(crate::error::TableError::TsvFormatMismatch),
            }
        }
    }
}

/// A record holds no newline.
pub proof fn lemma_render_line_chars(row: Seq<DataV>)
    ensures
        forall|i: int|
            0 <= i < render_line(row).len() ==> #[trigger] render_line(row)[i] != '\n',
    decreases row.len(),
{
    let w = render_line(row);
    if row.len() == 0 {
    } else if row.len() == 1 {
        lemma_render_field_chars(row[0]);
    } else {
        lemma_render_field_chars(row[0]);
        lemma_render_line_chars(row.drop_first());
        let f0 = render_field(row[0]);
        let rest = render_line(row.drop_first());
        assert forall|i: int| 0 <= i < w.len() implies #[trigger] w[i] != '\n' by {
            if i < f0.len() {
                assert(w[i] == f0[i]);
            } else if i == f0.len() {
                assert(w[i] == '\t');
            } else {
                assert(w[i] == rest[i - f0.len() - 1]);
            }
        }
    }
}

/// A record splits on tabs into exactly its rendered cells.
pub proof fn lemma_split_render_line(row: Seq<DataV>)
    requires
        row.len() > 0,
    ensures
        split(render_line(row), '\t') =~= Seq::new(row.len() as nat, |i: int| render_field(row[i])),
    decreases row.len(),
{
    if row.len() == 1 {
        lemma_render_field_chars(row[0]);
        lemma_split_no_sep(render_field(row[0]), '\t');
    } else {
        lemma_render_field_chars(row[0]);
        lemma_split_render_line(row.drop_first());
        assert(render_field(row[0]) + seq!['\t'] + render_line(row.drop_first()) == render_line(
            row,
        ));
        lemma_split_sep_prefix(render_field(row[0]), render_line(row.drop_first()), '\t');
        let lhs = split(render_line(row), '\t');
        let target = Seq::new(row.len() as nat, |i: int| render_field(row[i]));
        assert(lhs == seq![render_field(row[0])] + split(render_line(row.drop_first()), '\t'));
        assert forall|i: int| 0 <= i < target.len() implies lhs[i] == target[i] by {
            if i > 0 {
                assert(lhs[i] == split(render_line(row.drop_first()), '\t')[i - 1]);
                assert(split(render_line(row.drop_first()), '\t')[i - 1] == render_field(
                    row.drop_first()[i - 1],
                ));
            }
        }
    }
}

/// Parsing a well-formed row's record yields the row back.
pub proof fn lemma_parse_render_line(row: Seq<DataV>, types: Seq<FieldType>)
    requires
        crate::table::row_wf(row, types),
    ensures
        parse_line(render_line(row), types) == Some(row),
{
    if types.len() == 0 {
        assert(row =~= Seq::<DataV>::empty());
    } else {
        lemma_split_render_line(row);
        let fs = split(render_line(row), '\t');
        lemma_parse_fields_render(row, types, fs);
    }
}

/// Parsing the rendered cells of a well-formed row yields the row.
proof fn lemma_parse_fields_render(row: Seq<DataV>, types: Seq<FieldType>, fs: Seq<Seq<char>>)
    requires
        crate::table::row_wf(row, types),
        fs.len() == row.len(),
        forall|i: int| 0 <= i < row.len() ==> fs[i] == render_field(#[trigger] row[i]),
    ensures
        parse_fields(fs, types) == Some(row),
    decreases types.len(),
{
    if types.len() > 0 {
        lemma_parse_render_field(row[0], types[0]);
        assert(fs[0] == render_field(row[0]));
        assert forall|q: int| 0 <= q < row.drop_first().len() implies crate::data::data_matches(
            #[trigger] row.drop_first()[q],
            types.drop_first()[q],
        ) && crate::codec::data_fits(row.drop_first()[q]) by {
            assert(row.drop_first()[q] == row[q + 1]);
            assert(types.drop_first()[q] == types[q + 1]);
        }
        assert forall|q: int| 0 <= q < row.drop_first().len() implies fs.drop_first()[q]
            == render_field(#[trigger] row.drop_first()[q]) by {
            assert(fs.drop_first()[q] == fs[q + 1]);
            assert(row.drop_first()[q] == row[q + 1]);
        }
        lemma_parse_fields_render(row.drop_first(), types.drop_first(), fs.drop_first());
        assert(seq![row[0]] + row.drop_first() =~= row);
    } else {
        assert(row =~= Seq::<DataV>::empty());
    }
}

/// The record block of a table splits on newlines into its records plus one
/// empty trailing piece.
pub proof fn lemma_split_render_lines(rows: Seq<Seq<DataV>>)
    ensures
        split(render_lines(rows), '\n') =~= Seq::new(
            rows.len() as nat,
            |i: int| render_line(rows[i]),
        ).push(Seq::empty()),
    decreases rows.len(),
{
    if rows.len() == 0 {
        assert(split(render_lines(rows), '\n') =~= Seq::new(
            0,
            |i: int| render_line(rows[i]),
        ).push(Seq::empty()));
    } else {
        lemma_render_line_chars(rows[0]);
        lemma_split_render_lines(rows.drop_first());
        assert(render_line(rows[0]) + seq!['\n'] + render_lines(rows.drop_first())
            == render_lines(rows));
        lemma_split_sep_prefix(render_line(rows[0]), render_lines(rows.drop_first()), '\n');
        let lhs = split(render_lines(rows), '\n');
        let target = Seq::new(rows.len() as nat, |i: int| render_line(rows[i])).push(Seq::empty());
        assert(lhs == seq![render_line(rows[0])] + split(render_lines(rows.drop_first()), '\n'));
        assert forall|i: int| 0 <= i < target.len() implies lhs[i] == target[i] by {
            if i > 0 {
                assert(lhs[i] == split(render_lines(rows.drop_first()), '\n')[i - 1]);
                let sub = Seq::new(
                    rows.drop_first().len() as nat,
                    |q: int| render_line(rows.drop_first()[q]),
                ).push(Seq::empty());
                assert(split(render_lines(rows.drop_first()), '\n')[i - 1] == sub[i - 1]);
            }
        }
    }
}

/// Parsing the records of well-formed rows yields the rows back.
pub proof fn lemma_parse_render_lines(rows: Seq<Seq<DataV>>, types: Seq<FieldType>, lines: Seq<Seq<char>>)
    requires
        crate::table::rows_wf(rows, types),
        lines.len() == rows.len(),
        forall|i: int| 0 <= i < rows.len() ==> lines[i] == render_line(#[trigger] rows[i]),
    ensures
        parse_lines(lines, types) == Some(rows),
    decreases rows.len(),
{
    if rows.len() == 0 {
        assert(lines.len() == 0);
        assert(rows =~= Seq::<Seq<DataV>>::empty());
    } else {
        lemma_parse_render_line(rows[0], types);
        assert(lines[0] == render_line(rows[0]));
        assert forall|q: int| 0 <= q < rows.drop_first().len() implies crate::table::row_wf(
            #[trigger] rows.drop_first()[q],
            types,
        ) by {
            assert(rows.drop_first()[q] == rows[q + 1]);
        }
        assert forall|q: int| 0 <= q < rows.drop_first().len() implies lines.drop_first()[q]
            == render_line(#[trigger] rows.drop_first()[q]) by {
            assert(lines.drop_first()[q] == lines[q + 1]);
            assert(rows.drop_first()[q] == rows[q + 1]);
        }
        lemma_parse_render_lines(rows.drop_first(), types, lines.drop_first());
        assert(seq![rows[0]] + rows.drop_first() =~= rows);
    }
}

/// Importing what export wrote, under the same definition, name and
/// version, yields the table back: same definition, same rows, same order.
pub proof fn lemma_import_export_round_trip(t: crate::table::TableV, name: Seq<char>, version: i32)
    requires
        crate::table::table_wf(t),
    ensures
        spec_import(t.definition, spec_export(t.entries, name, version), name, version)
            == Ok::<crate::table::TableV, crate::error::TableError>(t),
{
    let text = spec_export(t.entries, name, version);
    let header = escape(name) + seq!['\t'] + dec_int(version as int);
    assert(text =~= header + seq!['\n'] + render_lines(t.entries));
    lemma_escape_chars(name);
    lemma_dec_int_chars(version as int);
    assert forall|i: int| 0 <= i < header.len() implies header[i] != '\n' by {
        if i < escape(name).len() {
            assert(header[i] == escape(name)[i]);
        } else if i == escape(name).len() {
            assert(header[i] == '\t');
        } else {
            assert(header[i] == dec_int(version as int)[i - escape(name).len() - 1]);
        }
    }
    lemma_split_sep_prefix(header, render_lines(t.entries), '\n');
    lemma_split_render_lines(t.entries);
    let lines = split(text, '\n');
    let body = Seq::new(t.entries.len() as nat, |i: int| render_line(t.entries[i])).push(
        Seq::empty(),
    );
    assert(lines == seq![header] + split(render_lines(t.entries), '\n'));
    assert(split(render_lines(t.entries), '\n') == body);
    assert(lines.len() == 2 + t.entries.len());
    assert(lines.last() == body.last());
    assert(lines.last().len() == 0);
    // The header splits into exactly the name and the version.
    assert forall|i: int| 0 <= i < escape(name).len() implies escape(name)[i] != '\t' by {}
    lemma_split_sep_prefix(escape(name), dec_int(version as int), '\t');
    lemma_split_no_sep(dec_int(version as int), '\t');
    assert(lines[0] == header);
    assert(header =~= escape(name) + seq!['\t'] + dec_int(version as int));
    let hf = split(header, '\t');
    assert(hf == seq![escape(name)] + split(dec_int(version as int), '\t'));
    assert(hf.len() == 2);
    assert(hf[0] == escape(name));
    assert(hf[1] == dec_int(version as int));
    // The record lines parse back to the rows.
    let mid = lines.subrange(1, lines.len() - 1);
    assert forall|i: int| 0 <= i < t.entries.len() implies mid[i] == render_line(
        #[trigger] t.entries[i],
    ) by {
        assert(mid[i] == lines[i + 1]);
        assert(lines[i + 1] == body[i]);
    }
    assert(mid.len() == t.entries.len());
    lemma_parse_render_lines(t.entries, t.definition.types(), mid);
    assert(crate::table::TableV { definition: t.definition, entries: t.entries } == t);
}


// ---------------------------------------------------------------------------
// Executable rendering.
// ---------------------------------------------------------------------------
/// Appends the canonical decimal numeral of `n`.
pub fn push_dec(out: &mut String, n: u64)
    ensures
        final(out)@ == old(out)@ + dec_of(n as nat),
    decreases n,
{
    if n >= 10 {
        push_dec(out, n / 10);
    }
    let d: u32 = 48 + (n % 10) as u32;
    let c = match char::from_u32(d) {
        Some(c) => c,
        None => {
            proof {
                assert(vstd::utf8::is_scalar(d));
                assert(false);
            }
            '0'
        },
    };
    proof {
        vstd::utf8::char_u32_cast(c, d);
        assert(c == digit_char((n % 10) as int));
        if n < 10 {
            assert(dec_of(n as nat) =~= seq![digit_char(n as int)]);
        }
    }
    out.push(c);
    proof {
        if n < 10 {
            assert(out@ =~= old(out)@ + dec_of(n as nat));
        } else {
            assert(out@ =~= old(out)@ + dec_of(n as nat));
        }
    }
}

/// Appends the canonical decimal numeral of a signed value.
pub fn push_dec_int(out: &mut String, x: i64)
    ensures
        final(out)@ == old(out)@ + dec_int(x as int),
{
    if x >= 0 {
        push_dec(out, x as u64);
    } else {
        out.push('-');
        let m: u64 = (-(x as i128)) as u64;
        push_dec(out, m);
        proof {
            assert(out@ =~= old(out)@ + dec_int(x as int));
        }
    }
}

/// Appends the escaped form of a string.
pub fn push_escaped(out: &mut String, s: &str)
    ensures
        final(out)@ == old(out)@ + escape(s@),
{
    let n = s.unicode_len();
    let mut j: usize = 0;
    proof {
        assert(s@.subrange(0, 0) =~= Seq::<char>::empty());
        assert(out@ =~= old(out)@ + escape(s@.subrange(0, 0)));
    }
    while j < n
        invariant
            j <= n,
            n == s@.len(),
            out@ == old(out)@ + escape(s@.subrange(0, j as int)),
        decreases n - j,
    {
        let c = s.get_char(j);
        proof {
            lemma_escape_push(s@.subrange(0, j as int), c);
            assert(s@.subrange(0, j as int).push(s@[j as int]) =~= s@.subrange(0, j + 1));
        }
        if c == '\\' {
            out.push('\\');
            out.push('\\');
        } else if c == '\t' {
            out.push('\\');
            out.push('t');
        } else if c == '\n' {
            out.push('\\');
            out.push('n');
        } else {
            out.push(c);
        }
        proof {
            assert(out@ =~= old(out)@ + escape(s@.subrange(0, j + 1)));
        }
        j += 1;
    }
    proof {
        assert(s@.subrange(0, n as int) =~= s@);
    }
}

/// Appends one cell's textual form.
pub fn push_field(out: &mut String, v: &crate::data::DecodedData)
    ensures
        final(out)@ == old(out)@ + render_field(v@),
{
    match v {
        crate::data::DecodedData::Boolean(b) => {
            proof {
                reveal_strlit("true");
                reveal_strlit("false");
                assert("true"@ =~= true_chars());
                assert("false"@ =~= false_chars());
            }
            if *b {
                out.append("true");
            } else {
                out.append("false");
            }
        },
        crate::data::DecodedData::Float(bits) => {
            push_dec(out, *bits as u64);
        },
        crate::data::DecodedData::Integer(x) => {
            push_dec_int(out, *x as i64);
        },
        crate::data::DecodedData::LongInteger(x) => {
            push_dec_int(out, *x);
        },
        crate::data::DecodedData::StringU8(st) => {
            push_escaped(out, st.as_str());
        },
        crate::data::DecodedData::StringU16(st) => {
            push_escaped(out, st.as_str());
        },
        crate::data::DecodedData::OptionalStringU8(st) => {
            push_escaped(out, st.as_str());
        },
        crate::data::DecodedData::OptionalStringU16(st) => {
            push_escaped(out, st.as_str());
        },
    }
}


// ---------------------------------------------------------------------------
// Executable parsing.
// ---------------------------------------------------------------------------
/// Splits text on a separator character.
pub fn split_text(s: &str, sep: char) -> (r: Vec<String>)
    ensures
        r.deep_view() == split(s@, sep),
{
    let n = s.unicode_len();
    let mut parts: Vec<String> = Vec::new();
    let mut cur = String::new();
    let mut j: usize = 0;
    proof {
        assert(s@.skip(0) =~= s@);
        assert(parts.deep_view() =~= Seq::<Seq<char>>::empty());
        lemma_split_len(s@, sep);
        assert(parts.deep_view() + seq![cur@ + split(s@.skip(0), sep)[0]] + split(
            s@.skip(0),
            sep,
        ).drop_first() =~= split(s@, sep));
    }
    while j < n
        invariant
            j <= n,
            n == s@.len(),
            split(s@.skip(j as int), sep).len() >= 1,
            parts.deep_view() + seq![cur@ + split(s@.skip(j as int), sep)[0]] + split(
                s@.skip(j as int),
                sep,
            ).drop_first() == split(s@, sep),
        decreases n - j,
    {
        let c = s.get_char(j);
        proof {
            assert(s@.skip(j as int)[0] == s@[j as int]);
            assert(s@.skip(j as int).drop_first() =~= s@.skip(j + 1));
            lemma_split_len(s@.skip(j + 1), sep);
        }
        let ghost parts0 = parts.deep_view();
        let ghost cur0 = cur@;
        if c == sep {
            parts.push(cur);
            cur = String::new();
            proof {
                assert(parts.deep_view() =~= parts0.push(cur0));
                assert(cur0 + Seq::<char>::empty() =~= cur0);
                assert(split(s@.skip(j as int), sep) == seq![Seq::<char>::empty()] + split(
                    s@.skip(j + 1),
                    sep,
                ));
                assert(split(s@.skip(j as int), sep)[0] =~= Seq::<char>::empty());
                assert(split(s@.skip(j as int), sep).drop_first() =~= split(s@.skip(j + 1), sep));
                assert(parts0.push(cur0) + seq![cur@ + split(s@.skip(j + 1), sep)[0]] + split(
                    s@.skip(j + 1),
                    sep,
                ).drop_first() =~= parts0 + seq![cur0 + split(s@.skip(j as int), sep)[0]] + split(
                    s@.skip(j as int),
                    sep,
                ).drop_first());
            }
        } else {
            cur.push(c);
            proof {
                let rest = split(s@.skip(j + 1), sep);
                assert(split(s@.skip(j as int), sep) == seq![seq![s@[j as int]] + rest[0]]
                    + rest.drop_first());
                assert(split(s@.skip(j as int), sep)[0] == seq![s@[j as int]] + rest[0]);
                assert(split(s@.skip(j as int), sep).drop_first() =~= rest.drop_first());
                assert(cur@ + rest[0] =~= cur0 + (seq![s@[j as int]] + rest[0]));
                assert(parts0 + seq![cur@ + rest[0]] + rest.drop_first() =~= parts0 + seq![cur0
                    + split(s@.skip(j as int), sep)[0]] + split(s@.skip(j as int), sep).drop_first());
            }
        }
        j += 1;
    }
    proof {
        assert(s@.skip(n as int) =~= Seq::<char>::empty());
        assert(split(s@.skip(n as int), sep) =~= seq![Seq::<char>::empty()]);
    }
    let ghost partsf = parts.deep_view();
    let ghost curf = cur@;
    parts.push(cur);
    proof {
        assert(parts.deep_view() =~= partsf.push(curf));
        assert(curf + Seq::<char>::empty() =~= curf);
        assert(partsf.push(curf) =~= partsf + seq![curf + split(s@.skip(n as int), sep)[0]] + split(
            s@.skip(n as int),
            sep,
        ).drop_first());
    }
    parts
}

/// Parses one or more decimal digits into their value, rejecting non-digits
/// and values beyond the 64-bit range.
pub fn parse_digits(s: &str) -> (r: Option<u64>)
    ensures
        match r {
            Some(v) => digits_ok(s@) && digits_val(s@) == v,
            None => !(digits_ok(s@) && digits_val(s@) <= u64::MAX),
        },
{
    let n = s.unicode_len();
    if n == 0 {
        return None;
    }
    let mut acc: u64 = 0;
    let mut j: usize = 0;
    proof {
        assert(s@.skip(0) =~= s@);
    }
    while j < n
        invariant
            j <= n,
            n == s@.len(),
            digits_val_from(s@.skip(j as int), acc as nat) == digits_val(s@),
            forall|i: int| 0 <= i < j ==> is_digit(#[trigger] s@[i]),
        decreases n - j,
    {
        let c = s.get_char(j);
        let u = c as u32;
        proof {
            assert(s@.skip(j as int)[0] == s@[j as int]);
            assert(s@.skip(j as int).drop_first() =~= s@.skip(j + 1));
        }
        if !(48 <= u && u < 58) {
            proof {
                assert(!is_digit(s@[j as int]));
            }
            return None;
        }
        let d: u64 = (u - 48) as u64;
        if acc > (u64::MAX - d) / 10 {
            proof {
                if digits_ok(s@) {
                    assert forall|i: int| 0 <= i < s@.skip(j + 1).len() implies is_digit(
                        #[trigger] s@.skip(j + 1)[i],
                    ) by {
                        assert(s@.skip(j + 1)[i] == s@[i + j + 1]);
                    }
                    lemma_digits_val_from_lower(
                        s@.skip(j + 1),
                        acc as nat * 10 + (s@[j as int] as u32 - 48) as nat,
                    );
                    assert(acc as nat * 10 + d as nat > u64::MAX);
                }
            }
            return None;
        }
        acc = acc * 10 + d;
        j += 1;
    }
    proof {
        assert(s@.skip(n as int) =~= Seq::<char>::empty());
    }
    Some(acc)
}

/// Undoes escaping; fails on a malformed escape or a raw separator.
pub fn unescape_text(s: &str) -> (r: Option<String>)
    ensures
        match r {
            Some(o) => unescape(s@) == Some(o@),
            None => unescape(s@) is None,
        },
{
    let n = s.unicode_len();
    let mut out = String::new();
    let mut j: usize = 0;
    proof {
        assert(s@.skip(0) =~= s@);
    }
    while j < n
        invariant
            j <= n,
            n == s@.len(),
            unescape(s@) == (match unescape(s@.skip(j as int)) {
                Some(rest) => Some(out@ + rest),
                None => None,
            }),
        decreases n - j,
    {
        let c = s.get_char(j);
        proof {
            assert(s@.skip(j as int)[0] == s@[j as int]);
            assert(s@.skip(j as int).drop_first() =~= s@.skip(j + 1));
        }
        let ghost out0 = out@;
        if c == '\\' {
            if j + 1 >= n {
                return None;
            }
            let c2 = s.get_char(j + 1);
            proof {
                assert(s@.skip(j as int)[1] == s@[j + 1]);
                assert(s@.skip(j as int).skip(2) =~= s@.skip(j + 2));
            }
            let mapped = if c2 == 't' {
                Some('\t')
            } else if c2 == 'n' {
                Some('\n')
            } else if c2 == '\\' {
                Some('\\')
            } else {
                None
            };
            match mapped {
                Some(m) => {
                    out.push(m);
                    proof {
                        match unescape(s@.skip(j + 2)) {
                            Some(rest) => {
                                assert(out@ + rest =~= out0 + (seq![m] + rest));
                            },
                            None => {},
                        }
                    }
                    j += 2;
                },
                None => {
                    return None;
                },
            }
        } else if c == '\t' || c == '\n' {
            return None;
        } else {
            out.push(c);
            proof {
                match unescape(s@.skip(j + 1)) {
                    Some(rest) => {
                        assert(out@ + rest =~= out0 + (seq![s@[j as int]] + rest));
                    },
                    None => {},
                }
            }
            j += 1;
        }
    }
    proof {
        assert(s@.skip(n as int) =~= Seq::<char>::empty());
        assert(out@ + Seq::<char>::empty() =~= out@);
    }
    Some(out)
}

/// Parses one cell's text under its column type.
pub fn parse_field_text(s: &str, t: FieldType) -> (r: Option<crate::data::DecodedData>)
    ensures
        match r {
            Some(v) => parse_field(s@, t) == Some(v@),
            None => parse_field(s@, t) is None,
        },
{
    match t {
        FieldType::Boolean => {
            proof {
                reveal_strlit("true");
                reveal_strlit("false");
                assert("true"@ =~= true_chars());
                assert("false"@ =~= false_chars());
            }
            let owned = String::from_str(s);
            if owned == String::from_str("true") {
                Some(crate::data::DecodedData::Boolean(true))
            } else if owned == String::from_str("false") {
                Some(crate::data::DecodedData::Boolean(false))
            } else {
                None
            }
        },
        FieldType::Float => {
            match parse_digits(s) {
                Some(v) => {
                    if v <= 0xFFFF_FFFF {
                        Some(crate::data::DecodedData::Float(v as u32))
                    } else {
                        None
                    }
                },
                None => None,
            }
        },
        FieldType::Integer => {
            let n = s.unicode_len();
            if n > 0 && s.get_char(0) == '-' {
                let rest = s.substring_char(1, n);
                proof {
                    assert(rest@ =~= s@.skip(1));
                }
                match parse_digits(rest) {
                    Some(v) => {
                        if v <= 0x8000_0000 {
                            Some(crate::data::DecodedData::Integer((-(v as i64)) as i32))
                        } else {
                            None
                        }
                    },
                    None => None,
                }
            } else {
                match parse_digits(s) {
                    Some(v) => {
                        if v <= 0x7FFF_FFFF {
                            Some(crate::data::DecodedData::Integer(v as i32))
                        } else {
                            None
                        }
                    },
                    None => None,
                }
            }
        },
        FieldType::LongInteger => {
            let n = s.unicode_len();
            if n > 0 && s.get_char(0) == '-' {
                let rest = s.substring_char(1, n);
                proof {
                    assert(rest@ =~= s@.skip(1));
                }
                match parse_digits(rest) {
                    Some(v) => {
                        if v <= 0x8000_0000_0000_0000 {
                            Some(
                                crate::data::DecodedData::LongInteger(
                                    (-(v as i128)) as i64,
                                ),
                            )
                        } else {
                            None
                        }
                    },
                    None => None,
                }
            } else {
                match parse_digits(s) {
                    Some(v) => {
                        if v <= 0x7FFF_FFFF_FFFF_FFFF {
                            Some(crate::data::DecodedData::LongInteger(v as i64))
                        } else {
                            None
                        }
                    },
                    None => None,
                }
            }
        },
        FieldType::StringU8 => {
            match unescape_text(s) {
                Some(o) => {
                    let d = crate::data::DecodedData::StringU8(o);
                    if crate::codec::check_fits(&d) {
                        Some(d)
                    } else {
                        None
                    }
                },
                None => None,
            }
        },
        FieldType::StringU16 => {
            match unescape_text(s) {
                Some(o) => {
                    let d = crate::data::DecodedData::StringU16(o);
                    if crate::codec::check_fits(&d) {
                        Some(d)
                    } else {
                        None
                    }
                },
                None => None,
            }
        },
        FieldType::OptionalStringU8 => {
            match unescape_text(s) {
                Some(o) => {
                    let d = crate::data::DecodedData::OptionalStringU8(o);
                    if crate::codec::check_fits(&d) {
                        Some(d)
                    } else {
                        None
                    }
                },
                None => None,
            }
        },
        FieldType::OptionalStringU16 => {
            match unescape_text(s) {
                Some(o) => {
                    let d = crate::data::DecodedData::OptionalStringU16(o);
                    if crate::codec::check_fits(&d) {
                        Some(d)
                    } else {
                        None
                    }
                },
                None => None,
            }
        },
    }
}

/// A parsed cell matches its column type and can be encoded.
pub proof fn lemma_parse_field_wf(txt: Seq<char>, t: FieldType)
    ensures
        match parse_field(txt, t) {
            Some(v) => data_matches(v, t) && crate::codec::data_fits(v),
            None => true,
        },
{
}


/// Cells parsed from a record are a well-formed row.
pub proof fn lemma_parse_fields_wf(fs: Seq<Seq<char>>, types: Seq<FieldType>)
    ensures
        match parse_fields(fs, types) {
            Some(row) => crate::table::row_wf(row, types),
            None => true,
        },
    decreases types.len(),
{
    if types.len() > 0 {
        match parse_field(fs[0], types[0]) {
            Some(v) => {
                lemma_parse_field_wf(fs[0], types[0]);
                match parse_fields(fs.drop_first(), types.drop_first()) {
                    Some(vals) => {
                        lemma_parse_fields_wf(fs.drop_first(), types.drop_first());
                        let row = seq![v] + vals;
                        assert forall|q: int| 0 <= q < row.len() implies data_matches(
                            #[trigger] row[q],
                            types[q],
                        ) && crate::codec::data_fits(row[q]) by {
                            if q > 0 {
                                assert(row[q] == vals[q - 1]);
                                assert(types.drop_first()[q - 1] == types[q]);
                            }
                        }
                    },
                    None => {},
                }
            },
            None => {},
        }
    }
}

/// Rows parsed from records are all well-formed.
pub proof fn lemma_parse_lines_wf(lines: Seq<Seq<char>>, types: Seq<FieldType>)
    ensures
        match parse_lines(lines, types) {
            Some(rows) => crate::table::rows_wf(rows, types),
            None => true,
        },
    decreases lines.len(),
{
    if lines.len() > 0 {
        match parse_line(lines[0], types) {
            Some(row) => {
                if types.len() > 0 {
                    lemma_parse_fields_wf(split(lines[0], '\t'), types);
                }
                match parse_lines(lines.drop_first(), types) {
                    Some(rows) => {
                        lemma_parse_lines_wf(lines.drop_first(), types);
                        let all = seq![row] + rows;
                        assert forall|q: int| 0 <= q < all.len() implies crate::table::row_wf(
                            #[trigger] all[q],
                            types,
                        ) by {
                            if q > 0 {
                                assert(all[q] == rows[q - 1]);
                            }
                        }
                    },
                    None => {},
                }
            },
            None => {},
        }
    }
}

impl crate::table::Table {
    /// Writes this table as tab-separated text: a header record with the
    /// table kind and version, then one record per row, fields in definition
    /// order.
    pub fn export_tsv(&self, table_name: &str, table_version: i32) -> (r: Result<
        String,
        crate::error::TableError,
    >)
        ensures
            r is Ok,
            r matches Ok(s) ==> s@ == spec_export(self@.entries, table_name@, table_version),
    {
        let ghost entries = self@.entries;
        let mut out = String::new();
        push_escaped(&mut out, table_name);
        out.push('\t');
        push_dec_int(&mut out, table_version as i64);
        out.push('\n');
        proof {
            assert(entries.skip(0) =~= entries);
            assert(out@ + render_lines(entries.skip(0)) =~= spec_export(
                entries,
                table_name@,
                table_version,
            ));
        }
        let data = self.get_ref_table_data();
        let n = data.len();
        let mut ri: usize = 0;
        proof {
            assert(data.deep_view().len() == data@.len());
        }
        while ri < n
            invariant
                ri <= n,
                n == data@.len(),
                data.deep_view() == entries,
                entries.len() == n,
                out@ + render_lines(entries.skip(ri as int)) == spec_export(
                    entries,
                    table_name@,
                    table_version,
                ),
            decreases n - ri,
        {
            proof {
                assert(entries.skip(ri as int)[0] == entries[ri as int]);
                assert(entries.skip(ri as int).drop_first() =~= entries.skip(ri + 1));
                assert(data.deep_view()[ri as int] == data@[ri as int].deep_view());
            }
            let row = vstd::slice::slice_index_get(data, ri);
            let ghost rowdv = entries[ri as int];
            let nf = row.len();
            let mut fj: usize = 0;
            proof {
                assert(rowdv.skip(0) =~= rowdv);
                assert(rowdv.len() == nf);
            }
            while fj < nf
                invariant
                    fj <= nf,
                    nf == row@.len(),
                    rowdv == row.deep_view(),
                    rowdv.len() == nf,
                    ri < n,
                    entries.len() == n,
                    out@ + render_line(rowdv.skip(fj as int)) + seq!['\n'] + render_lines(
                        entries.skip(ri + 1),
                    ) == spec_export(entries, table_name@, table_version),
                decreases nf - fj,
            {
                proof {
                    assert(rowdv.skip(fj as int)[0] == rowdv[fj as int]);
                    assert(rowdv.skip(fj as int).drop_first() =~= rowdv.skip(fj + 1));
                    assert(rowdv[fj as int] == row@[fj as int]@);
                }
                push_field(&mut out, &row[fj]);
                if fj + 1 < nf {
                    out.push('\t');
                    proof {
                        assert(out@ + render_line(rowdv.skip(fj + 1)) + seq!['\n'] + render_lines(
                            entries.skip(ri + 1),
                        ) =~= spec_export(entries, table_name@, table_version));
                    }
                } else {
                    proof {
                        assert(rowdv.skip(fj as int).len() == 1);
                        assert(render_line(rowdv.skip(fj as int)) == render_field(
                            rowdv[fj as int],
                        ));
                        assert(rowdv.skip(fj + 1) =~= Seq::<DataV>::empty());
                        assert(out@ + render_line(rowdv.skip(fj + 1)) + seq!['\n'] + render_lines(
                            entries.skip(ri + 1),
                        ) =~= spec_export(entries, table_name@, table_version));
                    }
                }
                fj += 1;
            }
            out.push('\n');
            proof {
                assert(render_line(rowdv.skip(nf as int)) =~= Seq::<char>::empty());
                assert(out@ + render_lines(entries.skip(ri + 1)) =~= spec_export(
                    entries,
                    table_name@,
                    table_version,
                ));
            }
            ri += 1;
        }
        proof {
            assert(entries.skip(n as int) =~= Seq::<Seq<DataV>>::empty());
            assert(out@ =~= spec_export(entries, table_name@, table_version));
        }
        Ok(out)
    }

    /// Reads tab-separated text back into a table under the given
    /// definition; rejects a header that disagrees with the expected name
    /// and version, a record with the wrong field count, and any field that
    /// does not parse into its column's type.
    pub fn import_tsv(
        definition: &crate::schema::Definition,
        text: &str,
        name: &str,
        version: i32,
    ) -> (r: Result<crate::table::Table, crate::error::TableError>)
        ensures
            match r {
                Ok(t) => spec_import(definition@, text@, name@, version) == Ok::<
                    crate::table::TableV,
                    crate::error::TableError,
                >(t@),
                Err(e) => spec_import(definition@, text@, name@, version) == Err::<
                    crate::table::TableV,
                    crate::error::TableError,
                >(e),
            },
    {
        let ghost types = definition@.types();
        let ghost linesv = split(text@, '\n');
        let lines = split_text(text, '\n');
        proof {
            assert(lines.deep_view().len() == lines@.len());
        }
        if lines.len() < 2 {
            return Err(crate::error::TableError::TsvFormatMismatch);
        }
        let last_idx = lines.len() - 1;
        proof {
            assert(lines@[last_idx as int]@ == linesv.last());
        }
        if lines[last_idx].as_str().unicode_len() != 0 {
            return Err(crate::error::TableError::TsvFormatMismatch);
        }
        proof {
            assert(lines@[0]@ == linesv[0]);
        }
        let hf = split_text(lines[0].as_str(), '\t');
        proof {
            assert(hf.deep_view().len() == hf@.len());
        }
        if hf.len() != 2 {
            return Err(crate::error::TableError::TsvFormatMismatch);
        }
        let mut expected_name = String::new();
        push_escaped(&mut expected_name, name);
        let mut expected_version = String::new();
        push_dec_int(&mut expected_version, version as i64);
        proof {
            assert(expected_name@ =~= escape(name@));
            assert(expected_version@ =~= dec_int(version as int));
        }
        proof {
            assert(hf@[0]@ == split(linesv[0], '\t')[0]);
            assert(hf@[1]@ == split(linesv[0], '\t')[1]);
        }
        if !(hf[0] == expected_name) {
            return Err(crate::error::TableError::TsvFormatMismatch);
        }
        if !(hf[1] == expected_version) {
            return Err(crate::error::TableError::TsvFormatMismatch);
        }
        let ghost mid = linesv.subrange(1, linesv.len() - 1);
        let nf = definition.get_field_count();
        let mut rows: Vec<Vec<crate::data::DecodedData>> = Vec::new();
        let mut li: usize = 1;
        proof {
            assert(types.len() == nf);
            assert(mid.skip(0) =~= mid);
            assert(rows.deep_view() =~= Seq::<Seq<DataV>>::empty());
            match parse_lines(mid, types) {
                Some(rest) => {
                    assert(Seq::<Seq<DataV>>::empty() + rest =~= rest);
                },
                None => {},
            }
        }
        while li < last_idx
            invariant
                1 <= li <= last_idx,
                last_idx + 1 == lines@.len(),
                lines.deep_view() == linesv,
                linesv == split(text@, '\n'),
                linesv.len() >= 2,
                linesv.last().len() == 0,
                split(linesv[0], '\t').len() == 2,
                split(linesv[0], '\t')[0] == escape(name@),
                split(linesv[0], '\t')[1] == dec_int(version as int),
                mid == linesv.subrange(1, linesv.len() - 1),
                mid.len() == last_idx - 1,
                types == definition@.types(),
                nf == types.len(),
                rows@.len() == li - 1,
                parse_lines(mid, types) == (match parse_lines(mid.skip(li - 1), types) {
                    Some(rest) => Some(rows.deep_view() + rest),
                    None => None::<Seq<Seq<DataV>>>,
                }),
            decreases last_idx - li,
        {
            let ghost rows0 = rows.deep_view();
            let ghost linev = mid[li - 1];
            proof {
                assert(mid.skip(li - 1)[0] == mid[li - 1]);
                assert(mid.skip(li - 1).drop_first() =~= mid.skip(li as int));
                assert(lines@[li as int]@ == linesv[li as int]);
                assert(mid[li - 1] == linesv[li as int]);
            }
            let line = &lines[li];
            let mut row: Vec<crate::data::DecodedData> = Vec::new();
            if nf == 0 {
                if line.as_str().unicode_len() != 0 {
                    proof {
                        assert(parse_line(linev, types) is None);
                    }
                    return Err(crate::error::TableError::TsvFormatMismatch);
                }
                proof {
                    assert(parse_line(linev, types) == Some(Seq::<DataV>::empty()));
                    assert(row.deep_view() =~= Seq::<DataV>::empty());
                }
            } else {
                let ghost fsv = split(linev, '\t');
                let fs = split_text(line.as_str(), '\t');
                proof {
                    assert(fs.deep_view() == fsv);
                    assert(fs.deep_view().len() == fs@.len());
                }
                if fs.len() != nf {
                    proof {
                        assert(parse_line(linev, types) is None);
                    }
                    return Err(crate::error::TableError::TsvFormatMismatch);
                }
                let mut fj: usize = 0;
                proof {
                    assert(fsv.skip(0) =~= fsv);
                    assert(types.skip(0) =~= types);
                    assert(row.deep_view() =~= Seq::<DataV>::empty());
                    match parse_fields(fsv, types) {
                        Some(rest) => {
                            assert(Seq::<DataV>::empty() + rest =~= rest);
                        },
                        None => {},
                    }
                }
                while fj < nf
                    invariant
                        fj <= nf,
                        nf == fs@.len(),
                        nf == types.len(),
                        fs.deep_view() == fsv,
                        fsv.len() == nf,
                        types == definition@.types(),
                        row@.len() == fj,
                        linesv == split(text@, '\n'),
                        linesv.len() >= 2,
                        linesv.last().len() == 0,
                        split(linesv[0], '\t').len() == 2,
                        split(linesv[0], '\t')[0] == escape(name@),
                        split(linesv[0], '\t')[1] == dec_int(version as int),
                        mid == linesv.subrange(1, linesv.len() - 1),
                        mid.len() == last_idx - 1,
                        1 <= li < last_idx,
                        last_idx + 1 == linesv.len(),
                        linev == mid[li - 1],
                        fsv == split(linev, '\t'),
                        rows@.len() == li - 1,
                        parse_lines(mid, types) == (match parse_lines(mid.skip(li - 1), types) {
                            Some(rest) => Some(rows.deep_view() + rest),
                            None => None::<Seq<Seq<DataV>>>,
                        }),
                        parse_fields(fsv, types) == (match parse_fields(
                            fsv.skip(fj as int),
                            types.skip(fj as int),
                        ) {
                            Some(rest) => Some(row.deep_view() + rest),
                            None => None::<Seq<DataV>>,
                        }),
                    decreases nf - fj,
                {
                    let ghost row0 = row.deep_view();
                    proof {
                        assert(fsv.skip(fj as int)[0] == fsv[fj as int]);
                        assert(fsv.skip(fj as int).drop_first() =~= fsv.skip(fj + 1));
                        assert(types.skip(fj as int)[0] == types[fj as int]);
                        assert(types.skip(fj as int).drop_first() =~= types.skip(fj + 1));
                        assert(fs@[fj as int]@ == fsv[fj as int]);
                        assert(types[fj as int] == definition@.fields[fj as int].field_type);
                    }
                    let flds = definition.get_ref_fields();
                    let ft = flds[fj].get_field_type();
                    proof {
                        assert(flds.deep_view()[fj as int] == flds@[fj as int]@);
                        assert(ft == types[fj as int]);
                    }
                    match parse_field_text(fs[fj].as_str(), ft) {
                        Some(d) => {
                            row.push(d);
                            proof {
                                assert(row.deep_view() =~= row0.push(d@));
                                match parse_fields(fsv.skip(fj + 1), types.skip(fj + 1)) {
                                    Some(rest) => {
                                        assert(row0.push(d@) + rest =~= row0 + (seq![d@] + rest));
                                    },
                                    None => {},
                                }
                            }
                            fj += 1;
                        },
                        None => {
                            proof {
                                assert(fsv.skip(fj as int)[0] == fsv[fj as int]);
                                assert(types.skip(fj as int)[0] == types[fj as int]);
                                assert(fs@[fj as int]@ == fsv[fj as int]);
                                assert(parse_fields(fsv.skip(fj as int), types.skip(fj as int))
                                    is None);
                                assert(parse_line(linev, types) is None);
                                assert(mid.skip(li - 1)[0] == mid[li - 1]);
                                assert(parse_lines(mid.skip(li - 1), types) is None);
                            }
                            return Err(crate::error::TableError::TsvFormatMismatch);
                        },
                    }
                }
                proof {
                    assert(fsv.skip(nf as int) =~= Seq::<Seq<char>>::empty());
                    assert(types.skip(nf as int) =~= Seq::<FieldType>::empty());
                    assert(row.deep_view() + Seq::<DataV>::empty() =~= row.deep_view());
                    assert(parse_fields(fsv, types) == Some(row.deep_view()));
                    assert(parse_line(linev, types) == Some(row.deep_view()));
                }
            }
            let ghost rowdv = row.deep_view();
            rows.push(row);
            proof {
                assert(rows.deep_view() =~= rows0.push(rowdv));
                match parse_lines(mid.skip(li as int), types) {
                    Some(rest) => {
                        assert(rows0.push(rowdv) + rest =~= rows0 + (seq![rowdv] + rest));
                    },
                    None => {},
                }
            }
            li += 1;
        }
        proof {
            assert(mid.skip(last_idx - 1) =~= Seq::<Seq<char>>::empty());
            assert(rows.deep_view() + Seq::<Seq<DataV>>::empty() =~= rows.deep_view());
            assert(parse_lines(mid, types) == Some(rows.deep_view()));
            assert(rows.deep_view().len() == rows@.len());
        }
        if rows.len() as u64 > 0xFFFF_FFFF {
            return Err(crate::error::TableError::TsvFormatMismatch);
        }
        let mut table = crate::table::Table::new(definition);
        let rows_slice = rows.as_slice();
        proof {
            assert(rows_slice.deep_view() =~= rows.deep_view());
        }
        match table.set_table_data(rows_slice) {
            Ok(()) => {},
            Err(_) => {
                proof {
                    lemma_parse_lines_wf(mid, types);
                    assert(false);
                }
            },
        }
        Ok(table)
    }
}

} // verus!
