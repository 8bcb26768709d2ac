//! The generic table codec: an ordered set of typed rows owned by one
//! versioned definition, decoded from and encoded to bytes in field order.
//!
//! The type invariant is the heart of the module: every row always matches
//! the current definition's column types, and every cell can be re-encoded.
//! Mutations either preserve it or are rejected whole.

use vstd::prelude::*;
use crate::codec::{
    data_fits, decode_value, enc_value, encode_value, parse_bool, parse_value,
};
use crate::data::{clone_row, data_matches, row_matches, DataV, DecodedData};
use crate::error::TableError;
use crate::schema::{DefV, Definition, Field, FieldType, FieldV};

verus! {

/// The mathematical value of a `Table`: its definition and its rows.
pub ghost struct TableV {
    pub definition: DefV,
    pub entries: Seq<Seq<DataV>>,
}

/// A row that matches the column types and whose every cell can be encoded.
pub open spec fn row_wf(row: Seq<DataV>, types: Seq<FieldType>) -> bool {
    &&& row_matches(row, types)
    &&& forall|i: int| 0 <= i < row.len() ==> data_fits(#[trigger] row[i])
}

/// Every row well-formed against the column types.
pub open spec fn rows_wf(rows: Seq<Seq<DataV>>, types: Seq<FieldType>) -> bool {
    forall|r: int| 0 <= r < rows.len() ==> row_wf(#[trigger] rows[r], types)
}

/// The table invariant: well-formed rows, and a row count that fits the
/// 32-bit count field of the binary envelope.
pub open spec fn table_wf(t: TableV) -> bool {
    &&& rows_wf(t.entries, t.definition.types())
    &&& t.entries.len() <= u32::MAX
}

/// The index of the first row that is not well-formed (the row a rejection
/// names).
pub open spec fn first_bad_row(rows: Seq<Seq<DataV>>, types: Seq<FieldType>) -> int
    decreases rows.len(),
{
    if rows.len() == 0 {
        0
    } else if !row_wf(rows[0], types) {
        0
    } else {
        1 + first_bad_row(rows.drop_first(), types)
    }
}

/// When a prefix is well-formed and row `i` is not, `i` is the first bad row.
pub proof fn lemma_first_bad_row(rows: Seq<Seq<DataV>>, types: Seq<FieldType>, i: int)
    requires
        0 <= i < rows.len(),
        forall|k: int| 0 <= k < i ==> row_wf(#[trigger] rows[k], types),
        !row_wf(rows[i], types),
    ensures
        first_bad_row(rows, types) == i,
    decreases i,
{
    if i > 0 {
        assert(rows[0] == rows[0]);
        lemma_first_bad_row(rows.drop_first(), types, i - 1);
    }
}

// ---------------------------------------------------------------------------
// Row encoding and parsing.
// ---------------------------------------------------------------------------
/// The bytes one row writes: its cells in field order.
pub open spec fn enc_row(row: Seq<DataV>) -> Seq<u8>
    decreases row.len(),
{
    if row.len() == 0 {
        Seq::empty()
    } else {
        enc_value(row[0]) + enc_row(row.drop_first())
    }
}

/// The bytes a row set writes: its rows in order.
pub open spec fn enc_rows(rows: Seq<Seq<DataV>>) -> Seq<u8>
    decreases rows.len(),
{
    if rows.len() == 0 {
        Seq::empty()
    } else {
        enc_row(rows[0]) + enc_rows(rows.drop_first())
    }
}

/// One row read in field order; the first malformed field aborts the row.
pub open spec fn parse_row(data: Seq<u8>, types: Seq<FieldType>, i: int) -> Result<
    (Seq<DataV>, int),
    TableError,
>
    decreases types.len(),
{
    if types.len() == 0 {
        Ok((Seq::empty(), i))
    } else {
        match parse_value(data, i, types[0]) {
            Ok((v, j)) => match parse_row(data, types.drop_first(), j) {
                Ok((vals, k)) => Ok((seq![v] + vals, k)),
                Err(e) => Err(e),
            },
            Err(e) => Err(e),
        }
    }
}

/// `n` rows read in order; the first malformed row aborts the whole decode.
pub open spec fn parse_rows(data: Seq<u8>, types: Seq<FieldType>, n: int, i: int) -> Result<
    (Seq<Seq<DataV>>, int),
    TableError,
>
    decreases n,
{
    if n <= 0 {
        Ok((Seq::empty(), i))
    } else {
        match parse_row(data, types, i) {
            Ok((row, j)) => match parse_rows(data, types, n - 1, j) {
                Ok((rows, k)) => Ok((seq![row] + rows, k)),
                Err(e) => Err(e),
            },
            Err(e) => Err(e),
        }
    }
}

// ---------------------------------------------------------------------------
// The table itself.
// ---------------------------------------------------------------------------
/// One decoded table: a definition and the rows that match it.
#[derive(Debug)]
pub struct Table {
    definition: Definition,
    entries: Vec<Vec<DecodedData>>,
}

impl View for Table {
    type V = TableV;

    closed spec fn view(&self) -> TableV {
        TableV { definition: self.definition@, entries: self.entries.deep_view() }
    }
}

impl Table {
    /// The type invariant: available to callers through
    /// `use_type_invariant`.
    #[verifier::type_invariant]
    pub open spec fn wf(self) -> bool {
        table_wf(self@)
    }

    /// An empty table over the given definition.
    pub fn new(definition: &Definition) -> (r: Table)
        ensures
            r@.definition == definition@,
            r@.entries == Seq::<Seq<DataV>>::empty(),
    {
        let t = Table { definition: definition.clone(), entries: Vec::new() };
        proof {
            assert(t@.entries =~= Seq::<Seq<DataV>>::empty());
        }
        t
    }

    /// A copy of the definition.
    pub fn get_definition(&self) -> (r: Definition)
        ensures
            r@ == self@.definition,
    {
        self.definition.clone()
    }

    /// The definition, borrowed.
    pub fn get_ref_definition(&self) -> (r: &Definition)
        ensures
            r@ == self@.definition,
    {
        &self.definition
    }

    /// A copy of the rows.
    pub fn get_table_data(&self) -> (r: Vec<Vec<DecodedData>>)
        ensures
            r.deep_view() == self@.entries,
    {
        let n = self.entries.len();
        let mut rows: Vec<Vec<DecodedData>> = Vec::new();
        let mut i: usize = 0;
        while i < n
            invariant
                i <= n,
                n == self.entries@.len(),
                rows@.len() == i,
                forall|k: int| 0 <= k < i ==> #[trigger] rows@[k].deep_view()
                    == self.entries@[k].deep_view(),
            decreases n - i,
        {
            rows.push(clone_row(&self.entries[i]));
            i += 1;
        }
        proof {
            assert forall|k: int| 0 <= k < n implies rows.deep_view()[k]
                == self.entries.deep_view()[k] by {
                assert(rows@[k].deep_view() == self.entries@[k].deep_view());
            }
            assert(rows.deep_view() =~= self.entries.deep_view());
        }
        rows
    }

    /// The rows, borrowed.
    pub fn get_ref_table_data(&self) -> (r: &[Vec<DecodedData>])
        ensures
            r.deep_view() == self@.entries,
    {
        let s = self.entries.as_slice();
        proof {
            assert(s.deep_view() =~= self.entries.deep_view());
        }
        s
    }

    /// How many rows the table holds.
    pub fn get_entry_count(&self) -> (r: usize)
        ensures
            r == self@.entries.len(),
    {
        self.entries.len()
    }

    /// Replaces all rows after validating every row's shape against the
    /// current definition. Rejects the whole replacement, naming the first
    /// offending row and leaving the table untouched, when any row's length,
    /// per-position types, or encodability disagree with the definition.
    pub fn set_table_data(&mut self, data: &[Vec<DecodedData>]) -> (r: Result<(), TableError>)
        requires
            data@.len() <= u32::MAX,
        ensures
            final(self)@.definition == old(self)@.definition,
            r is Ok <==> rows_wf(data.deep_view(), old(self)@.definition.types()),
            r is Ok ==> final(self)@.entries == data.deep_view(),
            r is Err ==> final(self)@ == old(self)@ && r == Err::<(), TableError>(
                TableError::ShapeMismatch {
                    row: first_bad_row(data.deep_view(), old(self)@.definition.types()) as usize,
                },
            ),
    {
        let n = data.len();
        let mut i: usize = 0;
        while i < n
            invariant
                i <= n,
                n == data@.len(),
                forall|k: int| 0 <= k < i ==> row_wf(
                    #[trigger] data.deep_view()[k],
                    self@.definition.types(),
                ),
            decreases n - i,
        {
            if !check_row(vstd::slice::slice_index_get(data, i), self.definition.get_ref_fields()) {
                proof {
                    assert(data.deep_view()[i as int] == data@[i as int].deep_view());
                    assert(data.deep_view().len() == data@.len());
                    lemma_first_bad_row(data.deep_view(), self@.definition.types(), i as int);
                }
                return Err(TableError::ShapeMismatch { row: i });
            }
            proof {
                assert(data.deep_view()[i as int] == data@[i as int].deep_view());
            }
            i += 1;
        }
        let mut rows: Vec<Vec<DecodedData>> = Vec::new();
        let mut k: usize = 0;
        while k < n
            invariant
                k <= n,
                n == data@.len(),
                rows@.len() == k,
                forall|q: int| 0 <= q < k ==> #[trigger] rows@[q].deep_view()
                    == data@[q].deep_view(),
            decreases n - k,
        {
            rows.push(clone_row(vstd::slice::slice_index_get(data, k)));
            k += 1;
        }
        proof {
            assert forall|q: int| 0 <= q < n implies rows.deep_view()[q]
                == data.deep_view()[q] by {
                assert(rows@[q].deep_view() == data@[q].deep_view());
            }
            assert(rows.deep_view() =~= data.deep_view());
            assert(data.deep_view().len() == data@.len());
        }
        self.entries = rows;
        proof {
            assert(table_wf(self@));
        }
        Ok(())
    }
}

/// Whether every cell of the row matches the column types and can be
/// encoded.
pub fn check_row(row: &Vec<DecodedData>, fields: &Vec<Field>) -> (r: bool)
    ensures
        r == row_wf(row.deep_view(), (DefV { version: 0, fields: fields.deep_view() }).types()),
{
    let ghost types = (DefV { version: 0, fields: fields.deep_view() }).types();
    proof {
        assert(types.len() == fields.deep_view().len());
        assert(fields.deep_view().len() == fields@.len());
        assert(row.deep_view().len() == row@.len());
    }
    if row.len() != fields.len() {
        return false;
    }
    let n = row.len();
    let mut i: usize = 0;
    while i < n
        invariant
            i <= n,
            n == row@.len() && n == fields@.len(),
            types == (DefV { version: 0, fields: fields.deep_view() }).types(),
            types.len() == n,
            row.deep_view().len() == n,
            forall|k: int| 0 <= k < i ==> data_matches(#[trigger] row.deep_view()[k], types[k])
                && data_fits(row.deep_view()[k]),
        decreases n - i,
    {
        proof {
            assert(types[i as int] == fields.deep_view()[i as int].field_type);
            assert(fields.deep_view()[i as int] == fields@[i as int]@);
            assert(row.deep_view()[i as int] == row@[i as int]@);
        }
        if !row[i].matches_type(fields[i].get_field_type()) {
            return false;
        }
        if !crate::codec::check_fits(&row[i]) {
            return false;
        }
        i += 1;
    }
    true
}


// ---------------------------------------------------------------------------
// What parsing guarantees about its results.
// ---------------------------------------------------------------------------
/// A parsed cell matches its column type, can be re-encoded, and the cursor
/// moves forward without leaving the buffer.
pub proof fn lemma_parse_value_wf(data: Seq<u8>, i: int, t: FieldType)
    requires
        0 <= i,
    ensures
        match parse_value(data, i, t) {
            Ok((v, j)) => data_matches(v, t) && data_fits(v) && i <= j <= data.len(),
            Err(_) => true,
        },
{
    match t {
        FieldType::StringU8 => {
            lemma_parse_str_u8_wf(data, i);
        },
        FieldType::StringU16 => {
            lemma_parse_str_u16_wf(data, i);
        },
        FieldType::OptionalStringU8 => {
            match parse_bool(data, i) {
                Ok((b, j)) => {
                    if b {
                        lemma_parse_str_u8_wf(data, j);
                    } else {
                        assert(vstd::utf8::encode_utf8(Seq::<char>::empty()).len() == 0);
                    }
                },
                Err(_) => {},
            }
        },
        FieldType::OptionalStringU16 => {
            match parse_bool(data, i) {
                Ok((b, j)) => {
                    if b {
                        lemma_parse_str_u16_wf(data, j);
                    } else {
                        assert(crate::utf16::utf16_of(Seq::<char>::empty()).len() == 0);
                    }
                },
                Err(_) => {},
            }
        },
        _ => {},
    }
}

/// A parsed 8-bit-encoded string re-encodes to the bytes it was read from,
/// so its length fits the prefix.
pub proof fn lemma_parse_str_u8_wf(data: Seq<u8>, i: int)
    requires
        0 <= i,
    ensures
        match crate::codec::parse_str_u8(data, i) {
            Ok((s, j)) => vstd::utf8::encode_utf8(s).len() <= 0xFFFF && i <= j <= data.len(),
            Err(_) => true,
        },
{
    match crate::codec::parse_str_u8(data, i) {
        Ok((s, jend)) => {
            match crate::codec::parse_u16(data, i) {
                Ok((count, j)) => {
                    let payload = data.subrange(j, j + count);
                    assert(s == vstd::utf8::decode_utf8(payload));
                    assert(vstd::utf8::valid_utf8(payload));
                    vstd::utf8::decode_utf8_encode_utf8(payload);
                    assert(vstd::utf8::encode_utf8(s) == payload);
                    assert(payload.len() == count);
                },
                Err(_) => {
                    assert(false);
                },
            }
        },
        Err(_) => {},
    }
}

/// A parsed 16-bit-encoded string re-encodes to the units it was read from,
/// so its length fits the prefix.
pub proof fn lemma_parse_str_u16_wf(data: Seq<u8>, i: int)
    requires
        0 <= i,
    ensures
        match crate::codec::parse_str_u16(data, i) {
            Ok((s, j)) => crate::utf16::utf16_of(s).len() <= 0xFFFF && i <= j <= data.len(),
            Err(_) => true,
        },
{
    match crate::codec::parse_str_u16(data, i) {
        Ok((s, jend)) => {
            match crate::codec::parse_u16(data, i) {
                Ok((count, j)) => {
                    let units = crate::codec::parse_units(data, j, count as int);
                    assert(s == crate::utf16::decode_utf16(units));
                    assert(crate::utf16::valid_utf16(units));
                    crate::codec::lemma_parse_units_len(data, j, count as int);
                    crate::utf16::lemma_utf16_decode_encode(units);
                    assert(crate::utf16::utf16_of(s) == units);
                    assert(units.len() == count);
                },
                Err(_) => {
                    assert(false);
                },
            }
        },
        Err(_) => {},
    }
}

/// A parsed row is well-formed and the cursor moves forward.
pub proof fn lemma_parse_row_wf(data: Seq<u8>, types: Seq<FieldType>, i: int)
    requires
        0 <= i,
    ensures
        match parse_row(data, types, i) {
            Ok((row, j)) => row_wf(row, types) && i <= j,
            Err(_) => true,
        },
    decreases types.len(),
{
    if types.len() > 0 {
        match parse_value(data, i, types[0]) {
            Ok((v, j)) => {
                lemma_parse_value_wf(data, i, types[0]);
                match parse_row(data, types.drop_first(), j) {
                    Ok((vals, k)) => {
                        lemma_parse_row_wf(data, types.drop_first(), j);
                        let row = seq![v] + vals;
                        assert forall|q: int| 0 <= q < row.len() implies data_matches(
                            #[trigger] row[q],
                            types[q],
                        ) && data_fits(row[q]) by {
                            if q > 0 {
                                assert(row[q] == vals[q - 1]);
                                assert(types.drop_first()[q - 1] == types[q]);
                            }
                        }
                    },
                    Err(_) => {},
                }
            },
            Err(_) => {},
        }
    }
}

/// Parsed rows are all well-formed, there are exactly `n` of them, and the
/// cursor moves forward.
pub proof fn lemma_parse_rows_wf(data: Seq<u8>, types: Seq<FieldType>, n: int, i: int)
    requires
        0 <= i,
    ensures
        match parse_rows(data, types, n, i) {
            Ok((rows, j)) => rows_wf(rows, types) && rows.len() == (if n <= 0 {
                0
            } else {
                n
            }) && i <= j,
            Err(_) => true,
        },
    decreases n,
{
    if n > 0 {
        match parse_row(data, types, i) {
            Ok((row, j)) => {
                lemma_parse_row_wf(data, types, i);
                match parse_rows(data, types, n - 1, j) {
                    Ok((rows, k)) => {
                        lemma_parse_rows_wf(data, types, n - 1, j);
                        let all = seq![row] + rows;
                        assert forall|q: int| 0 <= q < all.len() implies row_wf(
                            #[trigger] all[q],
                            types,
                        ) by {
                            if q > 0 {
                                assert(all[q] == rows[q - 1]);
                            }
                        }
                    },
                    Err(_) => {},
                }
            },
            Err(_) => {},
        }
    }
}

impl Table {
    /// Decodes `entry_count` rows from `data` starting at `*index`,
    /// replacing the table's rows and advancing the cursor by exactly the
    /// bytes consumed. On the first malformed field the whole decode fails,
    /// and the table and the cursor are left unchanged.
    pub fn decode(&mut self, data: &[u8], entry_count: u32, index: &mut usize) -> (r: Result<
        (),
        TableError,
    >)
        ensures
            final(self)@.definition == old(self)@.definition,
            match r {
                Ok(()) => parse_rows(
                    data@,
                    old(self)@.definition.types(),
                    entry_count as int,
                    *old(index) as int,
                ) == Ok::<(Seq<Seq<DataV>>, int), TableError>(
                    (final(self)@.entries, *final(index) as int),
                ),
                Err(e) => parse_rows(
                    data@,
                    old(self)@.definition.types(),
                    entry_count as int,
                    *old(index) as int,
                ) == Err::<(Seq<Seq<DataV>>, int), TableError>(e) && final(self)@ == old(self)@
                    && *final(index) == *old(index),
            },
    {
        let ghost types = self@.definition.types();
        let ghost i0 = *index as int;
        let fields = self.definition.get_ref_fields();
        let nf = fields.len();
        proof {
            assert(types.len() == nf);
        }
        let n = entry_count;
        let mut rows: Vec<Vec<DecodedData>> = Vec::new();
        let mut i: usize = *index;
        let mut rc: u32 = 0;
        proof {
            assert(rows.deep_view() =~= Seq::<Seq<DataV>>::empty());
        }
        while rc < n
            invariant
                rc <= n,
                rows@.len() == rc,
                nf == fields@.len(),
                n == entry_count,
                i0 == *old(index) as int,
                types == old(self)@.definition.types(),
                types == fields.deep_view().map_values(|f: FieldV| f.field_type),
                parse_rows(data@, types, rc as int, i0) == Ok::<
                    (Seq<Seq<DataV>>, int),
                    TableError,
                >((rows.deep_view(), i as int)),
            decreases n - rc,
        {
            let ghost irow = i as int;
            let ghost rows0 = rows.deep_view();
            let mut row: Vec<DecodedData> = Vec::new();
            let mut f: usize = 0;
            proof {
                assert(row.deep_view() =~= Seq::<DataV>::empty());
                assert(types.skip(0) =~= types);
            }
            while f < nf
                invariant
                    f <= nf,
                    row@.len() == f,
                    nf == fields@.len(),
                    types == fields.deep_view().map_values(|x: FieldV| x.field_type),
                    types.len() == nf,
                    rc < n,
                    rows@.len() == rc,
                    n == entry_count,
                    i0 == *old(index) as int,
                    types == old(self)@.definition.types(),
                    parse_rows(data@, types, rc as int, i0) == Ok::<
                        (Seq<Seq<DataV>>, int),
                        TableError,
                    >((rows.deep_view(), irow)),
                    match parse_row(data@, types.skip(f as int), i as int) {
                        Ok((vals, j)) => parse_row(data@, types, irow) == Ok::<
                            (Seq<DataV>, int),
                            TableError,
                        >((row.deep_view() + vals, j)),
                        Err(e) => parse_row(data@, types, irow) == Err::<
                            (Seq<DataV>, int),
                            TableError,
                        >(e),
                    },
                decreases nf - f,
            {
                let t = fields[f].get_field_type();
                let ghost ipre = i as int;
                proof {
                    assert(types.skip(f as int)[0] == types[f as int]);
                    assert(types[f as int] == fields.deep_view()[f as int].field_type);
                    assert(fields.deep_view()[f as int] == fields@[f as int]@);
                    assert(types.skip(f as int).drop_first() =~= types.skip(f + 1));
                }
                match decode_value(data, &mut i, t) {
                    Ok(v) => {
                        let ghost row0 = row.deep_view();
                        row.push(v);
                        proof {
                            assert(row.deep_view() =~= row0.push(v@));
                            match parse_row(data@, types.skip(f + 1), i as int) {
                                Ok((vals2, j2)) => {
                                    assert(row0.push(v@) + vals2 =~= row0 + (seq![v@] + vals2));
                                },
                                Err(_) => {},
                            }
                        }
                        f += 1;
                    },
                    Err(e) => {
                        proof {
                            assert(parse_row(data@, types.skip(f as int), ipre) == Err::<
                                (Seq<DataV>, int),
                                TableError,
                            >(e));
                            lemma_parse_rows_prefix_err(
                                data@,
                                types,
                                n as int,
                                i0,
                                rc as int,
                                rows.deep_view(),
                                irow,
                                e,
                            );
                        }
                        return Err(e);
                    },
                }
            }
            proof {
                assert(types.skip(nf as int) =~= Seq::<FieldType>::empty());
                assert(row.deep_view() + Seq::<DataV>::empty() =~= row.deep_view());
            }
            let ghost rowdv = row.deep_view();
            rows.push(row);
            rc += 1;
            proof {
                assert(rows.deep_view() =~= rows0.push(rowdv));
                lemma_parse_rows_snoc(data@, types, rc as int, i0, rows0, rowdv, irow, i as int);
            }
        }
        proof {
            lemma_parse_rows_wf(data@, types, n as int, i0);
        }
        self.entries = rows;
        *index = i;
        proof {
            assert(table_wf(self@));
        }
        Ok(())
    }

    /// Appends the encoded rows to `buf`: each row's cells in field order.
    /// Never fails: the table invariant keeps every cell encodable.
    pub fn encode(&self, buf: &mut Vec<u8>) -> (r: Result<(), TableError>)
        ensures
            r is Ok,
            final(buf)@ == old(buf)@ + enc_rows(self@.entries),
    {
        proof {
            use_type_invariant(self);
        }
        let n = self.entries.len();
        let mut ri: usize = 0;
        proof {
            assert(self@.entries.skip(0) =~= self@.entries);
        }
        while ri < n
            invariant
                ri <= n,
                n == self.entries@.len(),
                table_wf(self@),
                old(buf)@ + enc_rows(self@.entries) =~= buf@ + enc_rows(
                    self@.entries.skip(ri as int),
                ),
            decreases n - ri,
        {
            proof {
                assert(self@.entries.skip(ri as int)[0] == self@.entries[ri as int]);
                assert(self@.entries.skip(ri as int).drop_first() =~= self@.entries.skip(ri + 1));
            }
            let row = &self.entries[ri];
            let ghost rowdv = row.deep_view();
            proof {
                assert(rowdv == self@.entries[ri as int]);
                assert(row_wf(rowdv, self@.definition.types()));
            }
            let nf = row.len();
            let mut fi: usize = 0;
            proof {
                assert(rowdv.skip(0) =~= rowdv);
            }
            while fi < nf
                invariant
                    fi <= nf,
                    n == self.entries@.len(),
                    ri < n,
                    nf == row@.len(),
                    rowdv == row.deep_view(),
                    rowdv.len() == nf,
                    forall|k: int| 0 <= k < nf ==> data_fits(#[trigger] rowdv[k]),
                    old(buf)@ + enc_rows(self@.entries) =~= buf@ + enc_row(
                        rowdv.skip(fi as int),
                    ) + enc_rows(self@.entries.skip(ri + 1)),
                decreases nf - fi,
            {
                proof {
                    assert(rowdv.skip(fi as int)[0] == rowdv[fi as int]);
                    assert(rowdv.skip(fi as int).drop_first() =~= rowdv.skip(fi + 1));
                    assert(rowdv[fi as int] == row@[fi as int]@);
                }
                match encode_value(buf, &row[fi]) {
                    Ok(()) => {
                        proof {
                            assert(old(buf)@ + enc_rows(self@.entries) =~= buf@ + enc_row(
                                rowdv.skip(fi + 1),
                            ) + enc_rows(self@.entries.skip(ri + 1)));
                        }
                        fi += 1;
                    },
                    Err(e) => {
                        proof {
                            assert(false);
                        }
                        return Err(e);
                    },
                }
            }
            proof {
                assert(rowdv.skip(nf as int) =~= Seq::<DataV>::empty());
                assert(old(buf)@ + enc_rows(self@.entries) =~= buf@ + enc_rows(
                    self@.entries.skip(ri + 1),
                ));
            }
            ri += 1;
        }
        proof {
            assert(self@.entries.skip(n as int) =~= Seq::<Seq<DataV>>::empty());
            assert(old(buf)@ + enc_rows(self@.entries) =~= buf@);
        }
        Ok(())
    }
}

/// A failing row after a successful prefix fails the whole parse.
proof fn lemma_parse_rows_prefix_err(
    data: Seq<u8>,
    types: Seq<FieldType>,
    n: int,
    i0: int,
    rc: int,
    rows0: Seq<Seq<DataV>>,
    irow: int,
    e: TableError,
)
    requires
        0 <= rc < n,
        parse_rows(data, types, rc, i0) == Ok::<(Seq<Seq<DataV>>, int), TableError>(
            (rows0, irow),
        ),
        parse_row(data, types, irow) == Err::<(Seq<DataV>, int), TableError>(e),
    ensures
        parse_rows(data, types, n, i0) == Err::<(Seq<Seq<DataV>>, int), TableError>(e),
    decreases rc,
{
    if rc == 0 {
        assert(irow == i0);
    } else {
        match parse_row(data, types, i0) {
            Ok((first, j)) => {
                match parse_rows(data, types, rc - 1, j) {
                    Ok((rest, k)) => {
                        assert(k == irow);
                        lemma_parse_rows_prefix_err(data, types, n - 1, j, rc - 1, rest, irow, e);
                    },
                    Err(_) => {
                        assert(false);
                    },
                }
            },
            Err(_) => {
                assert(false);
            },
        }
    }
}

/// Extends a successful parse of `rc - 1` rows by one more parsed row.
proof fn lemma_parse_rows_snoc(
    data: Seq<u8>,
    types: Seq<FieldType>,
    rc: int,
    i0: int,
    rows0: Seq<Seq<DataV>>,
    row: Seq<DataV>,
    irow: int,
    iend: int,
)
    requires
        rc >= 1,
        parse_rows(data, types, rc - 1, i0) == Ok::<(Seq<Seq<DataV>>, int), TableError>(
            (rows0, irow),
        ),
        parse_row(data, types, irow) == Ok::<(Seq<DataV>, int), TableError>((row, iend)),
    ensures
        parse_rows(data, types, rc, i0) == Ok::<(Seq<Seq<DataV>>, int), TableError>(
            (rows0.push(row), iend),
        ),
    decreases rc,
{
    if rc == 1 {
        assert(parse_rows(data, types, 0, i0) == Ok::<(Seq<Seq<DataV>>, int), TableError>(
            (Seq::empty(), i0),
        ));
        assert(rows0 =~= Seq::<Seq<DataV>>::empty());
        assert(irow == i0);
        match parse_rows(data, types, 0, iend) {
            Ok((e, k)) => {
                assert(seq![row] + e =~= rows0.push(row));
            },
            Err(_) => {},
        }
    } else {
        match parse_row(data, types, i0) {
            Ok((first, j)) => {
                match parse_rows(data, types, rc - 2, j) {
                    Ok((rest, k)) => {
                        assert(rows0 == seq![first] + rest);
                        assert(k == irow);
                        assert(rest =~= rows0.drop_first());
                        lemma_parse_rows_snoc(data, types, rc - 1, j, rest, row, irow, iend);
                        assert(seq![first] + rest.push(row) =~= rows0.push(row));
                    },
                    Err(_) => {
                        assert(false);
                    },
                }
            },
            Err(_) => {
                assert(false);
            },
        }
    }
}


/// The canonical value of a column type: what a freshly added column holds.
pub open spec fn default_data(t: FieldType) -> DataV {
    match t {
        FieldType::Boolean => DataV::Boolean(false),
        FieldType::Float => DataV::Float(0),
        FieldType::Integer => DataV::Integer(0),
        FieldType::LongInteger => DataV::LongInteger(0),
        FieldType::StringU8 => DataV::StringU8(Seq::empty()),
        FieldType::StringU16 => DataV::StringU16(Seq::empty()),
        FieldType::OptionalStringU8 => DataV::OptionalStringU8(Seq::empty()),
        FieldType::OptionalStringU16 => DataV::OptionalStringU16(Seq::empty()),
    }
}

/// The value a freshly added column takes: the field's declared default
/// parsed under its type, or the type's canonical value when no default is
/// declared or it does not parse.
pub open spec fn field_default(f: FieldV) -> DataV {
    match f.default_value {
        Some(d) => match crate::tsv::parse_field(d, f.field_type) {
            Some(v) => v,
            None => default_data(f.field_type),
        },
        None => default_data(f.field_type),
    }
}

/// The first column of `fields` with the given name and type, if any.
pub open spec fn find_field(fields: Seq<FieldV>, name: Seq<char>, t: FieldType) -> Option<int>
    decreases fields.len(),
{
    if fields.len() == 0 {
        None
    } else if fields[0].name == name && fields[0].field_type == t {
        Some(0)
    } else {
        match find_field(fields.drop_first(), name, t) {
            Some(p) => Some(p + 1),
            None => None,
        }
    }
}

/// A found column index is in range and names a matching column.
pub proof fn lemma_find_field_ok(fields: Seq<FieldV>, name: Seq<char>, t: FieldType)
    ensures
        match find_field(fields, name, t) {
            Some(p) => 0 <= p < fields.len() && fields[p].name == name && fields[p].field_type
                == t,
            None => true,
        },
    decreases fields.len(),
{
    if fields.len() > 0 {
        lemma_find_field_ok(fields.drop_first(), name, t);
    }
}

/// One row reshaped from the old column list to the new one: a kept column
/// carries its cell over, a new column gets the type's canonical value.
pub open spec fn reshape_row(
    row: Seq<DataV>,
    old_fields: Seq<FieldV>,
    new_fields: Seq<FieldV>,
) -> Seq<DataV> {
    Seq::new(
        new_fields.len(),
        |j: int|
            match find_field(old_fields, new_fields[j].name, new_fields[j].field_type) {
                Some(p) => if 0 <= p < row.len() {
                    row[p]
                } else {
                    field_default(new_fields[j])
                },
                None => field_default(new_fields[j]),
            },
    )
}

/// Every row reshaped, in order.
pub open spec fn reshape_rows(
    rows: Seq<Seq<DataV>>,
    old_fields: Seq<FieldV>,
    new_fields: Seq<FieldV>,
) -> Seq<Seq<DataV>> {
    Seq::new(rows.len(), |r: int| reshape_row(rows[r], old_fields, new_fields))
}

impl Table {
    /// Replaces the definition and reshapes every row to match it in one
    /// atomic step: columns present in both definitions (same name and type)
    /// keep their cells, removed columns are dropped, added columns are
    /// filled with the type's canonical value.
    pub fn set_definition(&mut self, new_definition: &Definition)
        ensures
            final(self)@.definition == new_definition@,
            final(self)@.entries == reshape_rows(
                old(self)@.entries,
                old(self)@.definition.fields,
                new_definition@.fields,
            ),
    {
        proof {
            use_type_invariant(&*self);
        }
        let ghost old_fields = self@.definition.fields;
        let ghost new_fields = new_definition@.fields;
        let ghost entries0 = self@.entries;
        let nrows = self.entries.len();
        let nf = new_definition.get_field_count();
        let mut new_entries: Vec<Vec<DecodedData>> = Vec::new();
        let mut r: usize = 0;
        while r < nrows
            invariant
                r <= nrows,
                nrows == self.entries@.len(),
                new_entries@.len() == r,
                old_fields == self@.definition.fields,
                new_fields == new_definition@.fields,
                entries0 == self@.entries,
                table_wf(self@),
                nf == new_fields.len(),
                forall|q: int| 0 <= q < r ==> #[trigger] new_entries@[q].deep_view()
                    == reshape_row(entries0[q], old_fields, new_fields),
            decreases nrows - r,
        {
            let row = &self.entries[r];
            let mut new_row: Vec<DecodedData> = Vec::new();
            let mut j: usize = 0;
            while j < nf
                invariant
                    j <= nf,
                    new_row@.len() == j,
                    r < nrows,
                    nrows == self.entries@.len(),
                    old_fields == self@.definition.fields,
                    new_fields == new_definition@.fields,
                    entries0 == self@.entries,
                    table_wf(self@),
                    nf == new_fields.len(),
                    row == &self.entries[r as int],
                    forall|q: int| 0 <= q < j ==> #[trigger] new_row@[q]@ == reshape_row(
                        entries0[r as int],
                        old_fields,
                        new_fields,
                    )[q],
                decreases nf - j,
            {
                let field = &new_definition.get_ref_fields()[j];
                proof {
                    assert(field@ == new_fields[j as int]);
                    lemma_find_field_ok(old_fields, field@.name, field@.field_type);
                    assert(row.deep_view() == entries0[r as int]);
                    assert(row_wf(row.deep_view(), self@.definition.types()));
                }
                let cell = match find_position(self.definition.get_ref_fields(), field) {
                    Some(p) => {
                        proof {
                            assert(row.deep_view().len() == self@.definition.types().len());
                        }
                        row[p].clone()
                    },
                    None => field_default_decoded(field),
                };
                new_row.push(cell);
                j += 1;
            }
            proof {
                assert forall|q: int| 0 <= q < nf implies new_row.deep_view()[q] == reshape_row(
                    entries0[r as int],
                    old_fields,
                    new_fields,
                )[q] by {
                    assert(new_row@[q]@ == reshape_row(entries0[r as int], old_fields, new_fields)[q]);
                }
                assert(new_row.deep_view() =~= reshape_row(
                    entries0[r as int],
                    old_fields,
                    new_fields,
                ));
            }
            new_entries.push(new_row);
            r += 1;
        }
        proof {
            assert forall|q: int| 0 <= q < nrows implies new_entries.deep_view()[q]
                == reshape_rows(entries0, old_fields, new_fields)[q] by {
                assert(new_entries@[q].deep_view() == reshape_row(
                    entries0[q],
                    old_fields,
                    new_fields,
                ));
            }
            assert(new_entries.deep_view() =~= reshape_rows(entries0, old_fields, new_fields));
            assert forall|q: int| 0 <= q < nrows implies row_wf(
                #[trigger] reshape_rows(entries0, old_fields, new_fields)[q],
                new_definition@.types(),
            ) by {
                assert(row_wf(entries0[q], self@.definition.types()));
                lemma_reshape_row_wf(
                    entries0[q],
                    old_fields,
                    new_fields,
                    self@.definition.types(),
                    new_definition@.types(),
                );
            }
        }
        let next = Table { definition: new_definition.clone(), entries: new_entries };
        proof {
            assert(table_wf(next@));
        }
        *self = next;
    }
}

/// A reshaped row is well-formed against the new column types.
proof fn lemma_reshape_row_wf(
    row: Seq<DataV>,
    old_fields: Seq<FieldV>,
    new_fields: Seq<FieldV>,
    old_types: Seq<FieldType>,
    new_types: Seq<FieldType>,
)
    requires
        row_wf(row, old_types),
        old_types == (DefV { version: 0, fields: old_fields }).types(),
        new_types == (DefV { version: 0, fields: new_fields }).types(),
    ensures
        row_wf(reshape_row(row, old_fields, new_fields), new_types),
{
    let out = reshape_row(row, old_fields, new_fields);
    assert forall|j: int| 0 <= j < out.len() implies data_matches(#[trigger] out[j], new_types[j])
        && data_fits(out[j]) by {
        lemma_find_field_ok(old_fields, new_fields[j].name, new_fields[j].field_type);
        match find_field(old_fields, new_fields[j].name, new_fields[j].field_type) {
            Some(p) => {
                if 0 <= p < row.len() {
                    assert(data_matches(row[p], old_types[p]));
                    assert(old_types[p] == old_fields[p].field_type);
                    assert(new_types[j] == new_fields[j].field_type);
                } else {
                    lemma_field_default_wf(new_fields[j]);
                }
            },
            None => {
                lemma_field_default_wf(new_fields[j]);
            },
        }
        assert(new_types[j] == new_fields[j].field_type);
    }
}

/// The canonical value of a type matches the type and can be encoded.
proof fn lemma_default_data_wf(t: FieldType)
    ensures
        data_matches(default_data(t), t),
        data_fits(default_data(t)),
{
    assert(vstd::utf8::encode_utf8(Seq::<char>::empty()).len() == 0);
    assert(crate::utf16::utf16_of(Seq::<char>::empty()).len() == 0);
}

/// A column's default value matches the column type and can be encoded.
proof fn lemma_field_default_wf(f: FieldV)
    ensures
        data_matches(field_default(f), f.field_type),
        data_fits(field_default(f)),
{
    lemma_default_data_wf(f.field_type);
    match f.default_value {
        Some(d) => {
            crate::tsv::lemma_parse_field_wf(d, f.field_type);
        },
        None => {},
    }
}

/// The first column of `fields` with the same name and type as `field`.
fn find_position(fields: &Vec<Field>, field: &Field) -> (r: Option<usize>)
    ensures
        match r {
            Some(p) => find_field(fields.deep_view(), field@.name, field@.field_type) == Some(
                p as int,
            ),
            None => find_field(fields.deep_view(), field@.name, field@.field_type) is None,
        },
{
    let n = fields.len();
    let mut i: usize = 0;
    let ghost fv = fields.deep_view();
    proof {
        assert(fv.len() == fields@.len());
        assert(fv.skip(0) =~= fv);
        lemma_find_field_ok(fv, field@.name, field@.field_type);
    }
    while i < n
        invariant
            i <= n,
            n == fields@.len(),
            fv == fields.deep_view(),
            fv.len() == n,
            match find_field(fv, field@.name, field@.field_type) {
                Some(p) => i <= p,
                None => true,
            },
            (match find_field(fv.skip(i as int), field@.name, field@.field_type) {
                Some(p) => find_field(fv, field@.name, field@.field_type) == Some(p + i),
                None => find_field(fv, field@.name, field@.field_type) is None,
            }),
        decreases n - i,
    {
        proof {
            assert(fv.skip(i as int)[0] == fv[i as int]);
            assert(fv[i as int] == fields@[i as int]@);
            assert(fv.skip(i as int).drop_first() =~= fv.skip(i + 1));
            lemma_find_field_ok(fv.skip(i + 1), field@.name, field@.field_type);
        }
        let same_name = *fields[i].get_name() == *field.get_name();
        let same_type = fields[i].get_field_type() == field.get_field_type();
        if same_name && same_type {
            return Some(i);
        }
        i += 1;
    }
    proof {
        assert(fv.skip(n as int) =~= Seq::<FieldV>::empty());
    }
    None
}

/// The executable value a freshly added column takes: the declared default
/// parsed under the column's type, or the type's canonical value.
pub fn field_default_decoded(field: &Field) -> (r: DecodedData)
    ensures
        r@ == field_default(field@),
{
    let t = field.get_field_type();
    match field.get_default_value() {
        Some(d) => match crate::tsv::parse_field_text(d.as_str(), t) {
            Some(v) => v,
            None => default_decoded(t),
        },
        None => default_decoded(t),
    }
}

/// The canonical executable value of a column type.
pub fn default_decoded(t: FieldType) -> (r: DecodedData)
    ensures
        r@ == default_data(t),
{
    match t {
        FieldType::Boolean => DecodedData::Boolean(false),
        FieldType::Float => DecodedData::Float(0),
        FieldType::Integer => DecodedData::Integer(0),
        FieldType::LongInteger => DecodedData::LongInteger(0),
        FieldType::StringU8 => DecodedData::StringU8(String::new()),
        FieldType::StringU16 => DecodedData::StringU16(String::new()),
        FieldType::OptionalStringU8 => DecodedData::OptionalStringU8(String::new()),
        FieldType::OptionalStringU16 => DecodedData::OptionalStringU16(String::new()),
    }
}


// ---------------------------------------------------------------------------
// Parsing an encoded table yields the rows back.
// ---------------------------------------------------------------------------
/// A well-formed row encoded at `i` parses back to itself, consuming exactly
/// its encoding.
pub proof fn lemma_parse_row_of_enc(b: Seq<u8>, row: Seq<DataV>, types: Seq<FieldType>, i: int)
    requires
        row_wf(row, types),
        0 <= i,
        i + enc_row(row).len() <= b.len(),
        b.subrange(i, i + enc_row(row).len()) == enc_row(row),
    ensures
        parse_row(b, types, i) == Ok::<(Seq<DataV>, int), TableError>(
            (row, i + enc_row(row).len()),
        ),
    decreases types.len(),
{
    let e = enc_row(row);
    if types.len() == 0 {
        assert(row =~= Seq::<DataV>::empty());
    } else {
        let l0 = enc_value(row[0]).len() as int;
        assert(e == enc_value(row[0]) + enc_row(row.drop_first()));
        crate::codec::lemma_subrange_within(b, i, e, 0, l0);
        assert(e.subrange(0, l0) =~= enc_value(row[0]));
        crate::codec::lemma_parse_value_of_enc(b, row[0], types[0], i);
        crate::codec::lemma_subrange_within(b, i, e, l0, e.len() as int);
        assert(e.subrange(l0, e.len() as int) =~= enc_row(row.drop_first()));
        assert forall|q: int| 0 <= q < row.drop_first().len() implies data_matches(
            #[trigger] row.drop_first()[q],
            types.drop_first()[q],
        ) && data_fits(row.drop_first()[q]) by {
            assert(row.drop_first()[q] == row[q + 1]);
            assert(types.drop_first()[q] == types[q + 1]);
        }
        lemma_parse_row_of_enc(b, row.drop_first(), types.drop_first(), i + l0);
        assert(seq![row[0]] + row.drop_first() =~= row);
    }
}

/// Well-formed rows encoded at `i` parse back to themselves, consuming
/// exactly their encoding.
pub proof fn lemma_parse_rows_of_enc(
    b: Seq<u8>,
    rows: Seq<Seq<DataV>>,
    types: Seq<FieldType>,
    i: int,
)
    requires
        rows_wf(rows, types),
        0 <= i,
        i + enc_rows(rows).len() <= b.len(),
        b.subrange(i, i + enc_rows(rows).len()) == enc_rows(rows),
    ensures
        parse_rows(b, types, rows.len() as int, i) == Ok::<(Seq<Seq<DataV>>, int), TableError>(
            (rows, i + enc_rows(rows).len()),
        ),
    decreases rows.len(),
{
    let e = enc_rows(rows);
    if rows.len() == 0 {
        assert(parse_rows(b, types, 0, i) == Ok::<(Seq<Seq<DataV>>, int), TableError>(
            (Seq::empty(), i),
        ));
        assert(rows =~= Seq::<Seq<DataV>>::empty());
    } else {
        let l0 = enc_row(rows[0]).len() as int;
        assert(e == enc_row(rows[0]) + enc_rows(rows.drop_first()));
        crate::codec::lemma_subrange_within(b, i, e, 0, l0);
        assert(e.subrange(0, l0) =~= enc_row(rows[0]));
        lemma_parse_row_of_enc(b, rows[0], types, i);
        crate::codec::lemma_subrange_within(b, i, e, l0, e.len() as int);
        assert(e.subrange(l0, e.len() as int) =~= enc_rows(rows.drop_first()));
        assert forall|q: int| 0 <= q < rows.drop_first().len() implies row_wf(
            #[trigger] rows.drop_first()[q],
            types,
        ) by {
            assert(rows.drop_first()[q] == rows[q + 1]);
        }
        lemma_parse_rows_of_enc(b, rows.drop_first(), types, i + l0);
        assert(seq![rows[0]] + rows.drop_first() =~= rows);
    }
}


/// A successfully parsed row either survives truncation whole or fails with
/// an out-of-bounds read when the cut falls inside it.
pub proof fn lemma_parse_row_take(b: Seq<u8>, m: int, types: Seq<FieldType>, i: int)
    requires
        0 <= i,
        0 <= m <= b.len(),
        parse_row(b, types, i) is Ok,
    ensures
        match parse_row(b, types, i) {
            Ok((row, j)) => (j <= m ==> parse_row(b.take(m), types, i) == Ok::<
                (Seq<DataV>, int),
                TableError,
            >((row, j))) && (j > m && i <= m ==> parse_row(b.take(m), types, i) == Err::<
                (Seq<DataV>, int),
                TableError,
            >(TableError::OutOfBounds)),
            Err(_) => true,
        },
    decreases types.len(),
{
    if types.len() > 0 {
        match parse_value(b, i, types[0]) {
            Ok((v, jv)) => {
                lemma_parse_value_wf(b, i, types[0]);
                crate::codec::lemma_parse_value_take(b, m, i, types[0]);
                match parse_row(b, types.drop_first(), jv) {
                    Ok((vals, j)) => {
                        lemma_parse_row_wf(b, types.drop_first(), jv);
                        if jv <= m {
                            lemma_parse_row_take(b, m, types.drop_first(), jv);
                        }
                    },
                    Err(_) => {
                        assert(false);
                    },
                }
            },
            Err(_) => {
                assert(false);
            },
        }
    }
}

/// Successfully parsed rows either survive truncation whole or fail with an
/// out-of-bounds read when the cut falls inside them.
pub proof fn lemma_parse_rows_take(b: Seq<u8>, m: int, types: Seq<FieldType>, n: int, i: int)
    requires
        0 <= i,
        0 <= m <= b.len(),
        parse_rows(b, types, n, i) is Ok,
    ensures
        match parse_rows(b, types, n, i) {
            Ok((rows, j)) => (j <= m ==> parse_rows(b.take(m), types, n, i) == Ok::<
                (Seq<Seq<DataV>>, int),
                TableError,
            >((rows, j))) && (j > m && i <= m ==> parse_rows(b.take(m), types, n, i) == Err::<
                (Seq<Seq<DataV>>, int),
                TableError,
            >(TableError::OutOfBounds)),
            Err(_) => true,
        },
    decreases n,
{
    if n > 0 {
        match parse_row(b, types, i) {
            Ok((row, jr)) => {
                lemma_parse_row_wf(b, types, i);
                lemma_parse_row_take(b, m, types, i);
                match parse_rows(b, types, n - 1, jr) {
                    Ok((rows, j)) => {
                        lemma_parse_rows_wf(b, types, n - 1, jr);
                        if jr <= m {
                            lemma_parse_rows_take(b, m, types, n - 1, jr);
                        }
                    },
                    Err(_) => {
                        assert(false);
                    },
                }
            },
            Err(_) => {
                assert(false);
            },
        }
    }
}

} // verus!
