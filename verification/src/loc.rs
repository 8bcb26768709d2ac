//! The Loc format adapter: a fixed, self-identifying binary envelope
//! (byte-order marker, "LOC" tag, version, row count) wrapping one table of
//! localisation strings, plus the size-reduction pass that diffs a table
//! against reference baselines.
//!
//! `spec_read` and `spec_save` are the format's meaning; `read` and `save`
//! are proved to compute exactly them, and the round-trip and rejection laws
//! are proved about them.

use vstd::prelude::*;
use vstd::bytes::{spec_u32_from_le_bytes, spec_u32_to_le_bytes};
use vstd::slice::slice_index_get;
use crate::codec::{i32_of_u32_bits, u32_bits_of_i32, encode_u32, decode_u32, i32_to_bits,
    bits_to_i32, lemma_bits_round_trip};
use crate::data::{clone_row, rows_equal, DataV, DecodedData};
use crate::error::TableError;
use crate::schema::{spec_lookup, DefV, Definition, Schema};
use crate::table::{
    enc_rows, lemma_parse_rows_of_enc, parse_rows, rows_wf, row_wf, table_wf, Table, TableV,
};

verus! {

/// The name tag used by the tab-separated interchange form to identify a
/// Loc table.
pub const TSV_NAME_LOC: &'static str = "Loc PackedFile";

/// The fixed envelope: byte-order marker 65279 little-endian, the ASCII tag
/// "LOC", one zero padding byte, the signed version and the unsigned row
/// count, both 32-bit little-endian.
pub open spec fn loc_header(version: i32, count: u32) -> Seq<u8> {
    seq![0xFFu8, 0xFEu8, 0x4Cu8, 0x4Fu8, 0x43u8, 0x00u8] + spec_u32_to_le_bytes(
        u32_bits_of_i32(version),
    ) + spec_u32_to_le_bytes(count)
}

/// True when the buffer is long enough and its marker and tag match.
pub open spec fn header_ok(bytes: Seq<u8>) -> bool {
    &&& bytes.len() >= 14
    &&& bytes[0] == 0xFF
    &&& bytes[1] == 0xFE
    &&& bytes[2] == 0x4C
    &&& bytes[3] == 0x4F
    &&& bytes[4] == 0x43
}

/// The version recorded in the header.
pub open spec fn header_version(bytes: Seq<u8>) -> i32 {
    i32_of_u32_bits(spec_u32_from_le_bytes(bytes.subrange(6, 10)))
}

/// The row count recorded in the header.
pub open spec fn header_count(bytes: Seq<u8>) -> u32 {
    spec_u32_from_le_bytes(bytes.subrange(10, 14))
}

/// What `read` means: every accepted buffer and every rejection, exactly.
pub open spec fn spec_read(bytes: Seq<u8>, schema: Seq<DefV>) -> Result<TableV, TableError> {
    if !header_ok(bytes) {
        Err(TableError::NotALocFile)
    } else {
        let version = header_version(bytes);
        let count = header_count(bytes);
        match spec_lookup(schema, version) {
            None => if count == 0 {
                Err(TableError::EmptyTableWithNoDefinition)
            } else {
                Err(TableError::DefinitionNotFound)
            },
            Some(def) => match parse_rows(bytes, def.types(), count as int, 14) {
                Ok((rows, end)) => if end == bytes.len() {
                    Ok(TableV { definition: def, entries: rows })
                } else {
                    Err(
                        TableError::SizeMismatch {
                            expected: bytes.len() as usize,
                            actual: end as usize,
                        },
                    )
                },
                Err(e) => Err(e),
            },
        }
    }
}

/// What `save` means: the envelope followed by the encoded rows.
pub open spec fn spec_save(t: TableV) -> Seq<u8> {
    loc_header(t.definition.version, t.entries.len() as u32) + enc_rows(t.entries)
}

/// True when the row occurs, value for value, in some reference table whose
/// version matches.
pub open spec fn row_in_tables(row: Seq<DataV>, refs: Seq<TableV>, version: i32) -> bool {
    exists|k: int, r: int|
        0 <= k < refs.len() && refs[k].definition.version == version && 0 <= r
            < refs[k].entries.len() && refs[k].entries[r] == row
}

/// The rows that survive the size-reduction pass: exactly those not found in
/// a version-matching reference table, in their original order.
pub open spec fn keep_rows(rows: Seq<Seq<DataV>>, refs: Seq<TableV>, version: i32) -> Seq<
    Seq<DataV>,
>
    decreases rows.len(),
{
    if rows.len() == 0 {
        Seq::empty()
    } else {
        let rest = keep_rows(rows.drop_first(), refs, version);
        if row_in_tables(rows[0], refs, version) {
            rest
        } else {
            seq![rows[0]] + rest
        }
    }
}

/// A decoded localisation table: a key, a text, and a tooltip flag per row,
/// wrapped in the binary envelope above.
#[derive(Debug)]
pub struct Loc {
    table: Table,
}

impl View for Loc {
    type V = TableV;

    closed spec fn view(&self) -> TableV {
        self.table@
    }
}

impl DeepView for Loc {
    type V = TableV;

    open spec fn deep_view(&self) -> TableV {
        self.view()
    }
}

impl PartialEq for Loc {
    fn eq(&self, other: &Loc) -> bool {
        let defs = self.table.get_ref_definition() == other.table.get_ref_definition();
        let a = self.table.get_ref_table_data();
        let b = other.table.get_ref_table_data();
        proof {
            assert(a.deep_view().len() == a@.len());
            assert(b.deep_view().len() == b@.len());
        }
        if !defs || a.len() != b.len() {
            return false;
        }
        let n = a.len();
        let mut i: usize = 0;
        while i < n
            invariant
                i <= n,
                n == a@.len() && n == b@.len(),
                a.deep_view() == self@.entries,
                b.deep_view() == other@.entries,
                self@.definition == other@.definition,
                forall|k: int| 0 <= k < i ==> a.deep_view()[k] == b.deep_view()[k],
            decreases n - i,
        {
            if !rows_equal(slice_index_get(a, i), slice_index_get(b, i)) {
                proof {
                    assert(a.deep_view()[i as int] == a@[i as int].deep_view());
                    assert(b.deep_view()[i as int] == b@[i as int].deep_view());
                }
                return false;
            }
            proof {
                assert(a.deep_view()[i as int] == a@[i as int].deep_view());
                assert(b.deep_view()[i as int] == b@[i as int].deep_view());
            }
            i += 1;
        }
        proof {
            assert(a.deep_view() =~= b.deep_view());
        }
        true
    }
}

impl vstd::std_specs::cmp::PartialEqSpecImpl for Loc {
    open spec fn obeys_eq_spec() -> bool {
        true
    }

    open spec fn eq_spec(&self, other: &Loc) -> bool {
        self@ == other@
    }
}

impl Loc {
    /// A new empty localisation table over the given definition.
    pub fn new(definition: &Definition) -> (r: Self)
        ensures
            r@.definition == definition@,
            r@.entries == Seq::<Seq<DataV>>::empty(),
    {
        Loc { table: Table::new(definition) }
    }

    /// Wraps an already decoded table.
    pub fn from(table: Table) -> (r: Self)
        ensures
            r@ == table@,
    {
        Loc { table }
    }

    /// A copy of this table's definition.
    pub fn get_definition(&self) -> (r: Definition)
        ensures
            r@ == self@.definition,
    {
        self.table.get_definition()
    }

    /// This table's definition, borrowed.
    pub fn get_ref_definition(&self) -> (r: &Definition)
        ensures
            r@ == self@.definition,
    {
        self.table.get_ref_definition()
    }

    /// A copy of this table's rows.
    pub fn get_table_data(&self) -> (r: Vec<Vec<DecodedData>>)
        ensures
            r.deep_view() == self@.entries,
    {
        self.table.get_table_data()
    }

    /// This table's rows, borrowed.
    pub fn get_ref_table_data(&self) -> (r: &[Vec<DecodedData>])
        ensures
            r.deep_view() == self@.entries,
    {
        self.table.get_ref_table_data()
    }

    /// How many rows this table holds.
    pub fn get_entry_count(&self) -> (r: usize)
        ensures
            r == self@.entries.len(),
    {
        self.table.get_entry_count()
    }

    /// Replaces the definition, reshaping every row to match it in one
    /// atomic step.
    pub fn set_definition(&mut self, new_definition: &Definition)
        ensures
            final(self)@.definition == new_definition@,
            final(self)@.entries == crate::table::reshape_rows(
                old(self)@.entries,
                old(self)@.definition.fields,
                new_definition@.fields,
            ),
    {
        self.table.set_definition(new_definition);
    }

    /// Replaces the rows after validating every row's shape against the
    /// current definition; rejects the whole replacement on the first
    /// offending row, leaving the table untouched.
    pub fn set_table_data(&mut self, data: &[Vec<DecodedData>]) -> (r: Result<(), TableError>)
        requires
            data@.len() <= u32::MAX,
        ensures
            final(self)@.definition == old(self)@.definition,
            r is Ok <==> rows_wf(data.deep_view(), old(self)@.definition.types()),
            r is Ok ==> final(self)@.entries == data.deep_view(),
            r is Err ==> final(self)@ == old(self)@ && r == Err::<(), TableError>(
                TableError::ShapeMismatch {
                    row: crate::table::first_bad_row(
                        data.deep_view(),
                        old(self)@.definition.types(),
                    ) as usize,
                },
            ),
    {
        self.table.set_table_data(data)
    }

    /// Reads tab-separated text into a localisation table under the given
    /// definition; rejects a header that disagrees with the expected name
    /// and version, a wrong field count, or an unparsable field.
    pub fn import_tsv(
        definition: &Definition,
        text: &str,
        name: &str,
        version: i32,
    ) -> (r: Result<Self, TableError>)
        ensures
            match r {
                Ok(loc) => crate::tsv::spec_import(definition@, text@, name@, version) == Ok::<
                    TableV,
                    TableError,
                >(loc@),
                Err(e) => crate::tsv::spec_import(definition@, text@, name@, version) == Err::<
                    TableV,
                    TableError,
                >(e),
            },
    {
        match Table::import_tsv(definition, text, name, version) {
            Ok(table) => Ok(Loc::from(table)),
            Err(e) => Err(e),
        }
    }

    /// Writes this table as tab-separated text under the given name and
    /// version.
    pub fn export_tsv(&self, table_name: &str, table_version: i32) -> (r: Result<
        String,
        TableError,
    >)
        ensures
            r is Ok,
            r matches Ok(s) ==> s@ == crate::tsv::spec_export(
                self@.entries,
                table_name@,
                table_version,
            ),
    {
        self.table.export_tsv(table_name, table_version)
    }

    /// Decodes a byte buffer into a localisation table: checks the envelope,
    /// looks the version's definition up in the schema, decodes exactly the
    /// announced rows, and rejects a buffer whose length disagrees with the
    /// bytes consumed.
    pub fn read(packed_file_data: &[u8], schema: &Schema) -> (r: Result<Self, TableError>)
        ensures
            match r {
                Ok(loc) => spec_read(packed_file_data@, schema@) == Ok::<TableV, TableError>(
                    loc@,
                ),
                Err(e) => spec_read(packed_file_data@, schema@) == Err::<TableV, TableError>(e),
            },
    {
        let data = packed_file_data;
        if data.len() < 14 {
            return Err(TableError::NotALocFile);
        }
        let b0 = *slice_index_get(data, 0);
        let b1 = *slice_index_get(data, 1);
        let b2 = *slice_index_get(data, 2);
        let b3 = *slice_index_get(data, 3);
        let b4 = *slice_index_get(data, 4);
        if !(b0 == 0xFF && b1 == 0xFE && b2 == 0x4C && b3 == 0x4F && b4 == 0x43) {
            return Err(TableError::NotALocFile);
        }
        let mut idx: usize = 6;
        let version_bits = match decode_u32(data, &mut idx) {
            Ok(u) => u,
            Err(_) => {
                proof {
                    assert(false);
                }
                return Err(TableError::NotALocFile);
            },
        };
        let version = bits_to_i32(version_bits);
        let entry_count = match decode_u32(data, &mut idx) {
            Ok(u) => u,
            Err(_) => {
                proof {
                    assert(false);
                }
                return Err(TableError::NotALocFile);
            },
        };
        proof {
            assert(version == header_version(data@));
            assert(entry_count == header_count(data@));
        }
        let definition = match schema.get_definition(version) {
            Some(d) => d,
            None => {
                if entry_count == 0 {
                    return Err(TableError::EmptyTableWithNoDefinition);
                } else {
                    return Err(TableError::DefinitionNotFound);
                }
            },
        };
        let mut table = Table::new(definition);
        let mut index: usize = 14;
        match table.decode(data, entry_count, &mut index) {
            Ok(()) => {},
            Err(e) => {
                return Err(e);
            },
        }
        if index != data.len() {
            return Err(
                TableError::SizeMismatch { expected: data.len(), actual: index },
            );
        }
        Ok(Loc { table })
    }

    /// Encodes this table to bytes: the envelope, then every row in order.
    /// Always produces a buffer that `read` decodes back to this table.
    pub fn save(&self) -> (r: Result<Vec<u8>, TableError>)
        ensures
            r is Ok,
            r matches Ok(b) ==> b@ == spec_save(self@),
    {
        proof {
            use_type_invariant(&self.table);
        }
        let mut packed_file: Vec<u8> = Vec::new();
        packed_file.push(0xFF);
        packed_file.push(0xFE);
        packed_file.push(0x4C);
        packed_file.push(0x4F);
        packed_file.push(0x43);
        packed_file.push(0x00);
        let version = self.table.get_ref_definition().get_version();
        encode_u32(&mut packed_file, i32_to_bits(version));
        let count = self.table.get_entry_count();
        encode_u32(&mut packed_file, count as u32);
        proof {
            assert(packed_file@ =~= loc_header(
                self@.definition.version,
                self@.entries.len() as u32,
            ));
        }
        match self.table.encode(&mut packed_file) {
            Ok(()) => {},
            Err(e) => {
                proof {
                    assert(false);
                }
                return Err(e);
            },
        }
        proof {
            assert(packed_file@ =~= spec_save(self@));
        }
        Ok(packed_file)
    }

    /// Shrinks the table by dropping every row that also occurs, value for
    /// value, in a reference table of the same version; rows with no
    /// version-matching reference, or not found there, are kept. Returns
    /// whether the table ended up empty, so the caller can drop the file.
    pub fn optimize_table(&mut self, vanilla_tables: &[&Loc]) -> (r: bool)
        ensures
            final(self)@.definition == old(self)@.definition,
            final(self)@.entries == keep_rows(
                old(self)@.entries,
                vanilla_tables.deep_view(),
                old(self)@.definition.version,
            ),
            r == (final(self)@.entries.len() == 0),
    {
        proof {
            use_type_invariant(&self.table);
        }
        let ghost refs = vanilla_tables.deep_view();
        let ghost rows0 = self@.entries;
        let ghost types = self@.definition.types();
        let version = self.table.get_ref_definition().get_version();
        let mut kept: Vec<Vec<DecodedData>> = Vec::new();
        {
            let data = self.table.get_ref_table_data();
            let n = data.len();
            let mut k: usize = 0;
            proof {
                assert(data.deep_view().len() == data@.len());
                assert(rows0.skip(0) =~= rows0);
                assert(kept.deep_view() =~= Seq::<Seq<DataV>>::empty());
                assert(Seq::<Seq<DataV>>::empty() + keep_rows(rows0, refs, version) =~= keep_rows(
                    rows0,
                    refs,
                    version,
                ));
            }
            while k < n
                invariant
                    k <= n,
                    n == data@.len(),
                    data.deep_view() == rows0,
                    rows0.len() == n,
                    refs == vanilla_tables.deep_view(),
                    kept@.len() <= k,
                    kept.deep_view() + keep_rows(rows0.skip(k as int), refs, version)
                        == keep_rows(rows0, refs, version),
                decreases n - k,
            {
                let ghost kept0 = kept.deep_view();
                proof {
                    assert(rows0.skip(k as int)[0] == rows0[k as int]);
                    assert(rows0.skip(k as int).drop_first() =~= rows0.skip(k + 1));
                    assert(data.deep_view()[k as int] == data@[k as int].deep_view());
                }
                let row = slice_index_get(data, k);
                if !row_in_vanilla(row, vanilla_tables, version) {
                    kept.push(clone_row(row));
                    proof {
                        assert(kept.deep_view() =~= kept0.push(rows0[k as int]));
                        assert(kept0.push(rows0[k as int]) + keep_rows(
                            rows0.skip(k + 1),
                            refs,
                            version,
                        ) =~= kept0 + (seq![rows0[k as int]] + keep_rows(
                            rows0.skip(k + 1),
                            refs,
                            version,
                        )));
                    }
                }
                k += 1;
            }
            proof {
                assert(rows0.skip(n as int) =~= Seq::<Seq<DataV>>::empty());
                assert(kept.deep_view() + Seq::<Seq<DataV>>::empty() =~= kept.deep_view());
            }
        }
        proof {
            assert(kept.deep_view() == keep_rows(rows0, refs, version));
            lemma_keep_rows_wf(rows0, refs, version, types);
            assert(kept.deep_view().len() == kept@.len());
        }
        match self.table.set_table_data(kept.as_slice()) {
            Ok(()) => {},
            Err(_) => {
                proof {
                    assert(false);
                }
            },
        }
        self.table.get_entry_count() == 0
    }
}

/// Whether the row occurs in a version-matching reference table.
fn row_in_vanilla(row: &Vec<DecodedData>, tables: &[&Loc], version: i32) -> (r: bool)
    ensures
        r == row_in_tables(row.deep_view(), tables.deep_view(), version),
{
    let ghost refs = tables.deep_view();
    let nt = tables.len();
    let mut k: usize = 0;
    proof {
        assert(refs.len() == tables@.len());
    }
    while k < nt
        invariant
            k <= nt,
            nt == tables@.len(),
            refs == tables.deep_view(),
            refs.len() == nt,
            forall|k2: int, r2: int|
                0 <= k2 < k && refs[k2].definition.version == version && 0 <= r2
                    < refs[k2].entries.len() ==> refs[k2].entries[r2] != row.deep_view(),
        decreases nt - k,
    {
        proof {
            assert(refs[k as int] == tables@[k as int].deep_view());
        }
        let vt = *slice_index_get(tables, k);
        if vt.get_ref_definition().get_version() == version {
            let entries = vt.get_ref_table_data();
            let ne = entries.len();
            let mut r: usize = 0;
            proof {
                assert(entries.deep_view().len() == entries@.len());
            }
            while r < ne
                invariant
                    r <= ne,
                    ne == entries@.len(),
                    refs == tables.deep_view(),
                    entries.deep_view() == refs[k as int].entries,
                    refs[k as int].definition.version == version,
                    k < nt,
                    refs.len() == nt,
                    forall|r2: int| 0 <= r2 < r ==> refs[k as int].entries[r2] != row.deep_view(),
                decreases ne - r,
            {
                proof {
                    assert(entries.deep_view()[r as int] == entries@[r as int].deep_view());
                }
                if rows_equal(slice_index_get(entries, r), row) {
                    proof {
                        assert(refs[k as int].definition.version == version && (r as int)
                            < refs[k as int].entries.len() && refs[k as int].entries[r as int]
                            == row.deep_view());
                        assert(row_in_tables(row.deep_view(), refs, version));
                    }
                    return true;
                }
                r += 1;
            }
        }
        k += 1;
    }
    proof {
        assert(!row_in_tables(row.deep_view(), refs, version));
    }
    false
}

/// The surviving rows are all well-formed, and no more numerous than the
/// originals.
pub proof fn lemma_keep_rows_wf(
    rows: Seq<Seq<DataV>>,
    refs: Seq<TableV>,
    version: i32,
    types: Seq<crate::schema::FieldType>,
)
    requires
        rows_wf(rows, types),
    ensures
        rows_wf(keep_rows(rows, refs, version), types),
        keep_rows(rows, refs, version).len() <= rows.len(),
    decreases rows.len(),
{
    if rows.len() > 0 {
        assert forall|q: int| 0 <= q < rows.drop_first().len() implies row_wf(
            #[trigger] rows.drop_first()[q],
            types,
        ) by {
            assert(rows.drop_first()[q] == rows[q + 1]);
        }
        lemma_keep_rows_wf(rows.drop_first(), refs, version, types);
        let out = keep_rows(rows, refs, version);
        let rest = keep_rows(rows.drop_first(), refs, version);
        if !row_in_tables(rows[0], refs, version) {
            assert forall|q: int| 0 <= q < out.len() implies row_wf(#[trigger] out[q], types) by {
                if q > 0 {
                    assert(out[q] == rest[q - 1]);
                } else {
                    assert(out[0] == rows[0]);
                }
            }
        }
    }
}

/// No surviving row occurs in a version-matching reference table.
pub proof fn lemma_keep_rows_not_in(rows: Seq<Seq<DataV>>, refs: Seq<TableV>, version: i32)
    ensures
        forall|q: int|
            0 <= q < keep_rows(rows, refs, version).len() ==> !row_in_tables(
                #[trigger] keep_rows(rows, refs, version)[q],
                refs,
                version,
            ),
    decreases rows.len(),
{
    if rows.len() > 0 {
        lemma_keep_rows_not_in(rows.drop_first(), refs, version);
        let out = keep_rows(rows, refs, version);
        let rest = keep_rows(rows.drop_first(), refs, version);
        if !row_in_tables(rows[0], refs, version) {
            assert forall|q: int| 0 <= q < out.len() implies !row_in_tables(
                #[trigger] out[q],
                refs,
                version,
            ) by {
                if q > 0 {
                    assert(out[q] == rest[q - 1]);
                } else {
                    assert(out[0] == rows[0]);
                }
            }
        }
    }
}

/// Rows that all survive are kept verbatim.
pub proof fn lemma_keep_rows_fixed(rows: Seq<Seq<DataV>>, refs: Seq<TableV>, version: i32)
    requires
        forall|q: int| 0 <= q < rows.len() ==> !row_in_tables(#[trigger] rows[q], refs, version),
    ensures
        keep_rows(rows, refs, version) == rows,
    decreases rows.len(),
{
    if rows.len() == 0 {
        assert(keep_rows(rows, refs, version) =~= rows);
    } else {
        assert forall|q: int| 0 <= q < rows.drop_first().len() implies !row_in_tables(
            #[trigger] rows.drop_first()[q],
            refs,
            version,
        ) by {
            assert(rows.drop_first()[q] == rows[q + 1]);
        }
        lemma_keep_rows_fixed(rows.drop_first(), refs, version);
        assert(rows[0] == rows[0]);
        assert(seq![rows[0]] + rows.drop_first() =~= rows);
    }
}

/// Running the size-reduction pass twice with the same reference tables
/// leaves exactly the result of running it once.
pub proof fn lemma_optimize_idempotent(rows: Seq<Seq<DataV>>, refs: Seq<TableV>, version: i32)
    ensures
        keep_rows(keep_rows(rows, refs, version), refs, version) == keep_rows(
            rows,
            refs,
            version,
        ),
{
    lemma_keep_rows_not_in(rows, refs, version);
    lemma_keep_rows_fixed(keep_rows(rows, refs, version), refs, version);
}

/// Decoding what `save` wrote yields the table back: same version, same
/// rows, same order. Holds for any table whose definition the schema vends
/// for its version.
pub proof fn lemma_read_save_round_trip(t: TableV, schema: Seq<DefV>)
    requires
        table_wf(t),
        spec_lookup(schema, t.definition.version) == Some(t.definition),
    ensures
        spec_read(spec_save(t), schema) == Ok::<TableV, TableError>(t),
{
    vstd::bytes::lemma_auto_spec_u32_to_from_le_bytes();
    lemma_bits_round_trip();
    let b = spec_save(t);
    let six = seq![0xFFu8, 0xFEu8, 0x4Cu8, 0x4Fu8, 0x43u8, 0x00u8];
    let lev = spec_u32_to_le_bytes(u32_bits_of_i32(t.definition.version));
    let lec = spec_u32_to_le_bytes(t.entries.len() as u32);
    let hdr = loc_header(t.definition.version, t.entries.len() as u32);
    let e = enc_rows(t.entries);
    assert(hdr == six + lev + lec);
    assert(hdr.len() == 14);
    assert(b == hdr + e);
    assert(b.len() == 14 + e.len());
    assert(b[0] == 0xFF && b[1] == 0xFE && b[2] == 0x4C && b[3] == 0x4F && b[4] == 0x43);
    assert(header_ok(b));
    assert(b.subrange(6, 10) =~= lev);
    assert(header_version(b) == t.definition.version);
    assert(b.subrange(10, 14) =~= lec);
    assert(header_count(b) == t.entries.len() as u32);
    assert(b.subrange(14, 14 + e.len() as int) =~= e);
    lemma_parse_rows_of_enc(b, t.entries, t.definition.types(), 14);
    assert(header_count(b) as int == t.entries.len() as int);
    assert(parse_rows(b, t.definition.types(), t.entries.len() as int, 14) == Ok::<
        (Seq<Seq<DataV>>, int),
        TableError,
    >((t.entries, b.len() as int)));
    assert(TableV { definition: t.definition, entries: t.entries } == t);
}

/// One byte appended after a valid buffer is always rejected as a size
/// mismatch: the decoder consumes the original length exactly.
pub proof fn lemma_read_extra_byte(t: TableV, schema: Seq<DefV>, x: u8)
    requires
        table_wf(t),
        spec_lookup(schema, t.definition.version) == Some(t.definition),
    ensures
        spec_read(spec_save(t).push(x), schema) == Err::<TableV, TableError>(
            TableError::SizeMismatch {
                expected: (spec_save(t).len() + 1) as usize,
                actual: spec_save(t).len() as usize,
            },
        ),
{
    vstd::bytes::lemma_auto_spec_u32_to_from_le_bytes();
    lemma_bits_round_trip();
    let b = spec_save(t);
    let b2 = b.push(x);
    let six = seq![0xFFu8, 0xFEu8, 0x4Cu8, 0x4Fu8, 0x43u8, 0x00u8];
    let lev = spec_u32_to_le_bytes(u32_bits_of_i32(t.definition.version));
    let lec = spec_u32_to_le_bytes(t.entries.len() as u32);
    let hdr = loc_header(t.definition.version, t.entries.len() as u32);
    let e = enc_rows(t.entries);
    assert(hdr == six + lev + lec);
    assert(hdr.len() == 14);
    assert(b == hdr + e);
    assert(b2.len() == b.len() + 1);
    assert(forall|q: int| 0 <= q < b.len() ==> b2[q] == b[q]);
    assert(header_ok(b2));
    assert(b2.subrange(6, 10) =~= lev);
    assert(header_version(b2) == t.definition.version);
    assert(b2.subrange(10, 14) =~= lec);
    assert(header_count(b2) == t.entries.len() as u32);
    assert(b2.subrange(14, 14 + e.len() as int) =~= e);
    lemma_parse_rows_of_enc(b2, t.entries, t.definition.types(), 14);
    assert(parse_rows(b2, t.definition.types(), t.entries.len() as int, 14) == Ok::<
        (Seq<Seq<DataV>>, int),
        TableError,
    >((t.entries, b.len() as int)));
    assert(b.len() as int != b2.len() as int);
}

/// A buffer shorter than the envelope, or whose marker or tag do not match,
/// is always rejected as not a Loc file, whatever the rest holds.
pub proof fn lemma_header_rejection(bytes: Seq<u8>, schema: Seq<DefV>)
    requires
        bytes.len() < 14 || bytes[0] != 0xFF || bytes[1] != 0xFE || bytes[2] != 0x4C || bytes[3]
            != 0x4F || bytes[4] != 0x43,
    ensures
        spec_read(bytes, schema) == Err::<TableV, TableError>(TableError::NotALocFile),
{
}


/// One byte removed from the end of a valid buffer with a non-empty row
/// section is always rejected: the read that produced the final cursor now
/// runs past the end. (When the row section is empty the shortened buffer
/// loses a header byte and is rejected as not a Loc file instead.)
pub proof fn lemma_read_missing_byte(t: TableV, schema: Seq<DefV>)
    requires
        table_wf(t),
        spec_lookup(schema, t.definition.version) == Some(t.definition),
        enc_rows(t.entries).len() > 0,
    ensures
        spec_read(spec_save(t).take(spec_save(t).len() - 1), schema) == Err::<
            TableV,
            TableError,
        >(TableError::OutOfBounds),
{
    vstd::bytes::lemma_auto_spec_u32_to_from_le_bytes();
    lemma_bits_round_trip();
    let b = spec_save(t);
    let six = seq![0xFFu8, 0xFEu8, 0x4Cu8, 0x4Fu8, 0x43u8, 0x00u8];
    let lev = spec_u32_to_le_bytes(u32_bits_of_i32(t.definition.version));
    let lec = spec_u32_to_le_bytes(t.entries.len() as u32);
    let hdr = loc_header(t.definition.version, t.entries.len() as u32);
    let e = enc_rows(t.entries);
    assert(hdr == six + lev + lec);
    assert(hdr.len() == 14);
    assert(b == hdr + e);
    assert(b.len() == 14 + e.len());
    let m = b.len() - 1;
    let b2 = b.take(m);
    assert(b2.len() == m >= 14);
    assert(forall|q: int| 0 <= q < m ==> b2[q] == b[q]);
    assert(header_ok(b2));
    assert(b2.subrange(6, 10) =~= b.subrange(6, 10));
    assert(b.subrange(6, 10) =~= lev);
    assert(header_version(b2) == t.definition.version);
    assert(b2.subrange(10, 14) =~= b.subrange(10, 14));
    assert(b.subrange(10, 14) =~= lec);
    assert(header_count(b2) == t.entries.len() as u32);
    assert(b.subrange(14, 14 + e.len() as int) =~= e);
    lemma_parse_rows_of_enc(b, t.entries, t.definition.types(), 14);
    crate::table::lemma_parse_rows_take(b, m, t.definition.types(), t.entries.len() as int, 14);
    assert(parse_rows(b2, t.definition.types(), t.entries.len() as int, 14) == Err::<
        (Seq<Seq<DataV>>, int),
        TableError,
    >(TableError::OutOfBounds));
}

} // verus!
