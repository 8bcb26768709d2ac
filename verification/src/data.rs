//! The cell values of a decoded table.
//!
//! A `DecodedData` holds exactly one concrete value matching a field's
//! semantic type; a row is an ordered sequence of them whose length and
//! per-position types must equal the owning definition's field list.

use vstd::prelude::*;
use crate::schema::FieldType;

verus! {

/// The mathematical value of a `DecodedData`: every string replaced by its
/// character sequence.
pub enum DataV {
    Boolean(bool),
    Float(u32),
    Integer(i32),
    LongInteger(i64),
    StringU8(Seq<char>),
    StringU16(Seq<char>),
    OptionalStringU8(Seq<char>),
    OptionalStringU16(Seq<char>),
}

/// One cell of a decoded table. `Float` carries the IEEE-754 bit pattern of
/// a 32-bit float; the codec moves the bits and never interprets them.
#[derive(Debug)]
pub enum DecodedData {
    Boolean(bool),
    Float(u32),
    Integer(i32),
    LongInteger(i64),
    StringU8(String),
    StringU16(String),
    /// Encoded as a presence byte followed by the string when non-empty; an
    /// absent string and an empty one are the same value.
    OptionalStringU8(String),
    OptionalStringU16(String),
}

impl View for DecodedData {
    type V = DataV;

    open spec fn view(&self) -> DataV {
        match self {
            DecodedData::Boolean(b) => DataV::Boolean(*b),
            DecodedData::Float(x) => DataV::Float(*x),
            DecodedData::Integer(x) => DataV::Integer(*x),
            DecodedData::LongInteger(x) => DataV::LongInteger(*x),
            DecodedData::StringU8(s) => DataV::StringU8(s@),
            DecodedData::StringU16(s) => DataV::StringU16(s@),
            DecodedData::OptionalStringU8(s) => DataV::OptionalStringU8(s@),
            DecodedData::OptionalStringU16(s) => DataV::OptionalStringU16(s@),
        }
    }
}

impl DeepView for DecodedData {
    type V = DataV;

    open spec fn deep_view(&self) -> DataV {
        self.view()
    }
}

/// True when the value is of the column's semantic type.
pub open spec fn data_matches(v: DataV, t: FieldType) -> bool {
    match v {
        DataV::Boolean(_) => t == FieldType::Boolean,
        DataV::Float(_) => t == FieldType::Float,
        DataV::Integer(_) => t == FieldType::Integer,
        DataV::LongInteger(_) => t == FieldType::LongInteger,
        DataV::StringU8(_) => t == FieldType::StringU8,
        DataV::StringU16(_) => t == FieldType::StringU16,
        DataV::OptionalStringU8(_) => t == FieldType::OptionalStringU8,
        DataV::OptionalStringU16(_) => t == FieldType::OptionalStringU16,
    }
}

impl DecodedData {
    /// The semantic type this value belongs to.
    pub fn get_field_type(&self) -> (t: FieldType)
        ensures
            data_matches(self@, t),
    {
        match self {
            DecodedData::Boolean(_) => FieldType::Boolean,
            DecodedData::Float(_) => FieldType::Float,
            DecodedData::Integer(_) => FieldType::Integer,
            DecodedData::LongInteger(_) => FieldType::LongInteger,
            DecodedData::StringU8(_) => FieldType::StringU8,
            DecodedData::StringU16(_) => FieldType::StringU16,
            DecodedData::OptionalStringU8(_) => FieldType::OptionalStringU8,
            DecodedData::OptionalStringU16(_) => FieldType::OptionalStringU16,
        }
    }

    /// Whether the value is of the column's semantic type.
    pub fn matches_type(&self, t: FieldType) -> (r: bool)
        ensures
            r == data_matches(self@, t),
    {
        self.get_field_type() == t
    }
}

impl Clone for DecodedData {
    /// A copy with the same view.
    fn clone(&self) -> (r: Self)
        ensures
            r@ == self@,
    {
        match self {
            DecodedData::Boolean(b) => DecodedData::Boolean(*b),
            DecodedData::Float(x) => DecodedData::Float(*x),
            DecodedData::Integer(x) => DecodedData::Integer(*x),
            DecodedData::LongInteger(x) => DecodedData::LongInteger(*x),
            DecodedData::StringU8(s) => DecodedData::StringU8(s.clone()),
            DecodedData::StringU16(s) => DecodedData::StringU16(s.clone()),
            DecodedData::OptionalStringU8(s) => DecodedData::OptionalStringU8(s.clone()),
            DecodedData::OptionalStringU16(s) => DecodedData::OptionalStringU16(s.clone()),
        }
    }
}

impl PartialEq for DecodedData {
    fn eq(&self, other: &DecodedData) -> bool {
        match self {
            DecodedData::Boolean(a) => match other {
                DecodedData::Boolean(b) => *a == *b,
                _ => false,
            },
            DecodedData::Float(a) => match other {
                DecodedData::Float(b) => *a == *b,
                _ => false,
            },
            DecodedData::Integer(a) => match other {
                DecodedData::Integer(b) => *a == *b,
                _ => false,
            },
            DecodedData::LongInteger(a) => match other {
                DecodedData::LongInteger(b) => *a == *b,
                _ => false,
            },
            DecodedData::StringU8(a) => match other {
                DecodedData::StringU8(b) => *a == *b,
                _ => false,
            },
            DecodedData::StringU16(a) => match other {
                DecodedData::StringU16(b) => *a == *b,
                _ => false,
            },
            DecodedData::OptionalStringU8(a) => match other {
                DecodedData::OptionalStringU8(b) => *a == *b,
                _ => false,
            },
            DecodedData::OptionalStringU16(a) => match other {
                DecodedData::OptionalStringU16(b) => *a == *b,
                _ => false,
            },
        }
    }
}

impl Eq for DecodedData {

}

impl vstd::std_specs::cmp::PartialEqSpecImpl for DecodedData {
    open spec fn obeys_eq_spec() -> bool {
        true
    }

    open spec fn eq_spec(&self, other: &DecodedData) -> bool {
        self@ == other@
    }
}

/// True when the row's length and per-position value types equal the column
/// types.
pub open spec fn row_matches(row: Seq<DataV>, types: Seq<FieldType>) -> bool {
    &&& row.len() == types.len()
    &&& forall|i: int| 0 <= i < row.len() ==> data_matches(#[trigger] row[i], types[i])
}

/// A cell-for-cell copy of a row with the same view.
pub fn clone_row(row: &Vec<DecodedData>) -> (r: Vec<DecodedData>)
    ensures
        r.deep_view() == row.deep_view(),
{
    let n = row.len();
    let mut out: Vec<DecodedData> = Vec::new();
    let mut i: usize = 0;
    while i < n
        invariant
            i <= n,
            n == row@.len(),
            out@.len() == i,
            forall|k: int| 0 <= k < i ==> #[trigger] out@[k]@ == row@[k]@,
        decreases n - i,
    {
        out.push(row[i].clone());
        i += 1;
    }
    proof {
        assert forall|k: int| 0 <= k < n implies out.deep_view()[k] == row.deep_view()[k] by {
            assert(out@[k]@ == row@[k]@);
        }
        assert(out.deep_view() =~= row.deep_view());
    }
    out
}

/// Compares two rows cell by cell.
pub fn rows_equal(a: &Vec<DecodedData>, b: &Vec<DecodedData>) -> (r: bool)
    ensures
        r == (a.deep_view() == b.deep_view()),
{
    if a.len() != b.len() {
        proof {
            assert(a.deep_view().len() == a@.len());
            assert(b.deep_view().len() == b@.len());
        }
        return false;
    }
    let n = a.len();
    let mut i: usize = 0;
    while i < n
        invariant
            i <= n,
            n == a@.len() && n == b@.len(),
            forall|k: int| 0 <= k < i ==> a.deep_view()[k] == b.deep_view()[k],
        decreases n - i,
    {
        if !(a[i] == b[i]) {
            proof {
                assert(a.deep_view()[i as int] == a@[i as int]@);
                assert(b.deep_view()[i as int] == b@[i as int]@);
            }
            return false;
        }
        proof {
            assert(a.deep_view()[i as int] == a@[i as int]@);
            assert(b.deep_view()[i as int] == b@[i as int]@);
        }
        i += 1;
    }
    proof {
        assert(a.deep_view() =~= b.deep_view());
    }
    true
}

} // verus!
