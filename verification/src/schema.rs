//! The schema model: typed fields, versioned definitions, and the store that
//! vends one definition per version.
//!
//! A `Definition` freezes the shape of a table for exactly one version: an
//! ordered list of typed fields. The codec never invents definitions; it
//! looks them up in a `Schema` by version number.

use vstd::prelude::*;

verus! {

/// The semantic type of one column. The codec dispatches on this closed set;
/// adding a variant requires extending both codec directions together.
///
/// `Float` columns carry the IEEE-754 bit pattern of a 32-bit float as a
/// plain `u32`; the codec moves the bits and never does float arithmetic.
#[derive(Clone, Copy, Debug, PartialEq, Eq, Structural)]
pub enum FieldType {
    Boolean,
    Float,
    Integer,
    LongInteger,
    StringU8,
    StringU16,
    OptionalStringU8,
    OptionalStringU16,
}

/// The mathematical value of a `Field`: every string replaced by its
/// character sequence.
pub ghost struct FieldV {
    pub name: Seq<char>,
    pub field_type: FieldType,
    pub default_value: Option<Seq<char>>,
    pub description: Seq<char>,
    pub is_reference: Option<(Seq<char>, Seq<char>)>,
}

/// One column's contract: a unique name, a semantic type, an optional default
/// value, display metadata, and optional cross-reference metadata pointing at
/// another table and column (used only by UI lookups; the codec never
/// resolves it).
#[derive(Debug)]
pub struct Field {
    name: String,
    field_type: FieldType,
    default_value: Option<String>,
    description: String,
    is_reference: Option<(String, String)>,
}

impl View for Field {
    type V = FieldV;

    closed spec fn view(&self) -> FieldV {
        FieldV {
            name: self.name@,
            field_type: self.field_type,
            default_value: match self.default_value {
                Some(s) => Some(s@),
                None => None,
            },
            description: self.description@,
            is_reference: match self.is_reference {
                Some((t, c)) => Some((t@, c@)),
                None => None,
            },
        }
    }
}

impl DeepView for Field {
    type V = FieldV;

    open spec fn deep_view(&self) -> FieldV {
        self.view()
    }
}

impl Field {
    /// Builds a field from its parts.
    pub fn new(
        name: String,
        field_type: FieldType,
        default_value: Option<String>,
        description: String,
        is_reference: Option<(String, String)>,
    ) -> (r: Field)
        ensures
            r@ == (FieldV {
                name: name@,
                field_type,
                default_value: match default_value {
                    Some(s) => Some(s@),
                    None => None,
                },
                description: description@,
                is_reference: match is_reference {
                    Some((t, c)) => Some((t@, c@)),
                    None => None,
                },
            }),
    {
        Field { name, field_type, default_value, description, is_reference }
    }

    /// The column's name.
    pub fn get_name(&self) -> (r: &String)
        ensures
            r@ == self@.name,
    {
        &self.name
    }

    /// The column's semantic type.
    pub fn get_field_type(&self) -> (r: FieldType)
        ensures
            r == self@.field_type,
    {
        self.field_type
    }

    /// The column's default value, if one was declared.
    pub fn get_default_value(&self) -> (r: &Option<String>)
        ensures
            match r {
                Some(s) => self@.default_value == Some(s@),
                None => self@.default_value is None,
            },
    {
        &self.default_value
    }
}

/// The mathematical value of a `Definition`.
pub ghost struct DefV {
    pub version: i32,
    pub fields: Seq<FieldV>,
}

impl DefV {
    /// The column types, in order: all the binary codec needs of a schema.
    pub open spec fn types(self) -> Seq<FieldType> {
        self.fields.map_values(|f: FieldV| f.field_type)
    }
}

/// An ordered list of fields plus the version it describes. A value type,
/// freely copied; never mutated once published.
#[derive(Debug)]
pub struct Definition {
    version: i32,
    fields: Vec<Field>,
}

impl View for Definition {
    type V = DefV;

    closed spec fn view(&self) -> DefV {
        DefV { version: self.version, fields: self.fields.deep_view() }
    }
}

impl DeepView for Definition {
    type V = DefV;

    open spec fn deep_view(&self) -> DefV {
        self.view()
    }
}

impl Definition {
    /// A definition with the given version and no fields yet.
    pub fn new(version: i32) -> (r: Definition)
        ensures
            r@.version == version,
            r@.fields == Seq::<FieldV>::empty(),
    {
        Definition { version, fields: Vec::new() }
    }

    /// Appends one field to the definition.
    pub fn push_field(&mut self, field: Field)
        ensures
            final(self)@.version == old(self)@.version,
            final(self)@.fields == old(self)@.fields.push(field@),
    {
        self.fields.push(field);
    }

    /// The version this definition describes.
    pub fn get_version(&self) -> (r: i32)
        ensures
            r == self@.version,
    {
        self.version
    }

    /// The fields, in column order.
    pub fn get_ref_fields(&self) -> (r: &Vec<Field>)
        ensures
            r.deep_view() == self@.fields,
    {
        &self.fields
    }

    /// How many columns the definition has.
    pub fn get_field_count(&self) -> (r: usize)
        ensures
            r == self@.fields.len(),
    {
        self.fields.len()
    }
}


impl Clone for Field {
    /// A field-for-field copy with the same view.
    fn clone(&self) -> (r: Self)
        ensures
            r@ == self@,
    {
        Field {
            name: self.name.clone(),
            field_type: self.field_type,
            default_value: match &self.default_value {
                Some(s) => Some(s.clone()),
                None => None,
            },
            description: self.description.clone(),
            is_reference: match &self.is_reference {
                Some(p) => Some((p.0.clone(), p.1.clone())),
                None => None,
            },
        }
    }
}

impl PartialEq for Field {
    fn eq(&self, other: &Field) -> bool {
        let names = self.name == other.name;
        let types = self.field_type == other.field_type;
        let defaults = match &self.default_value {
            Some(a) => match &other.default_value {
                Some(b) => *a == *b,
                None => false,
            },
            None => match &other.default_value {
                Some(_) => false,
                None => true,
            },
        };
        let descriptions = self.description == other.description;
        let references = match &self.is_reference {
            Some(a) => match &other.is_reference {
                Some(b) => a.0 == b.0 && a.1 == b.1,
                None => false,
            },
            None => match &other.is_reference {
                Some(_) => false,
                None => true,
            },
        };
        names && types && defaults && descriptions && references
    }
}

impl vstd::std_specs::cmp::PartialEqSpecImpl for Field {
    open spec fn obeys_eq_spec() -> bool {
        true
    }

    open spec fn eq_spec(&self, other: &Field) -> bool {
        self@ == other@
    }
}

/// Compares two field lists column by column.
pub fn fields_equal(a: &Vec<Field>, b: &Vec<Field>) -> (r: bool)
    ensures
        r == (a.deep_view() == b.deep_view()),
{
    if a.len() != b.len() {
        proof {
            assert(a.deep_view().len() == a@.len());
            assert(b.deep_view().len() == b@.len());
        }
        return false;
    }
    let n = a.len();
    let mut i: usize = 0;
    while i < n
        invariant
            i <= n,
            n == a@.len() && n == b@.len(),
            forall|k: int| 0 <= k < i ==> a.deep_view()[k] == b.deep_view()[k],
        decreases n - i,
    {
        if !(a[i] == b[i]) {
            proof {
                assert(a.deep_view()[i as int] == a@[i as int]@);
                assert(b.deep_view()[i as int] == b@[i as int]@);
            }
            return false;
        }
        proof {
            assert(a.deep_view()[i as int] == a@[i as int]@);
            assert(b.deep_view()[i as int] == b@[i as int]@);
        }
        i += 1;
    }
    proof {
        assert(a.deep_view() =~= b.deep_view());
    }
    true
}

impl Clone for Definition {
    /// A copy with the same version and the same fields.
    fn clone(&self) -> (r: Self)
        ensures
            r@ == self@,
    {
        let n = self.fields.len();
        let mut fields: Vec<Field> = Vec::new();
        let mut i: usize = 0;
        while i < n
            invariant
                i <= n,
                n == self.fields@.len(),
                fields@.len() == i,
                forall|k: int| 0 <= k < i ==> #[trigger] fields@[k]@ == self.fields@[k]@,
            decreases n - i,
        {
            fields.push(self.fields[i].clone());
            i += 1;
        }
        proof {
            assert forall|k: int| 0 <= k < n implies fields.deep_view()[k]
                == self.fields.deep_view()[k] by {
                assert(fields@[k]@ == self.fields@[k]@);
            }
            assert(fields.deep_view() =~= self.fields.deep_view());
        }
        Definition { version: self.version, fields }
    }
}

impl PartialEq for Definition {
    fn eq(&self, other: &Definition) -> bool {
        self.version == other.version && fields_equal(&self.fields, &other.fields)
    }
}

impl vstd::std_specs::cmp::PartialEqSpecImpl for Definition {
    open spec fn obeys_eq_spec() -> bool {
        true
    }

    open spec fn eq_spec(&self, other: &Definition) -> bool {
        self@ == other@
    }
}

/// The first definition in `defs` whose version is `version`, if any.
pub open spec fn spec_lookup(defs: Seq<DefV>, version: i32) -> Option<DefV>
    decreases defs.len(),
{
    if defs.len() == 0 {
        None
    } else if defs[0].version == version {
        Some(defs[0])
    } else {
        spec_lookup(defs.drop_first(), version)
    }
}

/// The store that maps a version number to the definition describing it.
/// Populated once, then only read; the codec never mutates it.
#[derive(Debug)]
pub struct Schema {
    definitions: Vec<Definition>,
}

impl View for Schema {
    type V = Seq<DefV>;

    closed spec fn view(&self) -> Seq<DefV> {
        self.definitions.deep_view()
    }
}

impl Schema {
    /// An empty store.
    pub fn new() -> (r: Schema)
        ensures
            r@ == Seq::<DefV>::empty(),
    {
        Schema { definitions: Vec::new() }
    }

    /// Registers one definition. The store's owner is expected to register
    /// at most one definition per version; lookups take the first match.
    pub fn add_definition(&mut self, definition: Definition)
        ensures
            final(self)@ == old(self)@.push(definition@),
    {
        self.definitions.push(definition);
    }

    /// Looks up the definition for `version`, or `None` when the store holds
    /// none for it.
    pub fn get_definition(&self, version: i32) -> (r: Option<&Definition>)
        ensures
            match r {
                Some(d) => spec_lookup(self@, version) == Some(d@),
                None => spec_lookup(self@, version) is None,
            },
    {
        let n = self.definitions.len();
        let mut i: usize = 0;
        assert(self@.skip(0) =~= self@);
        while i < n
            invariant
                i <= n,
                n == self.definitions.len(),
                spec_lookup(self@, version) == spec_lookup(self@.skip(i as int), version),
            decreases n - i,
        {
            assert(self@.skip(i as int)[0] == self@[i as int]);
            if self.definitions[i].version == version {
                return Some(&self.definitions[i]);
            }
            assert(self@.skip(i as int).drop_first() =~= self@.skip(i + 1));
            i += 1;
        }
        assert(self@.skip(n as int) =~= Seq::<DefV>::empty());
        None
    }
}

} // verus!
