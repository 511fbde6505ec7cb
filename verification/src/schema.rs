//! Logical schema of a record batch: an ordered list of named, typed
//! columns, plus free-form metadata. Two schemas are logically equal when
//! their fields agree; the metadata is volatile and never takes part in
//! the comparison.

use vstd::prelude::*;

verus! {

/// Logical type of one column.
#[derive(Clone, Copy, Debug, PartialEq, Eq, Structural)]
pub enum ColumnType {
    Boolean,
    Int32,
    Int64,
    UInt32,
    UInt64,
    Utf8,
}

/// One named column of a schema.
#[derive(Clone, Debug, PartialEq)]
pub struct Field {
    pub name: String,
    pub column_type: ColumnType,
    pub nullable: bool,
}

/// Mathematical value of a `Field`: the name as a character sequence.
pub ghost struct FieldModel {
    pub name: Seq<char>,
    pub column_type: ColumnType,
    pub nullable: bool,
}

impl View for Field {
    type V = FieldModel;

    open spec fn view(&self) -> FieldModel {
        FieldModel { name: self.name@, column_type: self.column_type, nullable: self.nullable }
    }
}

/// Schema of a record batch. The view of a `Schema` is its logical part
/// alone — the field sequence — so view equality is exactly the
/// metadata-stripped comparison the shuffler validates against.
#[derive(Clone, Debug, PartialEq)]
pub struct Schema {
    pub fields: Vec<Field>,
    pub metadata: Vec<(String, String)>,
}

impl View for Schema {
    type V = Seq<FieldModel>;

    open spec fn view(&self) -> Seq<FieldModel> {
        self.fields@.map_values(|f: Field| f@)
    }
}

impl Field {
    pub fn new(name: String, column_type: ColumnType, nullable: bool) -> (r: Field)
        ensures
            r@ == (FieldModel { name: name@, column_type, nullable }),
    {
        Field { name, column_type, nullable }
    }

    /// Whether two fields carry the same name, type and nullability.
    pub fn matches(&self, other: &Field) -> (r: bool)
        ensures
            r == (self@ == other@),
    {
        let r = self.name == other.name && self.column_type == other.column_type
            && self.nullable == other.nullable;
        proof {
            if r {
                assert(self@ == other@);
            }
        }
        r
    }
}

impl Schema {
    pub fn new(fields: Vec<Field>, metadata: Vec<(String, String)>) -> (r: Schema)
        ensures
            r@ == fields@.map_values(|f: Field| f@),
    {
        Schema { fields, metadata }
    }

    /// Logical equality: same fields in the same order; metadata is ignored.
    pub fn logical_eq(&self, other: &Schema) -> (r: bool)
        ensures
            r == (self@ == other@),
    {
        if self.fields.len() != other.fields.len() {
            proof {
                assert(self@.len() != other@.len());
            }
            return false;
        }
        let n = self.fields.len();
        let mut i: usize = 0;
        while i < n
            invariant
                n == self.fields@.len(),
                n == other.fields@.len(),
                i <= n,
                forall|j: int| 0 <= j < i ==> self.fields@[j]@ == other.fields@[j]@,
            decreases n - i,
        {
            if !self.fields[i].matches(&other.fields[i]) {
                proof {
                    assert(self@[i as int] != other@[i as int]);
                }
                return false;
            }
            i += 1;
        }
        proof {
            assert(self@ =~= other@);
        }
        true
    }
}

} // verus!
