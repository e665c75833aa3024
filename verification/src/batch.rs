//! The fixed 10-column schema and the mapping of one record to a one-row
//! columnar batch.
//!
//! Column order and nullability are part of the schema; every column is
//! nullable, and an absent attribute maps to a null entry, never to a
//! default.  The two structured attributes are re-serialized into opaque
//! text columns, so the schema stays fixed whatever the nested content.

use vstd::prelude::*;

use crate::Error;
use crate::json::{Json, JVal, jser, repr_ok, is_num_lit, check_num_lit, check_repr, to_text};
use crate::json::view_elems;
use crate::record::{MetadataJson, RecordV, otv};

verus! {

/// The description of one column: its name, whether it holds 64-bit
/// floating-point numbers (else text), and whether entries may be null.
pub struct FieldSpec {
    pub name: Seq<char>,
    pub float: bool,
    pub nullable: bool,
}

/// One column's sole entry in a one-row batch.  A floating-point entry is
/// described by the bit pattern of the 64-bit value it holds.
pub enum Cell {
    Text(Option<Seq<char>>),
    Float(Option<u64>),
}

/// The bit pattern of the 64-bit floating-point value a number literal
/// denotes: what str::parse computes, a function of the text alone.
pub uninterp spec fn float_bits_of(t: Seq<char>) -> u64;

/// The floating-point entry an optional literal maps to.
pub open spec fn float_bits_opt(o: Option<Seq<char>>) -> Option<u64> {
    match o {
        Option::Some(t) => Some(float_bits_of(t)),
        Option::None => None,
    }
}

#[verifier::external_type_specification]
#[verifier::external_body]
pub struct ExField(arrow::datatypes::Field);

/// What a field of the outside schema type holds.
pub uninterp spec fn field_spec(f: arrow::datatypes::Field) -> FieldSpec;

#[verifier::external_type_specification]
#[verifier::external_body]
pub struct ExSchema(arrow::datatypes::Schema);

/// The fields a schema value holds, in order.
pub uninterp spec fn schema_fields(s: arrow::datatypes::Schema) -> Seq<FieldSpec>;

/// One single-row columnar batch.  The batch type of the columnar library
/// cannot be declared to the verifier, so it sits in a hidden field.
#[verifier::external_body]
pub struct Batch {
    pub(crate) inner: arrow::array::RecordBatch,
}

/// The fields of the schema a batch was built under, in order.
pub uninterp spec fn batch_fields(b: Batch) -> Seq<FieldSpec>;

/// The sole row of a single-row batch, one cell per column.
pub uninterp spec fn batch_row(b: Batch) -> Seq<Cell>;

/// Relies on arrow's Field::new.
#[verifier::external_body]
fn mk_field(name: &str, float: bool, nullable: bool) -> (f: arrow::datatypes::Field)
    ensures
        field_spec(f) == (FieldSpec { name: name@, float: float, nullable: nullable }),
{
    let dt = if float {
        arrow::datatypes::DataType::Float64
    } else {
        arrow::datatypes::DataType::Utf8
    };
    arrow::datatypes::Field::new(name, dt, nullable)
}

/// Relies on arrow's Schema::new.
#[verifier::external_body]
fn mk_schema(fields: Vec<arrow::datatypes::Field>) -> (s: arrow::datatypes::Schema)
    ensures
        schema_fields(s).len() == fields@.len(),
        forall|k: int|
            0 <= k < fields@.len() ==> schema_fields(s)[k] == field_spec(#[trigger] fields@[k]),
{
    arrow::datatypes::Schema::new(fields)
}

/// A set of single-entry columns being assembled for one batch.  The
/// column type of the columnar library cannot be declared to the
/// verifier, so the columns sit in a hidden field.
#[verifier::external_body]
pub struct Columns {
    cols: Vec<arrow::array::ArrayRef>,
}

/// The entries of the assembled columns, in order.
pub uninterp spec fn col_cells(c: Columns) -> Seq<Cell>;

impl Columns {
    /// An empty column set.
    #[verifier::external_body]
    pub(crate) fn new() -> (c: Columns)
        ensures
            col_cells(c) == Seq::<Cell>::empty(),
    {
        Columns { cols: Vec::new() }
    }

    /// Relies on arrow's StringArray: appends a one-entry text column,
    /// null exactly when the value is absent.
    #[verifier::external_body]
    pub(crate) fn push_text(&mut self, v: Option<Vec<char>>)
        ensures
            col_cells(*final(self)) == col_cells(*old(self)).push(Cell::Text(otv(v))),
    {
        let s = v.map(|x| x.iter().collect::<String>());
        self.cols.push(std::sync::Arc::new(arrow::array::StringArray::from(vec![s])));
    }

    /// Relies on arrow's Float64Array and str::parse: appends a one-entry
    /// 64-bit floating-point column holding the literal's parsed value,
    /// whose bit pattern `float_bits_of` names, null exactly when the
    /// value is absent.  The precondition keeps str::parse total here:
    /// every literal of the number grammar parses (overflow parses to an
    /// infinity).
    #[verifier::external_body]
    pub(crate) fn push_float(&mut self, v: Option<Vec<char>>)
        requires
            v matches Some(t) ==> is_num_lit(t@),
        ensures
            v matches Some(t) ==> col_cells(*final(self)) == col_cells(*old(self)).push(
                Cell::Float(Some(float_bits_of(t@))),
            ),
            v is None ==> col_cells(*final(self)) == col_cells(*old(self)).push(
                Cell::Float(None),
            ),
    {
        let s = v.map(|x| x.iter().collect::<String>().parse().unwrap());
        self.cols.push(std::sync::Arc::new(arrow::array::Float64Array::from(vec![s])));
    }
}

/// Columns that satisfy a schema: one per field, at least one, each of
/// the field's kind, every field tolerating null entries.
pub open spec fn cells_conform(fs: Seq<FieldSpec>, cs: Seq<Cell>) -> bool {
    &&& cs.len() == fs.len()
    &&& cs.len() > 0
    &&& forall|k: int|
        0 <= k < cs.len() ==> ((#[trigger] cs[k]) is Float <==> fs[k].float) && fs[k].nullable
}

/// Relies on arrow's RecordBatch::try_new, which checks exactly that at
/// least one column is given, that columns and fields agree in number and
/// data type, that all columns share one length, and that null entries
/// sit only under nullable fields; on success the batch holds those
/// columns under that schema.
#[verifier::external_body]
fn mk_batch(schema: arrow::datatypes::Schema, cols: Columns) -> (r: Option<Batch>)
    ensures
        r matches Some(b) ==> batch_fields(b) == schema_fields(schema) && batch_row(b)
            == col_cells(cols),
        cells_conform(schema_fields(schema), col_cells(cols)) ==> r is Some,
{
    let b = arrow::array::RecordBatch::try_new(std::sync::Arc::new(schema), cols.cols).ok()?;
    Some(Batch { inner: b })
}

/// The fixed 10-column schema: 8 scalar columns and 2 opaque text columns
/// for the re-serialized structured attributes; every column nullable.
pub open spec fn spec_schema() -> Seq<FieldSpec> {
    seq![
        FieldSpec { name: "version"@, float: false, nullable: true },
        FieldSpec { name: "vendor"@, float: false, nullable: true },
        FieldSpec { name: "imaging_mode"@, float: false, nullable: true },
        FieldSpec { name: "order_type"@, float: false, nullable: true },
        FieldSpec { name: "product_sku"@, float: false, nullable: true },
        FieldSpec { name: "base_ipr"@, float: true, nullable: true },
        FieldSpec { name: "target_ipr"@, float: true, nullable: true },
        FieldSpec { name: "umbra_satellite_name"@, float: false, nullable: true },
        FieldSpec { name: "collects"@, float: false, nullable: true },
        FieldSpec { name: "derived_products"@, float: false, nullable: true },
    ]
}

/// The record's attributes can all be written: number literals where a
/// floating-point column is owed, and representable structured values.
pub open spec fn record_cells_ok(rv: RecordV) -> bool {
    &&& (rv.base_ipr matches Some(t) ==> is_num_lit(t))
    &&& (rv.target_ipr matches Some(t) ==> is_num_lit(t))
    &&& (rv.collects matches Some(es) ==> repr_ok(JVal::Arr(es)))
    &&& (rv.derived_products matches Some(ms) ==> repr_ok(JVal::Obj(ms)))
}

/// The one row a record maps to: its eight scalar attributes, then its two
/// structured attributes re-serialized into canonical text, absent
/// attributes null.
pub open spec fn record_cells(rv: RecordV) -> Seq<Cell> {
    seq![
        Cell::Text(rv.version),
        Cell::Text(rv.vendor),
        Cell::Text(rv.imaging_mode),
        Cell::Text(rv.order_type),
        Cell::Text(rv.product_sku),
        Cell::Float(float_bits_opt(rv.base_ipr)),
        Cell::Float(float_bits_opt(rv.target_ipr)),
        Cell::Text(rv.umbra_satellite_name),
        Cell::Text(
            match rv.collects {
                Option::Some(es) => Some(jser(JVal::Arr(es))),
                Option::None => None,
            },
        ),
        Cell::Text(
            match rv.derived_products {
                Option::Some(ms) => Some(jser(JVal::Obj(ms))),
                Option::None => None,
            },
        ),
    ]
}

impl MetadataJson {
    /// The fixed 10-column schema, identical on every call.
    pub fn schema() -> (s: arrow::datatypes::Schema)
        ensures
            schema_fields(s) == spec_schema(),
    {
        let f0 = mk_field("version", false, true);
        let f1 = mk_field("vendor", false, true);
        let f2 = mk_field("imaging_mode", false, true);
        let f3 = mk_field("order_type", false, true);
        let f4 = mk_field("product_sku", false, true);
        let f5 = mk_field("base_ipr", true, true);
        let f6 = mk_field("target_ipr", true, true);
        let f7 = mk_field("umbra_satellite_name", false, true);
        let f8 = mk_field("collects", false, true);
        let f9 = mk_field("derived_products", false, true);
        let mut fields: Vec<arrow::datatypes::Field> = Vec::new();
        fields.push(f0);
        fields.push(f1);
        fields.push(f2);
        fields.push(f3);
        fields.push(f4);
        fields.push(f5);
        fields.push(f6);
        fields.push(f7);
        fields.push(f8);
        fields.push(f9);
        let ghost fv = fields@;
        let s = mk_schema(fields);
        proof {
            assert(fv[0] == f0);
            assert(fv[1] == f1);
            assert(fv[2] == f2);
            assert(fv[3] == f3);
            assert(fv[4] == f4);
            assert(fv[5] == f5);
            assert(fv[6] == f6);
            assert(fv[7] == f7);
            assert(fv[8] == f8);
            assert(fv[9] == f9);
            assert(schema_fields(s)[0] == field_spec(f0));
            assert(schema_fields(s)[1] == field_spec(f1));
            assert(schema_fields(s)[2] == field_spec(f2));
            assert(schema_fields(s)[3] == field_spec(f3));
            assert(schema_fields(s)[4] == field_spec(f4));
            assert(schema_fields(s)[5] == field_spec(f5));
            assert(schema_fields(s)[6] == field_spec(f6));
            assert(schema_fields(s)[7] == field_spec(f7));
            assert(schema_fields(s)[8] == field_spec(f8));
            assert(schema_fields(s)[9] == field_spec(f9));
            assert(schema_fields(s) =~= spec_schema());
        }
        s
    }

    /// Maps the record to its one-row batch under the fixed schema.  The
    /// record is consumed; its structured attributes are re-serialized
    /// into canonical text.  Fails exactly when an attribute cannot be
    /// represented in the notation.
    pub fn to_batch(self) -> (r: Result<Batch, Error>)
        ensures
            match r {
                Result::Ok(b) => record_cells_ok(self@) && batch_fields(b) == spec_schema()
                    && batch_row(b) == record_cells(self@),
                Result::Err(e) => !record_cells_ok(self@) && e is Serialization,
            },
    {
        let ghost rv = self@;
        let MetadataJson {
            version,
            vendor,
            imaging_mode,
            order_type,
            product_sku,
            base_ipr,
            target_ipr,
            umbra_satellite_name,
            collects,
            derived_products,
        } = self;
        if let Some(t) = &base_ipr {
            if !check_num_lit(t) {
                return Err(Error::Serialization);
            }
        }
        if let Some(t) = &target_ipr {
            if !check_num_lit(t) {
                return Err(Error::Serialization);
            }
        }
        let collects_txt: Option<Vec<char>> = match collects {
            Option::Some(es) => {
                let arr = Json::Arr(es);
                if !check_repr(&arr) {
                    return Err(Error::Serialization);
                }
                let txt = to_text(&arr);
                proof {
                    assert(arr@ == JVal::Arr(view_elems(arr->Arr_0@)));
                }
                Some(txt)
            },
            Option::None => None,
        };
        let derived_txt: Option<Vec<char>> = match derived_products {
            Option::Some(ms) => {
                let obj = Json::Obj(ms);
                if !check_repr(&obj) {
                    return Err(Error::Serialization);
                }
                let txt = to_text(&obj);
                Some(txt)
            },
            Option::None => None,
        };
        let schema = Self::schema();
        let mut cols = Columns::new();
        cols.push_text(version);
        cols.push_text(vendor);
        cols.push_text(imaging_mode);
        cols.push_text(order_type);
        cols.push_text(product_sku);
        cols.push_float(base_ipr);
        cols.push_float(target_ipr);
        cols.push_text(umbra_satellite_name);
        cols.push_text(collects_txt);
        cols.push_text(derived_txt);
        proof {
            assert(col_cells(cols) =~= record_cells(rv));
            assert(cells_conform(schema_fields(schema), col_cells(cols)));
        }
        match mk_batch(schema, cols) {
            Option::Some(b) => Ok(b),
            Option::None => {
                proof {
                    assert(false);
                }
                Err(Error::Serialization)
            },
        }
    }
}

} // verus!

verus! {

/// A null entry: the column holds no value for the row.
pub open spec fn cell_null(c: Cell) -> bool {
    match c {
        Cell::Text(o) => o is None,
        Cell::Float(o) => o is None,
    }
}

/// For a record with every optional attribute absent, the one row holds
/// ten cells and every one of them is null.
pub proof fn lemma_all_absent_row_null(rv: RecordV)
    requires
        rv.version is None,
        rv.vendor is None,
        rv.imaging_mode is None,
        rv.order_type is None,
        rv.product_sku is None,
        rv.base_ipr is None,
        rv.target_ipr is None,
        rv.umbra_satellite_name is None,
        rv.collects is None,
        rv.derived_products is None,
    ensures
        record_cells(rv).len() == 10,
        forall|k: int| 0 <= k < 10 ==> cell_null(#[trigger] record_cells(rv)[k]),
{
    assert forall|k: int| 0 <= k < 10 implies cell_null(#[trigger] record_cells(rv)[k]) by {
        if k == 0 {
        } else if k == 1 {
        } else if k == 2 {
        } else if k == 3 {
        } else if k == 4 {
        } else if k == 5 {
        } else if k == 6 {
        } else if k == 7 {
        } else if k == 8 {
        } else {
            assert(k == 9);
        }
    }
}

/// The schema is the same on every call: any two schemas the library
/// declares have identical column names, order, types and nullability.
pub proof fn lemma_schema_deterministic(
    s1: arrow::datatypes::Schema,
    s2: arrow::datatypes::Schema,
)
    requires
        schema_fields(s1) == spec_schema(),
        schema_fields(s2) == spec_schema(),
    ensures
        schema_fields(s1) == schema_fields(s2),
{
}

} // verus!
