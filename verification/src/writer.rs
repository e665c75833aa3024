//! The streaming writer: feeds a sequence of one-row batches to a scoped
//! encoder bound to the fixed schema, in one forward pass, then finalizes
//! the encoder, which writes the format footer; without that step the
//! bytes would not form a readable file.

use vstd::prelude::*;

use crate::Error;
use crate::batch::{Batch, Cell, FieldSpec, batch_fields, batch_row, schema_fields, spec_schema};
use crate::record::MetadataJson;

verus! {

/// A scoped, single-use encoder over an in-memory buffer.  The encoder
/// type of the file-format library cannot be declared to the verifier,
/// so it sits in a hidden field.
#[verifier::external_body]
pub struct Encoder {
    inner: parquet::arrow::arrow_writer::ArrowWriter<Vec<u8>>,
}

/// The rows fed to the encoder so far, in order.
pub uninterp spec fn enc_rows(e: Encoder) -> Seq<Seq<Cell>>;

/// The fields of the schema the encoder is bound to.
pub uninterp spec fn enc_fields(e: Encoder) -> Seq<FieldSpec>;

/// The rows a standard reader of the binary columnar format decodes from
/// encoded bytes; a function of the bytes alone.
pub uninterp spec fn file_rows(bytes: Seq<u8>) -> Seq<Seq<Cell>>;

/// The schema a standard reader of the binary columnar format decodes
/// from encoded bytes; a function of the bytes alone.
pub uninterp spec fn file_fields(bytes: Seq<u8>) -> Seq<FieldSpec>;

/// Relies on parquet's ArrowWriter::try_new over an in-memory buffer: the
/// fresh encoder is bound to the given schema and has consumed nothing.
/// It fails only on an unsupported data type or a sink failure; the fixed
/// schema holds only text and 64-bit floating-point columns, both
/// supported, and an in-memory sink cannot fail, so on that schema it
/// succeeds.  On failure the message carries the cause.
#[verifier::external_body]
fn enc_new(schema: arrow::datatypes::Schema) -> (r: Result<Encoder, String>)
    ensures
        r matches Ok(e) ==> enc_rows(e) == Seq::<Seq<Cell>>::empty() && enc_fields(e)
            == schema_fields(schema),
        schema_fields(schema) == spec_schema() ==> r is Ok,
{
    match parquet::arrow::arrow_writer::ArrowWriter::try_new(
        Vec::new(),
        std::sync::Arc::new(schema),
        None,
    ) {
        Ok(w) => Ok(Encoder { inner: w }),
        Err(e) => Err(format!("{e}")),
    }
}

/// Relies on parquet's ArrowWriter::write: on success the batch's row has
/// been appended and the bound schema is unchanged.  The write fails
/// exactly when the batch's schema differs from the bound one: encoding
/// text and 64-bit floating-point columns into an in-memory sink cannot
/// otherwise fail.  Every batch of this library holds exactly one row and
/// every schema comes from this library's own constructors, where equal
/// field lists mean equal schemas, so the two schema clauses below
/// describe every reachable value.
#[verifier::external_body]
fn enc_write(e: &mut Encoder, b: &Batch) -> (r: Result<(), String>)
    ensures
        r is Ok ==> enc_rows(*final(e)) == enc_rows(*old(e)).push(batch_row(*b)) && enc_fields(
            *final(e),
        ) == enc_fields(*old(e)),
        batch_fields(*b) != enc_fields(*old(e)) ==> r is Err,
        batch_fields(*b) == enc_fields(*old(e)) ==> r is Ok,
{
    e.inner.write(&b.inner).map_err(|er| format!("{er}"))
}

/// Relies on parquet's ArrowWriter::into_inner: flushes buffered data,
/// writes the format footer, and hands back the buffer; over an in-memory
/// sink nothing can fail, so it succeeds.  A standard reader then decodes
/// from those bytes exactly the rows that were fed, in order, under the
/// schema the encoder was bound to.
#[verifier::external_body]
fn enc_close(e: Encoder) -> (r: Result<Vec<u8>, String>)
    ensures
        r is Ok,
        r matches Ok(bytes) ==> file_rows(bytes@) == enc_rows(e) && file_fields(bytes@)
            == enc_fields(e),
{
    e.inner.into_inner().map_err(|er| format!("{er}"))
}

/// The rows of a sequence of one-row batches, in order.
pub open spec fn rows_of(bs: Seq<Batch>) -> Seq<Seq<Cell>> {
    bs.map(|i: int, b: Batch| batch_row(b))
}

/// Streams the batches, in order, into one complete encoded file held in
/// memory.  Each batch is fed to the encoder as it comes, one forward
/// pass, one batch at a time; the encoder is then finalized.  On success
/// the bytes decode back to exactly the batches' rows, in order.
#[verifier::loop_isolation(false)]
pub fn write_to_buffer(batches: Vec<Batch>) -> (r: Result<Vec<u8>, Error>)
    ensures
        r matches Ok(bytes) ==> file_rows(bytes@) == rows_of(batches@) && file_fields(bytes@)
            == spec_schema(),
        r matches Err(e) ==> e is Encode,
        (forall|k: int|
            0 <= k < batches@.len() ==> batch_fields(#[trigger] batches@[k]) == spec_schema())
            ==> r is Ok,
{
    let schema = MetadataJson::schema();
    let mut enc = match enc_new(schema) {
        Result::Ok(e) => e,
        Result::Err(m) => {
            proof {
                assert(false);
            }
            return Err(Error::Encode(m));
        },
    };
    proof {
        assert(enc_rows(enc) =~= rows_of(batches@.subrange(0, 0)));
    }
    let mut i: usize = 0;
    while i < batches.len()
        invariant
            i <= batches@.len(),
            enc_rows(enc) == rows_of(batches@.subrange(0, i as int)),
            enc_fields(enc) == spec_schema(),
        decreases batches@.len() - i,
    {
        match enc_write(&mut enc, &batches[i]) {
            Result::Ok(_) => {},
            Result::Err(m) => {
                proof {
                    assert(batch_fields(batches@[i as int]) != spec_schema());
                }
                return Err(Error::Encode(m));
            },
        }
        proof {
            assert(rows_of(batches@.subrange(0, i + 1)) =~= rows_of(
                batches@.subrange(0, i as int),
            ).push(batch_row(batches@[i as int])));
        }
        i = i + 1;
    }
    proof {
        assert(batches@.subrange(0, batches@.len() as int) =~= batches@);
    }
    match enc_close(enc) {
        Result::Ok(bytes) => Ok(bytes),
        Result::Err(m) => {
            proof {
                assert(false);
            }
            Err(Error::Encode(m))
        },
    }
}

} // verus!
