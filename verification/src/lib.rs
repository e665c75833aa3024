pub mod batch;
pub mod json;
pub mod record;
pub mod writer;

use vstd::prelude::*;

verus! {

/// The failure taxonomy of the pipeline.  Every step surfaces its failure
/// unchanged in kind; no error is recovered locally.
#[derive(Debug)]
pub enum Error {
    /// The source could not be read or the destination could not be written.
    Io(String),
    /// The source document is malformed or a present field has the wrong type.
    Parse,
    /// A structured attribute could not be re-encoded as text.
    Serialization,
    /// A batch violated the schema bound to the encoder.
    Encode(String),
    /// A caller-supplied batch schema differs from the declared schema.
    SchemaMismatch(String),
}

/// The document text parses and types as one well-formed record document.
pub open spec fn doc_well(text: Seq<char>) -> bool {
    match crate::json::sparse_doc(text) {
        Option::Some(m) => crate::record::doc_ok(m),
        Option::None => false,
    }
}

/// The record the document denotes, where the document is well-typed.
pub open spec fn doc_record(text: Seq<char>) -> crate::record::RecordV {
    match crate::json::sparse_doc(text) {
        Option::Some(crate::json::JVal::Obj(ms)) => crate::record::record_of(ms),
        _ => crate::record::record_of(Seq::empty()),
    }
}

/// What a successful run leaves in the encoded bytes: the document parses
/// to a well-typed record document whose attributes are representable, and
/// the bytes decode to exactly one row, the record's ten cells, under the
/// fixed schema.
pub open spec fn pipeline_ok(text: Seq<char>, bytes: Seq<u8>) -> bool {
    &&& doc_well(text)
    &&& crate::batch::record_cells_ok(doc_record(text))
    &&& crate::writer::file_rows(bytes) == seq![crate::batch::record_cells(doc_record(text))]
    &&& crate::writer::file_fields(bytes) == crate::batch::spec_schema()
}

/// One full run over one document text: parse the document, type the
/// record, map it to its one-row batch, stream the batch sequence into a
/// complete encoded file in memory.  Every failure surfaces unchanged in
/// kind; reading the source and writing the destination stay with the
/// caller.
pub fn run_pipeline(text: &Vec<char>) -> (r: Result<Vec<u8>, Error>)
    ensures
        (r matches Ok(bytes) ==> pipeline_ok(text@, bytes@)),
        (r matches Err(e) ==> e is Parse || e is Serialization),
        ((r matches Err(e) && e is Parse) ==> !doc_well(text@)),
        (!doc_well(text@) ==> (r matches Err(e) && e is Parse)),
        ((r matches Err(e) && e is Serialization) ==> doc_well(text@) && !crate::batch::record_cells_ok(
            doc_record(text@),
        )),
        ((doc_well(text@) && !crate::batch::record_cells_ok(doc_record(text@))) ==> (r matches Err(e)
            && e is Serialization)),
        ((doc_well(text@) && crate::batch::record_cells_ok(doc_record(text@))) ==> r is Ok),
{
    let rec = match crate::record::MetadataJson::new(text) {
        Result::Ok(rec) => rec,
        Result::Err(e) => {
            return Err(e);
        },
    };
    let ghost rv = rec@;
    let ghost ms = match crate::json::sparse_doc(text@) {
        Option::Some(crate::json::JVal::Obj(msx)) => msx,
        _ => Seq::empty(),
    };
    proof {
        crate::record::lemma_record_matches_of(ms, rv);
        assert(rv == doc_record(text@));
    }
    let b = match rec.to_batch() {
        Result::Ok(b) => b,
        Result::Err(e) => {
            return Err(e);
        },
    };
    let mut batches: Vec<crate::batch::Batch> = Vec::new();
    batches.push(b);
    proof {
        assert(crate::writer::rows_of(batches@) =~= seq![crate::batch::record_cells(rv)]);
        assert(forall|k: int|
            0 <= k < batches@.len() ==> crate::batch::batch_fields(#[trigger] batches@[k])
                == crate::batch::spec_schema());
    }
    match crate::writer::write_to_buffer(batches) {
        Result::Ok(bytes) => {
            proof {
                assert(crate::writer::file_rows(bytes@) == seq![crate::batch::record_cells(rv)]);
            }
            Ok(bytes)
        },
        Result::Err(e) => {
            proof {
                assert(false);
            }
            Err(e)
        },
    }
}

} // verus!
