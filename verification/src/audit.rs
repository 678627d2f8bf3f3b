//! The Consistency Auditor's record: one comma-separated row per block whose
//! accounting left value unaccounted for, in the shape the audit trail file
//! stores.

use vstd::prelude::*;

use crate::numfmt::{dec_str, is_digit_seq, lemma_dec_str_digits, u64_to_string};

verus! {

/// One row of the audit trail: a block whose subsidy plus spent value
/// exceeded its created value, and by how much.
pub struct AuditRecord {
    pub block_height: u64,
    pub reward: u64,
    pub spent_value: u64,
    pub created_value: u64,
    pub lost: u64,
}

/// Fields joined by commas, without a terminator.
pub open spec fn csv_joined(fields: Seq<Seq<char>>) -> Seq<char>
    decreases fields.len(),
{
    if fields.len() == 0 {
        Seq::empty()
    } else if fields.len() == 1 {
        fields[0]
    } else {
        csv_joined(fields.drop_last()) + seq![','] + fields.last()
    }
}

/// One comma-separated record line: the fields joined by commas, terminated
/// by a single newline.
pub open spec fn csv_line(fields: Seq<Seq<char>>) -> Seq<char> {
    csv_joined(fields) + seq!['\n']
}

/// Relies on csv::WriterBuilder and csv::Writer::write_record: with headers
/// off and default settings the writer joins a record's fields with the `,`
/// delimiter and ends the record with a single `\n` terminator, quoting a
/// field only where its bytes need it — a non-empty field of plain decimal
/// digits is written as it is.
#[verifier::external_body]
fn csv_record_line(fields: &Vec<String>) -> (r: String)
    requires
        fields@.len() >= 1,
        forall|i: int|
            0 <= i < fields@.len() ==> is_digit_seq(#[trigger] fields@[i]@) && fields@[i]@.len()
                >= 1,
    ensures
        r@ == csv_line(fields@.map_values(|f: String| f@)),
{
    let mut w = csv::WriterBuilder::new().has_headers(false).from_writer(Vec::new());
    w.write_record(fields.iter()).expect("in-memory csv record");
    let buf = w.into_inner().expect("in-memory csv buffer");
    String::from_utf8(buf).expect("csv of digit fields is valid text")
}

/// The audit row of `rec`: its five counters as decimal fields of one
/// comma-separated, newline-terminated line.
pub open spec fn audit_line(rec: AuditRecord) -> Seq<char> {
    csv_line(
        seq![
            dec_str(rec.block_height as nat),
            dec_str(rec.reward as nat),
            dec_str(rec.spent_value as nat),
            dec_str(rec.created_value as nat),
            dec_str(rec.lost as nat),
        ],
    )
}

/// Render the audit row for `rec`.
pub fn audit_row(rec: &AuditRecord) -> (r: String)
    ensures
        r@ == audit_line(*rec),
{
    let mut fields: Vec<String> = Vec::new();
    fields.push(u64_to_string(rec.block_height));
    fields.push(u64_to_string(rec.reward));
    fields.push(u64_to_string(rec.spent_value));
    fields.push(u64_to_string(rec.created_value));
    fields.push(u64_to_string(rec.lost));
    proof {
        lemma_dec_str_digits(rec.block_height as nat);
        lemma_dec_str_digits(rec.reward as nat);
        lemma_dec_str_digits(rec.spent_value as nat);
        lemma_dec_str_digits(rec.created_value as nat);
        lemma_dec_str_digits(rec.lost as nat);
        assert(fields@.map_values(|f: String| f@) =~= seq![
            dec_str(rec.block_height as nat),
            dec_str(rec.reward as nat),
            dec_str(rec.spent_value as nat),
            dec_str(rec.created_value as nat),
            dec_str(rec.lost as nat),
        ]);
    }
    csv_record_line(&fields)
}

} // verus!
