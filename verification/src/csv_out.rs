use vstd::prelude::*;
use csv::{QuoteStyle, WriterBuilder};

verus! {

#[verifier::external_type_specification]
#[verifier::external_body]
pub struct ExCsvError(csv::Error);

/// When a field is put in quotes.
#[derive(Debug, Clone, Copy, PartialEq, Eq, Structural)]
pub enum Quoting {
    /// Every field.
    Always,
    /// Only where the field needs it.
    Necessary,
    /// Every field that does not read as a number.
    NonNumeric,
    /// No field.
    Never,
}

/// The bytes that a `csv::Writer` with default settings but for the quoting
/// writes for one record.
pub uninterp spec fn csv_record_bytes(quoting: Quoting, fields: Seq<Seq<char>>) -> Seq<u8>;

/// Encodes one record as CSV with a fresh `csv::Writer` over a byte vector,
/// built by `csv::WriterBuilder` with the given quote style (`write_record`,
/// then `into_inner`). The contract names the bytes written; the CSV
/// encoding rules are not restated. It also says that this succeeds: in the
/// csv source, writing a record fails only when flushing into the underlying
/// writer fails, or when a record has another number of fields than the first
/// record of the writer; a `Vec<u8>` accepts every write, and the record
/// written here is the writer's first.
#[verifier::external_body]
pub(crate) fn encode_record(quoting: Quoting, fields: &Vec<String>) -> (r: Result<Vec<u8>, csv::Error>)
    ensures
        r is Ok,
        r matches Ok(bytes) ==> bytes@ == csv_record_bytes(quoting, fields.deep_view()),
{
    let style = match quoting {
        Quoting::Always => QuoteStyle::Always,
        Quoting::Necessary => QuoteStyle::Necessary,
        Quoting::NonNumeric => QuoteStyle::NonNumeric,
        Quoting::Never => QuoteStyle::Never,
    };
    let mut writer = WriterBuilder::new().quote_style(style).from_writer(Vec::new());
    writer.write_record(fields)?;
    match writer.into_inner() {
        Ok(bytes) => Ok(bytes),
        Err(e) => Err(csv::Error::from(e.into_error())),
    }
}

} // verus!
