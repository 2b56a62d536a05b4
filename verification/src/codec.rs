//! The delimited-text codec, an external collaborator: it turns bytes into
//! records and records back into bytes. Both directions are pure functions
//! of their inputs, so the library names their results and reasons about
//! the record stream in between.

use vstd::prelude::*;

use crate::errors::AnonError;

verus! {

/// What the codec yields for given input bytes and delimiter: every record
/// of the stream in order, each a sequence of fields, or nothing when the
/// bytes are not a well-formed record stream.
pub uninterp spec fn csv_rows_of(input: Seq<u8>, delimiter: u8) -> Option<Seq<Seq<Seq<char>>>>;

/// The byte encoding of the given records with the given delimiter, or
/// nothing when the records cannot be encoded.
pub uninterp spec fn csv_encoding_of(rows: Seq<Seq<Seq<char>>>, delimiter: u8) -> Option<Seq<u8>>;

/// Relies on csv::ReaderBuilder and csv::Reader::records: with headers
/// disabled the reader yields every record of the byte stream in order,
/// a function of the bytes and the delimiter alone, and fails on
/// malformed input (records of unequal length, invalid UTF-8).
#[verifier::external_body]
pub(crate) fn read_rows(input: &Vec<u8>, delimiter: u8) -> (r: Result<Vec<Vec<String>>, AnonError>)
    ensures
        match r {
            Ok(rows) => csv_rows_of(input@, delimiter) == Some(rows.deep_view()),
            Err(e) => e == AnonError::SourceParse && csv_rows_of(input@, delimiter) is None,
        },
{
    let mut reader = csv::ReaderBuilder::new()
        .has_headers(false)
        .delimiter(delimiter)
        .from_reader(input.as_slice());
    let mut rows: Vec<Vec<String>> = Vec::new();
    for record in reader.records() {
        match record {
            Ok(rec) => rows.push(rec.iter().map(String::from).collect()),
            Err(_) => return Err(AnonError::SourceParse),
        }
    }
    Ok(rows)
}

/// Relies on csv::WriterBuilder and csv::Writer::write_record: the encoded
/// bytes are a function of the records and the delimiter alone; writing
/// fails on records of unequal length.
#[verifier::external_body]
pub(crate) fn write_rows(rows: &Vec<Vec<String>>, delimiter: u8) -> (r: Result<Vec<u8>, AnonError>)
    ensures
        match r {
            Ok(out) => csv_encoding_of(rows.deep_view(), delimiter) == Some(out@),
            Err(e) => e == AnonError::SinkWrite && csv_encoding_of(rows.deep_view(), delimiter)
                is None,
        },
{
    let mut writer = csv::WriterBuilder::new().delimiter(delimiter).from_writer(Vec::new());
    for row in rows {
        if writer.write_record(row).is_err() {
            return Err(AnonError::SinkWrite);
        }
    }
    match writer.into_inner() {
        Ok(bytes) => Ok(bytes),
        Err(_) => Err(AnonError::SinkWrite),
    }
}

} // verus!
