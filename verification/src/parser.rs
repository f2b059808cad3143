//! The two entry points: a saved-variables file to its recordings, and the
//! printable blob of one recording to the recording it holds.

use crate::libserialize::{blob_outcome, from_print_bytes, DeserializationError};
use crate::savedvariables::{parse_text, spec_parse, ParseError};
use crate::types::{
    saved_variables, spec_saved_variables, ParsedRecording, Recording, RecordingData,
    SavedVariables, SavedVariablesView,
};
use crate::value::bytes_of;
use vstd::prelude::*;
use vstd::string::StringSliceAdditionalSpecFns;

verus! {

/// Why a file or a blob could not be read.
#[derive(Debug)]
pub enum SavedVariablesError {
    /// The text of the file does not follow the syntax, or the value in it
    /// does not fit the records.
    ParseError(ParseError),
    /// The blob could not be opened or decoded, or the value in it does not
    /// fit the records.
    DeserializeError(DeserializationError),
    /// A negative integer stands where an unsigned one is required.
    SignCastError,
}

/// What a text holds, read as a file of recordings.
pub open spec fn spec_file(b: Seq<u8>) -> Result<SavedVariablesView, ParseError> {
    match spec_parse(b) {
        Err(at) => Err(ParseError::ValueError { offset: at as usize }),
        Ok(v) => spec_saved_variables(v),
    }
}

/// The failure of reading a file, as it is reported: a sign failure under
/// its own name, any other failure as it is.
pub open spec fn file_error(e: ParseError) -> SavedVariablesError {
    match e {
        ParseError::SignCast => SavedVariablesError::SignCastError,
        _ => SavedVariablesError::ParseError(e),
    }
}

/// Reads a saved-variables file. The blobs of the recordings stay where
/// the text has them.
pub fn parse_saved_variables<'a>(data: &'a str) -> (r: Result<
    SavedVariables<'a>,
    SavedVariablesError,
>)
    ensures
        match r {
            Ok(x) => spec_file(data.spec_bytes()) == Ok::<SavedVariablesView, ParseError>(x@),
            Err(e) => spec_file(data.spec_bytes()) is Err && e == file_error(
                spec_file(data.spec_bytes())->Err_0,
            ),
        },
{
    let v = match parse_text(data.as_bytes()) {
        Ok(v) => v,
        Err(e) => {
            return Err(SavedVariablesError::ParseError(e));
        },
    };
    match saved_variables(&v) {
        Ok(x) => Ok(x),
        Err(ParseError::SignCast) => Err(SavedVariablesError::SignCastError),
        Err(e) => Err(SavedVariablesError::ParseError(e)),
    }
}

/// The outcome of decoding a blob, as it is reported: a sign failure under
/// its own name, any other failure as a failure of decoding.
pub open spec fn raise<'a>(inner: Result<ParsedRecording<'a>, DeserializationError>) -> Result<
    ParsedRecording<'a>,
    SavedVariablesError,
> {
    match inner {
        Ok(p) => Ok(p),
        Err(DeserializationError::SavedVariablesError(ParseError::SignCast)) => Err(
            SavedVariablesError::SignCastError,
        ),
        Err(e) => Err(SavedVariablesError::DeserializeError(e)),
    }
}

/// Reads the recording that a printable blob holds.
pub fn parse_compressed_bytes<'a>(data: &[u8]) -> (r: Result<
    ParsedRecording<'a>,
    SavedVariablesError,
>)
    ensures
        exists|inner: Result<ParsedRecording<'a>, DeserializationError>|
            #[trigger] blob_outcome(data@, inner) && r == raise(inner),
{
    let inner = from_print_bytes(data);
    let ghost seen = inner;
    let r = match inner {
        Ok(p) => Ok(p),
        Err(DeserializationError::SavedVariablesError(ParseError::SignCast)) => Err(
            SavedVariablesError::SignCastError,
        ),
        Err(e) => Err(SavedVariablesError::DeserializeError(e)),
    };
    assert(blob_outcome(data@, seen) && r == raise(seen));
    r
}

/// Reads the recording that a printable blob, given as text, holds.
pub fn parse_compressed_recording<'a>(data: &str) -> (r: Result<
    ParsedRecording<'a>,
    SavedVariablesError,
>)
    ensures
        exists|inner: Result<ParsedRecording<'a>, DeserializationError>|
            #[trigger] blob_outcome(data.spec_bytes(), inner) && r == raise(inner),
{
    parse_compressed_bytes(data.as_bytes())
}

/// Why the blob of a recording was not decoded on request.
#[derive(Debug)]
pub enum TestParseError {
    /// The recording holds its decoded data already.
    FoundParsed,
    /// The blob could not be read.
    Failed(SavedVariablesError),
}

/// Decodes the blob of a recording and hands the decoded data back,
/// leaving the recording as it is. A recording that holds decoded data
/// already is refused.
pub fn test_parse_data<'a, 'b>(rec: &Recording<'b>) -> (r: Result<
    ParsedRecording<'a>,
    TestParseError,
>)
    ensures
        match rec.data {
            RecordingData::Parsed(_) => r matches Err(TestParseError::FoundParsed),
            RecordingData::Unparsed(raw) => exists|
                inner: Result<ParsedRecording<'a>, DeserializationError>,
            |
                #[trigger] blob_outcome(raw@, inner) && match raise(inner) {
                    Ok(p) => r == Ok::<ParsedRecording<'a>, TestParseError>(p),
                    Err(e) => r == Err::<ParsedRecording<'a>, TestParseError>(
                        TestParseError::Failed(e),
                    ),
                },
        },
{
    match &rec.data {
        RecordingData::Parsed(_) => Err(TestParseError::FoundParsed),
        RecordingData::Unparsed(raw) => match parse_compressed_bytes(bytes_of(raw)) {
            Ok(p) => Ok(p),
            Err(e) => Err(TestParseError::Failed(e)),
        },
    }
}

/// The parsed data of a recording, once it has been decoded.
pub fn parsed_data<'b, 'a>(rec: &'b Recording<'a>) -> (r: Option<&'b ParsedRecording<'a>>)
    ensures
        match r {
            Some(p) => rec.data == RecordingData::Parsed(*p),
            None => rec.data is Unparsed,
        },
{
    match &rec.data {
        RecordingData::Parsed(p) => Some(p),
        RecordingData::Unparsed(_) => None,
    }
}

/// Decodes the blob of a recording, once: a recording that holds its
/// decoded data is left as it is, one that holds a blob holds the decoded
/// data afterwards, and one whose blob cannot be read stays as it was.
pub fn parse_data<'a>(rec: &mut Recording<'a>) -> (r: Result<(), SavedVariablesError>)
    ensures
        final(rec).encounter == old(rec).encounter,
        match old(rec).data {
            RecordingData::Parsed(_) => r is Ok && final(rec).data == old(rec).data,
            RecordingData::Unparsed(raw) => exists|
                inner: Result<ParsedRecording<'a>, DeserializationError>,
            |
                #[trigger] blob_outcome(raw@, inner) && match raise(inner) {
                    Ok(p) => r is Ok && final(rec).data == RecordingData::Parsed(p),
                    Err(e) => r == Err::<(), SavedVariablesError>(e) && final(rec).data == old(
                        rec,
                    ).data,
                },
        },
{
    let outcome: Option<Result<ParsedRecording<'a>, SavedVariablesError>> = match &rec.data {
        RecordingData::Parsed(_) => None,
        RecordingData::Unparsed(raw) => Some(parse_compressed_bytes(bytes_of(raw))),
    };
    match outcome {
        None => Ok(()),
        Some(Ok(p)) => {
            rec.data = RecordingData::Parsed(p);
            Ok(())
        },
        Some(Err(e)) => Err(e),
    }
}

} // verus!
