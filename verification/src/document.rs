//! The bytes of a profile file: plain JSON, or JSON compressed with gzip.

use vstd::prelude::*;
use vstd::string::*;

verus! {

/// An error of an input stream (`std::io::Error`), carried but not looked into.
#[verifier::external_type_specification]
#[verifier::external_body]
pub struct ExStreamError(std::io::Error);

/// How a profile file is packed.
#[derive(Debug, Clone, Copy, PartialEq, Eq, Structural)]
pub enum Packing {
    Plain,
    Gzip,
}

/// The JSON text of a profile file, and how it was packed.
#[derive(Debug)]
pub struct Document {
    pub json: Vec<u8>,
    pub packing: Packing,
}

/// Why a profile file has no JSON text.
#[derive(Debug)]
pub enum DocumentError {
    /// The file holds nothing.
    Empty,
    /// The file begins like a gzip stream but cannot be decompressed.
    Corrupt(std::io::Error),
}

/// The complaint about JSON text that cannot be parsed.
pub open spec fn parse_failure(packing: Packing) -> Seq<char> {
    match packing {
        Packing::Plain => "failed to parse profile JSON"@,
        Packing::Gzip => "failed to parse gzip-compressed profile JSON"@,
    }
}

impl Packing {
    /// The complaint about JSON text of this packing that cannot be parsed.
    pub fn parse_failure_message(&self) -> (r: String)
        ensures
            r@ == parse_failure(*self),
    {
        match *self {
            Packing::Plain => "failed to parse profile JSON".to_owned(),
            Packing::Gzip => "failed to parse gzip-compressed profile JSON".to_owned(),
        }
    }
}

impl DocumentError {
    /// What the error says.
    pub open spec fn text(self) -> Seq<char> {
        match self {
            DocumentError::Empty => "profile file is empty"@,
            DocumentError::Corrupt(_) => parse_failure(Packing::Gzip),
        }
    }

    /// The error in words, without its cause.
    pub fn message(&self) -> (r: String)
        ensures
            r@ == self.text(),
    {
        match self {
            DocumentError::Empty => "profile file is empty".to_owned(),
            DocumentError::Corrupt(_) => Packing::Gzip.parse_failure_message(),
        }
    }
}

/// The packing that the first bytes of a file tell: gzip streams begin with
/// `1f 8b`.
pub open spec fn packing(bytes: Seq<u8>) -> Packing {
    if bytes.len() >= 2 && bytes[0] == 0x1f && bytes[1] == 0x8b {
        Packing::Gzip
    } else {
        Packing::Plain
    }
}

/// How a file with these bytes is packed.
pub fn packing_of(bytes: &Vec<u8>) -> (r: Packing)
    ensures
        r == packing(bytes@),
{
    if bytes.len() >= 2 && bytes[0] == 0x1f && bytes[1] == 0x8b {
        Packing::Gzip
    } else {
        Packing::Plain
    }
}

/// What the first member of a gzip stream decompresses to, if the stream is
/// sound up to that member's end.
pub uninterp spec fn gunzipped(bytes: Seq<u8>) -> Option<Seq<u8>>;

/// Reads a `flate2::read::GzDecoder` over the bytes to its end. What comes out,
/// and whether decompressing fails, depends on the bytes alone, as long as
/// there is memory to hold the result.
#[verifier::external_body]
fn gunzip(bytes: &Vec<u8>) -> (r: Result<Vec<u8>, std::io::Error>)
    ensures
        match r {
            Ok(out) => gunzipped(bytes@) == Some(out@),
            Err(_) => gunzipped(bytes@) is None,
        },
{
    let mut out = Vec::new();
    let mut decoder = flate2::read::GzDecoder::new(bytes.as_slice());
    match std::io::Read::read_to_end(&mut decoder, &mut out) {
        Ok(_) => Ok(out),
        Err(e) => Err(e),
    }
}

/// The document that a decompressed stream is, or the error that it ended in.
pub fn unpacked(stream: Result<Vec<u8>, std::io::Error>) -> (r: Result<Document, DocumentError>)
    ensures
        match stream {
            Ok(json) => r == Ok::<Document, DocumentError>(
                (Document { json, packing: Packing::Gzip }),
            ),
            Err(e) => r == Err::<Document, DocumentError>(DocumentError::Corrupt(e)),
        },
{
    match stream {
        Ok(json) => Ok(Document { json, packing: Packing::Gzip }),
        Err(e) => Err(DocumentError::Corrupt(e)),
    }
}

/// Takes the JSON text out of the bytes of a profile file. Accepts plain JSON
/// or gzip-compressed JSON.
pub fn read_document(bytes: Vec<u8>) -> (r: Result<Document, DocumentError>)
    ensures
        match r {
            Ok(d) => {
                &&& bytes@.len() > 0
                &&& d.packing == packing(bytes@)
                &&& match d.packing {
                    Packing::Plain => d.json@ == bytes@,
                    Packing::Gzip => gunzipped(bytes@) == Some(d.json@),
                }
            },
            Err(DocumentError::Empty) => bytes@.len() == 0,
            Err(DocumentError::Corrupt(_)) => {
                &&& packing(bytes@) == Packing::Gzip
                &&& gunzipped(bytes@) is None
            },
        },
{
    if bytes.len() == 0 {
        return Err(DocumentError::Empty);
    }
    match packing_of(&bytes) {
        Packing::Gzip => unpacked(gunzip(&bytes)),
        Packing::Plain => Ok(Document { json: bytes, packing: Packing::Plain }),
    }
}

} // verus!
