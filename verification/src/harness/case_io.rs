//! The text of a case file, plain or compressed.

use crate::strings::{ends, ends_with};
use crate::text::joined3;
use std::io::Read;
use vstd::prelude::*;
use vstd::utf8::{decode_utf8, valid_utf8};

verus! {

/// The content or the message of an outside result on bytes.
pub open spec fn bytes_result(result: Result<Vec<u8>, String>) -> Result<Seq<u8>, Seq<char>> {
    match result {
        Ok(bytes) => Ok(bytes@),
        Err(message) => Err(message@),
    }
}

/// The decompressed content of a gzip stream of one or more members, or the decoder's message.
pub uninterp spec fn gzip_content(bytes: Seq<u8>) -> Result<Seq<u8>, Seq<char>>;

/// `flate2::read::MultiGzDecoder`, read to its end: the content of all members of the gzip stream, or
/// the message of the decoder's error. Both are only named.
#[verifier::external_body]
pub(crate) fn gunzip(bytes: &[u8]) -> (result: Result<Vec<u8>, String>)
    ensures
        bytes_result(result) == gzip_content(bytes@),
{
    let mut content = Vec::new();
    match flate2::read::MultiGzDecoder::new(bytes).read_to_end(&mut content) {
        Ok(_) => Ok(content),
        Err(error) => Err(error.to_string()),
    }
}

/// The decompressed content of a bzip2 stream, or the decoder's message.
pub uninterp spec fn bzip2_content(bytes: Seq<u8>) -> Result<Seq<u8>, Seq<char>>;

/// `bzip2::read::BzDecoder`, read to its end: the content of the bzip2 stream, or the message of the
/// decoder's error. Both are only named.
#[verifier::external_body]
pub(crate) fn bunzip2(bytes: &[u8]) -> (result: Result<Vec<u8>, String>)
    ensures
        bytes_result(result) == bzip2_content(bytes@),
{
    let mut content = Vec::new();
    match bzip2::read::BzDecoder::new(bytes).read_to_end(&mut content) {
        Ok(_) => Ok(content),
        Err(error) => Err(error.to_string()),
    }
}

/// `String::from_utf8`: the text that the bytes encode where they are valid UTF-8, nothing otherwise.
#[verifier::external_body]
pub(crate) fn utf8_text(bytes: Vec<u8>) -> (text: Option<String>)
    ensures
        text is Some <==> valid_utf8(bytes@),
        text matches Some(text) ==> text@ == decode_utf8(bytes@),
{
    String::from_utf8(bytes).ok()
}

/// How the bytes of a case file are stored.
#[derive(Debug, Clone, Copy, PartialEq, Eq, Structural)]
pub enum Encoding {
    /// A gzip stream.
    Gzip,
    /// A bzip2 stream.
    Bzip2,
    /// Plain text.
    Plain,
}

/// How a file of this name is stored.
pub open spec fn encoding_named(name: Seq<char>) -> Encoding {
    if ends(name, ".gz"@) {
        Encoding::Gzip
    } else if ends(name, ".bz2"@) {
        Encoding::Bzip2
    } else {
        Encoding::Plain
    }
}

/// The words that a failure on this encoding starts with.
pub open spec fn failure_words(encoding: Encoding) -> Seq<char> {
    match encoding {
        Encoding::Gzip => "failed to decode gzip "@,
        Encoding::Bzip2 => "failed to decode bzip2 "@,
        Encoding::Plain => "failed to read "@,
    }
}

impl Encoding {
    /// Returns how a file of this name is stored.
    pub fn of_name(name: &str) -> (encoding: Self)
        ensures
            encoding == encoding_named(name@),
    {
        if ends_with(name, ".gz") {
            Encoding::Gzip
        } else if ends_with(name, ".bz2") {
            Encoding::Bzip2
        } else {
            Encoding::Plain
        }
    }

    /// Returns the message for a failure to read a file.
    pub fn failure(self, path: &str, error: &str) -> (message: String)
        ensures
            message@ == failure_words(self) + path@ + ": "@ + error@,
    {
        let words = match self {
            Encoding::Gzip => "failed to decode gzip ",
            Encoding::Bzip2 => "failed to decode bzip2 ",
            Encoding::Plain => "failed to read ",
        };
        let mut message = joined3(words, path, ": ");
        message.append(error);
        message
    }
}

/// The text in decompressed content, or the error.
pub open spec fn content_text(content: Result<Seq<u8>, Seq<char>>) -> Result<Seq<char>, Seq<char>> {
    match content {
        Err(error) => Err(error),
        Ok(bytes) => if valid_utf8(bytes) {
            Ok(decode_utf8(bytes))
        } else {
            Err("stream did not contain valid UTF-8"@)
        },
    }
}

/// The content of a file of this encoding.
pub open spec fn stored_content(encoding: Encoding, bytes: Seq<u8>) -> Result<Seq<u8>, Seq<char>> {
    match encoding {
        Encoding::Gzip => gzip_content(bytes),
        Encoding::Bzip2 => bzip2_content(bytes),
        Encoding::Plain => Ok(bytes),
    }
}

/// Turns decompressed content into text, or into the message for a file of this encoding and path.
pub fn text_of_content(content: Result<Vec<u8>, String>, encoding: Encoding, path: &str) -> (result:
    Result<String, String>)
    ensures
        match content_text(bytes_result(content)) {
            Ok(text) => result is Ok && result->Ok_0@ == text,
            Err(error) => result is Err && result->Err_0@ == failure_words(encoding) + path@ + ": "@
                + error,
        },
{
    match content {
        Err(error) => Err(encoding.failure(path, error.as_str())),
        Ok(bytes) => match utf8_text(bytes) {
            Some(text) => Ok(text),
            None => Err(encoding.failure(path, "stream did not contain valid UTF-8")),
        },
    }
}

/// Returns the text of a case file from its bytes, transparently decompressing gzip and bzip2 inputs.
pub fn case_text(name: &str, path: &str, bytes: Vec<u8>) -> (result: Result<String, String>)
    ensures
        match content_text(stored_content(encoding_named(name@), bytes@)) {
            Ok(text) => result is Ok && result->Ok_0@ == text,
            Err(error) => result is Err && result->Err_0@ == failure_words(encoding_named(name@))
                + path@ + ": "@ + error,
        },
{
    let encoding = Encoding::of_name(name);
    let content = match encoding {
        Encoding::Gzip => gunzip(bytes.as_slice()),
        Encoding::Bzip2 => bunzip2(bytes.as_slice()),
        Encoding::Plain => Ok(bytes),
    };
    text_of_content(content, encoding, path)
}

} // verus!
