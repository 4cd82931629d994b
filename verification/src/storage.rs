//! What is written to and read back from the number files.
use crate::number::{bytes_value, decimal, lemma_decimal_round_trip, parse_decimal, BigNat, ParseNumberError};
use vstd::prelude::*;

verus! {

/// How a computed number is saved.
#[derive(Debug, Clone, Copy, PartialEq, Eq)]
pub enum WriteMode {
    Bin,
    Txt,
    NoFile,
}

/// How a saved number is loaded.
#[derive(Debug, Clone, Copy, PartialEq, Eq)]
pub enum ReadMode {
    Bin,
    Txt,
    NoFile,
}

/// The contents of a number file: little-endian bytes, or decimal text.
pub enum FileContents {
    Bin(Vec<u8>),
    Txt(String),
}

/// The file contents hold the number `n`.
pub open spec fn encodes(contents: FileContents, n: nat) -> bool {
    match contents {
        FileContents::Bin(b) => bytes_value(b@) == n,
        FileContents::Txt(s) => s@ == decimal(n),
    }
}

/// The number that file contents hold, if they hold one.
pub open spec fn decoded(contents: FileContents) -> Option<nat> {
    match contents {
        FileContents::Bin(b) => Some(bytes_value(b@)),
        FileContents::Txt(s) => parse_decimal(s@),
    }
}

/// The name of the file that a write mode saves to; `NoFile` saves nothing.
pub fn write_file_name(write_mode: &WriteMode) -> (r: Option<&'static str>)
    ensures
        *write_mode == WriteMode::Bin ==> (r matches Some(name) && name@ == "biguint_data.bin"@),
        *write_mode == WriteMode::Txt ==> (r matches Some(name) && name@ == "biguint_base10.txt"@),
        *write_mode == WriteMode::NoFile ==> r is None,
{
    match write_mode {
        WriteMode::Bin => Some("biguint_data.bin"),
        WriteMode::Txt => Some("biguint_base10.txt"),
        WriteMode::NoFile => None,
    }
}

/// The name of the file that a read mode loads from; `NoFile` loads nothing.
pub fn read_file_name(read_mode: &ReadMode) -> (r: Option<&'static str>)
    ensures
        *read_mode == ReadMode::Bin ==> (r matches Some(name) && name@ == "biguint_data.bin"@),
        *read_mode == ReadMode::Txt ==> (r matches Some(name) && name@ == "biguint_base10.txt"@),
        *read_mode == ReadMode::NoFile ==> r is None,
{
    match read_mode {
        ReadMode::Bin => Some("biguint_data.bin"),
        ReadMode::Txt => Some("biguint_base10.txt"),
        ReadMode::NoFile => None,
    }
}

/// What a write mode saves of a number: its little-endian bytes (`Bin`), its
/// decimal text (`Txt`), or nothing (`NoFile`).
pub fn contents_for_write(biguint: &BigNat, write_mode: &WriteMode) -> (r: Option<FileContents>)
    ensures
        *write_mode == WriteMode::Bin ==> (r matches Some(FileContents::Bin(b)) && bytes_value(b@) == biguint@
            && (biguint@ == 0 ==> b@ == seq![0u8]) && (biguint@ > 0 ==> b@.len() > 0 && b@.last() != 0)),
        *write_mode == WriteMode::Txt ==> (r matches Some(FileContents::Txt(s)) && s@ == decimal(biguint@)),
        *write_mode == WriteMode::NoFile ==> r is None,
        r matches Some(c) ==> encodes(c, biguint@),
{
    match write_mode {
        WriteMode::Bin => Some(FileContents::Bin(biguint.to_bytes_le())),
        WriteMode::Txt => Some(FileContents::Txt(biguint.to_decimal_string())),
        WriteMode::NoFile => None,
    }
}

/// The number that file contents hold, with the decimal text shown for it: for
/// bytes, the decimal representation of their value; for text, the text itself.
/// Text that is not a decimal number is an error.
pub fn number_from_contents(contents: &FileContents) -> (r: Result<(String, BigNat), ParseNumberError>)
    ensures
        r is Ok <==> decoded(*contents) is Some,
        r matches Ok((text, v)) ==> decoded(*contents) == Some(v@) && match *contents {
            FileContents::Bin(_) => text@ == decimal(v@),
            FileContents::Txt(s) => text@ == s@,
        },
{
    match contents {
        FileContents::Bin(bytes) => {
            let v = BigNat::from_bytes_le(bytes.as_slice());
            Ok((v.to_decimal_string(), v))
        },
        FileContents::Txt(s) => {
            match BigNat::from_decimal_str(s.as_str()) {
                Ok(v) => Ok((s.clone(), v)),
                Err(e) => Err(e),
            }
        },
    }
}

/// Reading back what was written gives the number that was written, in either
/// file format.
pub proof fn lemma_write_then_read(contents: FileContents, n: nat)
    requires
        encodes(contents, n),
    ensures
        decoded(contents) == Some(n),
{
    match contents {
        FileContents::Bin(_) => {},
        FileContents::Txt(_) => {
            lemma_decimal_round_trip(n);
        },
    }
}

} // verus!
