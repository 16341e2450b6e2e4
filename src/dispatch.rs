//! Choosing a format by file extension, and the errors that cross formats.
use vstd::prelude::*;

use crate::bin::{bin_message, BinError, BinParser};
use crate::csv::{csv_message, CsvError, CsvParser};
use crate::model::{models, result_models, spells, Parser, Transaction, TxModel};
use crate::text::{split, split_positions, text_chars};
use crate::txt::{txt_message, TxtError, TxtParser};

verus! {

/// The formats.
#[derive(Debug, Clone, Copy, PartialEq, Eq, Structural)]
pub enum ParserType {
    /// Comma-separated rows, extension `csv`.
    Csv,
    /// Key/value lines, extension `txt`.
    Txt,
    /// Framed binary records, extension `bin`.
    Bin,
}

/// What goes wrong when writing.
#[derive(Debug, Clone, Copy, PartialEq, Eq, Structural)]
pub enum WriteError {
    /// The bytes could not be written.
    Write,
}

/// What goes wrong in a conversion, whatever the format.
#[derive(Debug, Clone, Copy, PartialEq, Eq, Structural)]
pub enum ParserError {
    /// No format has the file's extension.
    UnknownExt,
    /// The file could not be opened.
    FileOpen,
    /// The file could not be created.
    FileCreate,
    /// Decoding the comma-separated format failed.
    Csv(CsvError),
    /// Decoding the key/value format failed.
    Txt(TxtError),
    /// Decoding the binary format failed.
    Bin(BinError),
    /// Writing failed.
    Write(WriteError),
}

/// The text after the last dot of a name, or the whole name.
pub open spec fn extension(name: Seq<char>) -> Seq<char> {
    split(name, '.').last()
}

/// The format that an extension names.
pub open spec fn format_of(ext: Seq<char>) -> Option<ParserType> {
    if ext == "csv"@ {
        Some(ParserType::Csv)
    } else if ext == "txt"@ {
        Some(ParserType::Txt)
    } else if ext == "bin"@ {
        Some(ParserType::Bin)
    } else {
        None
    }
}

/// The message of a write error.
pub open spec fn write_message(e: WriteError) -> Seq<char> {
    "Ошибка записи"@
}

/// The message of an error.
pub open spec fn parser_message(e: ParserError) -> Seq<char> {
    match e {
        ParserError::UnknownExt => "Неизвестное расширение файла"@,
        ParserError::FileOpen => "Ошибка открытия файла"@,
        ParserError::FileCreate => "Ошибка создания файла"@,
        ParserError::Csv(inner) => "Ошибка парсера. "@ + csv_message(inner),
        ParserError::Txt(inner) => "Ошибка парсера. "@ + txt_message(inner),
        ParserError::Bin(inner) => "Ошибка парсера. "@ + bin_message(inner),
        ParserError::Write(inner) => "Ошибка парсера. "@ + write_message(inner),
    }
}

/// The outcome of decoding `data` in format `kind`, errors wrapped.
pub open spec fn decoded_as(kind: ParserType, data: Seq<u8>) -> Result<Seq<TxModel>, ParserError> {
    match kind {
        ParserType::Csv => match CsvParser::decoded(data) {
            Ok(v) => Ok(v),
            Err(e) => Err(ParserError::Csv(e)),
        },
        ParserType::Txt => match TxtParser::decoded(data) {
            Ok(v) => Ok(v),
            Err(e) => Err(ParserError::Txt(e)),
        },
        ParserType::Bin => match BinParser::decoded(data) {
            Ok(v) => Ok(v),
            Err(e) => Err(ParserError::Bin(e)),
        },
    }
}

/// The bytes that encode `transactions` in format `kind`.
pub open spec fn encoded_as(kind: ParserType, transactions: Seq<TxModel>) -> Seq<u8> {
    match kind {
        ParserType::Csv => CsvParser::encoded(transactions),
        ParserType::Txt => TxtParser::encoded(transactions),
        ParserType::Bin => BinParser::encoded(transactions),
    }
}

/// Whether format `kind` can hold `transactions`.
pub open spec fn encodable_as(kind: ParserType, transactions: Seq<TxModel>) -> bool {
    match kind {
        ParserType::Csv => CsvParser::encodable(transactions),
        ParserType::Txt => TxtParser::encodable(transactions),
        ParserType::Bin => BinParser::encodable(transactions),
    }
}

impl ParserType {
    /// The format of a file, by the text after the last dot of its name.
    pub fn get_ext(value: &str) -> (r: Result<ParserType, ParserError>)
        ensures
            match format_of(extension(value@)) {
                Some(k) => r == Ok::<ParserType, ParserError>(k),
                None => r == Err::<ParserType, ParserError>(ParserError::UnknownExt),
            },
    {
        let cs = text_chars(value);
        let seps = split_positions(cs.as_slice(), 0, cs.len(), '.');
        assert(cs@.subrange(0, cs@.len() as int) =~= cs@);
        let start: usize = if seps.len() == 0 {
            0
        } else {
            seps[seps.len() - 1] + 1
        };
        let ghost parts = split(cs@, '.');
        assert(parts.last() == parts[seps@.len() as int]);
        if spells(cs.as_slice(), start, cs.len(), "csv") {
            Ok(ParserType::Csv)
        } else if spells(cs.as_slice(), start, cs.len(), "txt") {
            Ok(ParserType::Txt)
        } else if spells(cs.as_slice(), start, cs.len(), "bin") {
            Ok(ParserType::Bin)
        } else {
            Err(ParserError::UnknownExt)
        }
    }

    /// Decodes `data` in this format.
    pub fn decode(&self, data: &[u8]) -> (r: Result<Vec<Transaction>, ParserError>)
        ensures
            result_models(r) == decoded_as(*self, data@),
    {
        match self {
            ParserType::Csv => match CsvParser::from_read(data) {
                Ok(v) => Ok(v),
                Err(e) => Err(ParserError::Csv(e)),
            },
            ParserType::Txt => match TxtParser::from_read(data) {
                Ok(v) => Ok(v),
                Err(e) => Err(ParserError::Txt(e)),
            },
            ParserType::Bin => match BinParser::from_read(data) {
                Ok(v) => Ok(v),
                Err(e) => Err(ParserError::Bin(e)),
            },
        }
    }

    /// Appends the encoding of `transactions` in this format.
    pub fn encode(&self, out: &mut Vec<u8>, transactions: &[Transaction])
        requires
            encodable_as(*self, models(transactions@)),
        ensures
            final(out)@ == old(out)@ + encoded_as(*self, models(transactions@)),
    {
        match self {
            ParserType::Csv => CsvParser::write_to(out, transactions),
            ParserType::Txt => TxtParser::write_to(out, transactions),
            ParserType::Bin => BinParser::write_to(out, transactions),
        }
    }
}

impl WriteError {
    /// The message of the error.
    pub fn to_string(&self) -> (r: String)
        ensures
            r@ == write_message(*self),
    {
        String::from_str("Ошибка записи")
    }
}

impl ParserError {
    /// The message of the error; a wrapped error adds its own message.
    pub fn to_string(&self) -> (r: String)
        ensures
            r@ == parser_message(*self),
    {
        match self {
            ParserError::UnknownExt => String::from_str("Неизвестное расширение файла"),
            ParserError::FileOpen => String::from_str("Ошибка открытия файла"),
            ParserError::FileCreate => String::from_str("Ошибка создания файла"),
            ParserError::Csv(inner) => {
                let mut r = String::from_str("Ошибка парсера. ");
                let m = inner.to_string();
                r.append(m.as_str());
                r
            },
            ParserError::Txt(inner) => {
                let mut r = String::from_str("Ошибка парсера. ");
                let m = inner.to_string();
                r.append(m.as_str());
                r
            },
            ParserError::Bin(inner) => {
                let mut r = String::from_str("Ошибка парсера. ");
                let m = inner.to_string();
                r.append(m.as_str());
                r
            },
            ParserError::Write(inner) => {
                let mut r = String::from_str("Ошибка парсера. ");
                let m = inner.to_string();
                r.append(m.as_str());
                r
            },
        }
    }
}

} // verus!
