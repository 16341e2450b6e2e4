//! Conversion of financial transactions between a comma-separated text
//! format, a key/value text format and a framed binary format.
//!
//! Each format decodes bytes into transactions and encodes transactions
//! into bytes; decoding stops at the first fault and names where it is.

pub mod bin;
pub mod csv;
pub mod dispatch;
pub mod model;
pub mod text;
pub mod txt;

pub use crate::bin::{BinError, BinParser};
pub use crate::csv::{get_header_row, CsvError, CsvParser};
pub use crate::dispatch::{ParserError, ParserType, WriteError};
pub use crate::model::{Field, Parser, Status, Transaction, TxType};
pub use crate::text::description_trim;
pub use crate::txt::{TxtError, TxtParser};
