//! The binary format: records framed by a magic number, big-endian integers
//! and a length-prefixed quoted description.
use vstd::prelude::*;
use vstd::utf8::*;

use crate::model::{field_name, models, result_models, Field, Parser, Status, Transaction, TxModel, TxType};
use crate::text::{dec, push_bytes, push_char, push_dec, push_text, quote, unquote, unquote_at, utf8_text};

verus! {

/// What goes wrong when decoding the binary format.
#[derive(Debug, Clone, Copy, PartialEq, Eq, Structural)]
pub enum BinError {
    /// An error of no known kind.
    Unknown,
    /// The bytes could not be read.
    Read,
    /// The record ends before its last field.
    InvalidLength {
        /// Index of the record.
        index: usize,
    },
    /// The record does not start with the magic bytes.
    InvalidMagic {
        /// Index of the record.
        index: usize,
    },
    /// The record size field is wrong.
    InvalidRecordSize {
        /// Index of the record.
        index: usize,
    },
    /// A field holds a value outside its type.
    InvalidField {
        /// Index of the record.
        index: usize,
        /// The field.
        field: Field,
    },
    /// The description length is negative.
    InvalidDescLen {
        /// Index of the record.
        index: usize,
    },
}

/// The binary format.
pub struct BinParser;

/// The message of an error.
pub open spec fn bin_message(e: BinError) -> Seq<char> {
    match e {
        BinError::Unknown => "Неизвестная ошибка"@,
        BinError::Read => "Ошибка чтения"@,
        BinError::InvalidLength { index } => "Неожиданное завершение записи "@ + dec(
            index as nat,
        ),
        BinError::InvalidMagic { index } => "Некорректный MAGIC в записи "@ + dec(index as nat),
        BinError::InvalidRecordSize { index } => "Некорректный RECORD_SIZE в записи "@ + dec(
            index as nat,
        ),
        BinError::InvalidDescLen { index } => "Некорректный DESC_LEN в записи "@ + dec(
            index as nat,
        ),
        BinError::InvalidField { index, field } => "Ошибка парсинга поля "@ + field_name(field)
            + " в записи "@ + dec(index as nat),
    }
}

impl BinError {
    /// The message of the error.
    pub fn to_string(&self) -> (r: String)
        ensures
            r@ == bin_message(*self),
    {
        match self {
            BinError::Unknown => String::from_str("Неизвестная ошибка"),
            BinError::Read => String::from_str("Ошибка чтения"),
            BinError::InvalidLength { index } => {
                let mut r = String::from_str("Неожиданное завершение записи ");
                push_dec(&mut r, *index as u64);
                r
            },
            BinError::InvalidMagic { index } => {
                let mut r = String::from_str("Некорректный MAGIC в записи ");
                push_dec(&mut r, *index as u64);
                r
            },
            BinError::InvalidRecordSize { index } => {
                let mut r = String::from_str("Некорректный RECORD_SIZE в записи ");
                push_dec(&mut r, *index as u64);
                r
            },
            BinError::InvalidDescLen { index } => {
                let mut r = String::from_str("Некорректный DESC_LEN в записи ");
                push_dec(&mut r, *index as u64);
                r
            },
            BinError::InvalidField { index, field } => {
                let mut r = String::from_str("Ошибка парсинга поля ");
                r.append(field.name());
                r.append(" в записи ");
                push_dec(&mut r, *index as u64);
                r
            },
        }
    }
}

/// Bytes of a record after the record size field, without the description.
pub const FIXED_TAIL_LEN: u64 = 46;

/// The magic bytes that open every record: `YPBN`.
pub open spec fn magic() -> Seq<u8> {
    seq![0x59u8, 0x50u8, 0x42u8, 0x4Eu8]
}

/// `256` to the power `k`.
pub open spec fn pow256(k: nat) -> nat
    decreases k,
{
    if k == 0 {
        1
    } else {
        256 * pow256((k - 1) as nat)
    }
}

/// The number that bytes denote in big-endian order.
pub open spec fn be_value(s: Seq<u8>) -> nat
    decreases s.len(),
{
    if s.len() == 0 {
        0
    } else {
        (be_value(s.drop_last()) * 256 + s.last()) as nat
    }
}

/// The `k` low bytes of `n`, in big-endian order.
pub open spec fn be_bytes(n: nat, k: nat) -> Seq<u8>
    decreases k,
{
    if k == 0 {
        seq![]
    } else {
        be_bytes(n / 256, (k - 1) as nat).push((n % 256) as u8)
    }
}

/// A 64-bit pattern read as a two's complement number.
pub open spec fn signed64(v: nat) -> int {
    if v < 0x8000_0000_0000_0000 {
        v as int
    } else {
        v - 0x1_0000_0000_0000_0000
    }
}

/// The 64-bit two's complement pattern of a number.
pub open spec fn unsigned64(v: int) -> nat {
    if v >= 0 {
        v as nat
    } else {
        (v + 0x1_0000_0000_0000_0000) as nat
    }
}

/// A 32-bit pattern read as a two's complement number.
pub open spec fn signed32(v: nat) -> int {
    if v < 0x8000_0000 {
        v as int
    } else {
        v - 0x1_0000_0000
    }
}

/// The byte that codes a transaction kind.
pub open spec fn tx_type_code(t: TxType) -> u8 {
    match t {
        TxType::Deposit => 0,
        TxType::Transfer => 1,
        TxType::Withdrawal => 2,
    }
}

/// The transaction kind that a byte codes.
pub open spec fn tx_type_of_code(b: u8) -> Option<TxType> {
    if b == 0 {
        Some(TxType::Deposit)
    } else if b == 1 {
        Some(TxType::Transfer)
    } else if b == 2 {
        Some(TxType::Withdrawal)
    } else {
        None
    }
}

/// The byte that codes a status.
pub open spec fn status_code(s: Status) -> u8 {
    match s {
        Status::Success => 0,
        Status::Failure => 1,
        Status::Pending => 2,
    }
}

/// The status that a byte codes.
pub open spec fn status_of_code(b: u8) -> Option<Status> {
    if b == 0 {
        Some(Status::Success)
    } else if b == 1 {
        Some(Status::Failure)
    } else if b == 2 {
        Some(Status::Pending)
    } else {
        None
    }
}

/// The description length that the record at the start of `s` declares.
pub open spec fn desc_len(s: Seq<u8>) -> int {
    signed32(be_value(s.subrange(50, 54)))
}

/// The record at the start of `s`, which is record number `index`: the
/// transaction and the number of bytes it takes, or the first fault met
/// while reading its fields in order.
#[verifier::opaque]
pub open spec fn record(s: Seq<u8>, index: usize) -> Result<(TxModel, nat), BinError> {
    if s.len() < 4 {
        Err(BinError::InvalidLength { index })
    } else if s.subrange(0, 4) != magic() {
        Err(BinError::InvalidMagic { index })
    } else if s.len() < 17 {
        Err(BinError::InvalidLength { index })
    } else if tx_type_of_code(s[16]) is None {
        Err(BinError::InvalidField { index, field: Field::TxType })
    } else if s.len() < 50 {
        Err(BinError::InvalidLength { index })
    } else if status_of_code(s[49]) is None {
        Err(BinError::InvalidField { index, field: Field::Status })
    } else if s.len() < 54 {
        Err(BinError::InvalidLength { index })
    } else if desc_len(s) < 0 {
        Err(BinError::InvalidDescLen { index })
    } else if s.len() < 54 + desc_len(s) {
        Err(BinError::InvalidLength { index })
    } else {
        let payload = s.subrange(54, 54 + desc_len(s));
        if !valid_utf8(payload) {
            Err(BinError::InvalidField { index, field: Field::Description })
        } else {
            match unquote(decode_utf8(payload)) {
                None => Err(BinError::InvalidField { index, field: Field::Description }),
                Some(d) => Ok(
                    (
                        TxModel {
                            tx_id: be_value(s.subrange(8, 16)) as u64,
                            tx_type: tx_type_of_code(s[16])->0,
                            from_user_id: be_value(s.subrange(17, 25)) as u64,
                            to_user_id: be_value(s.subrange(25, 33)) as u64,
                            amount: be_value(s.subrange(33, 41)) as u64,
                            timestamp: signed64(be_value(s.subrange(41, 49))) as i64,
                            status: status_of_code(s[49])->0,
                            description: d,
                        },
                        (54 + desc_len(s)) as nat,
                    ),
                ),
            }
        }
    }
}

/// The records of `s`, numbered from `index`, up to the first fault.
pub open spec fn records(s: Seq<u8>, index: usize) -> Result<Seq<TxModel>, BinError>
    decreases s.len(),
{
    if s.len() == 0 {
        Ok(seq![])
    } else {
        match record(s, index) {
            Err(e) => Err(e),
            Ok((t, n)) => if 0 < n <= s.len() {
                match records(s.skip(n as int), (index + 1) as usize) {
                    Err(e) => Err(e),
                    Ok(rest) => Ok(seq![t] + rest),
                }
            } else {
                // A record always takes at least its fixed part; this arm
                // only makes the recursion visibly terminate.
                Err(BinError::Unknown)
            },
        }
    }
}

/// The quoted description as it is stored: UTF-8 between double quotes.
pub open spec fn payload(t: TxModel) -> Seq<u8> {
    encode_utf8(quote(t.description))
}

/// The bytes of one record.
pub open spec fn record_bytes(t: TxModel) -> Seq<u8> {
    magic() + be_bytes((FIXED_TAIL_LEN + payload(t).len()) as nat, 4) + be_bytes(t.tx_id as nat, 8) + seq![
        tx_type_code(t.tx_type),
    ] + be_bytes(t.from_user_id as nat, 8) + be_bytes(t.to_user_id as nat, 8) + be_bytes(
        t.amount as nat,
        8,
    ) + be_bytes(unsigned64(t.timestamp as int), 8) + seq![status_code(t.status)] + be_bytes(
        payload(t).len(),
        4,
    ) + payload(t)
}

/// The records of all the transactions, one after another.
pub open spec fn records_bytes(ts: Seq<TxModel>) -> Seq<u8>
    decreases ts.len(),
{
    if ts.len() == 0 {
        seq![]
    } else {
        records_bytes(ts.drop_last()) + record_bytes(ts.last())
    }
}

/// A transaction whose description fits the length field.
pub open spec fn bin_encodable(t: TxModel) -> bool {
    payload(t).len() <= 0x7FFF_FFFF
}

impl Parser for BinParser {
    type Error = BinError;

    open spec fn encodable(transactions: Seq<TxModel>) -> bool {
        forall|i: int| 0 <= i < transactions.len() ==> bin_encodable(#[trigger] transactions[i])
    }

    open spec fn decoded(data: Seq<u8>) -> Result<Seq<TxModel>, BinError> {
        records(data, 0)
    }

    open spec fn encoded(transactions: Seq<TxModel>) -> Seq<u8> {
        records_bytes(transactions)
    }

    fn from_read(data: &[u8]) -> (r: Result<Vec<Transaction>, BinError>)
        ensures
            result_models(r) == records(data@, 0),
    {
        let mut out: Vec<Transaction> = Vec::new();
        let mut pos: usize = 0;
        let mut index: usize = 0;
        proof {
            assert(data@.skip(0) =~= data@);
            match records(data@, 0) {
                Ok(rest) => {
                    assert(models(out@) + rest =~= rest);
                },
                Err(_) => {},
            }
        }
        while pos < data.len()
            invariant
                pos <= data@.len(),
                index <= pos,
                records(data@, 0) == prepend(models(out@), records(data@.skip(pos as int), index)),
            decreases data@.len() - pos,
        {
            let ghost s = data@.skip(pos as int);
            match read_record(data, pos, index) {
                Err(e) => {
                    return Err(e);
                },
                Ok((t, n)) => {
                    proof {
                        assert(s.skip(n as int) =~= data@.skip(pos + n));
                        assert(models(out@.push(t)) =~= models(out@).push(t@));
                        match records(s.skip(n as int), (index + 1) as usize) {
                            Ok(rest) => {
                                assert(models(out@).push(t@) + rest =~= models(out@) + (seq![t@]
                                    + rest));
                            },
                            Err(_) => {},
                        }
                    }
                    out.push(t);
                    pos = pos + n;
                    index = index + 1;
                },
            }
        }
        proof {
            assert(data@.skip(pos as int) =~= Seq::<u8>::empty());
            assert(models(out@) + Seq::<TxModel>::empty() =~= models(out@));
        }
        Ok(out)
    }

    fn write_to(out: &mut Vec<u8>, transactions: &[Transaction])
        ensures
            final(out)@ == old(out)@ + records_bytes(models(transactions@)),
    {
        let mut i: usize = 0;
        while i < transactions.len()
            invariant
                0 <= i <= transactions@.len(),
                Self::encodable(models(transactions@)),
                out@ == old(out)@ + records_bytes(models(transactions@.subrange(0, i as int))),
            decreases transactions@.len() - i,
        {
            proof {
                assert(bin_encodable(models(transactions@)[i as int]));
            }
            write_record(out, &transactions[i]);
            proof {
                let m = models(transactions@.subrange(0, i + 1));
                assert(m.drop_last() =~= models(transactions@.subrange(0, i as int)));
                assert(m.last() == transactions@[i as int]@);
            }
            i = i + 1;
        }
        assert(transactions@.subrange(0, i as int) =~= transactions@);
    }
}

/// `r` with `prefix` put in front of its transactions.
pub open spec fn prepend(prefix: Seq<TxModel>, r: Result<Seq<TxModel>, BinError>) -> Result<
    Seq<TxModel>,
    BinError,
> {
    match r {
        Ok(rest) => Ok(prefix + rest),
        Err(e) => Err(e),
    }
}

pub proof fn lemma_pow256_8()
    ensures
        pow256(8) == 0x1_0000_0000_0000_0000,
        pow256(4) == 0x1_0000_0000,
{
    reveal_with_fuel(pow256, 9);
}

pub proof fn lemma_pow256_mono(a: nat, b: nat)
    requires
        a <= b,
    ensures
        pow256(a) <= pow256(b),
    decreases b,
{
    if a < b {
        lemma_pow256_mono(a, (b - 1) as nat);
    }
}

pub proof fn lemma_be_value_bound(s: Seq<u8>)
    ensures
        be_value(s) < pow256(s.len()),
    decreases s.len(),
{
    if s.len() > 0 {
        lemma_be_value_bound(s.drop_last());
        let v = be_value(s.drop_last());
        let p = pow256((s.len() - 1) as nat);
        assert(v * 256 + s.last() < 256 * p) by (nonlinear_arith)
            requires
                v < p,
                s.last() < 256,
        {}
    }
}

pub proof fn lemma_be_round_trip(n: nat, k: nat)
    requires
        n < pow256(k),
    ensures
        be_bytes(n, k).len() == k,
        be_value(be_bytes(n, k)) == n,
    decreases k,
{
    if k > 0 {
        let p = pow256((k - 1) as nat);
        assert(n / 256 < p) by (nonlinear_arith)
            requires
                n < 256 * p,
        {}
        lemma_be_round_trip(n / 256, (k - 1) as nat);
        let b = be_bytes(n, k);
        assert(b.drop_last() =~= be_bytes(n / 256, (k - 1) as nat));
        assert((n / 256) * 256 + n % 256 == n) by (nonlinear_arith);
    }
}

pub proof fn lemma_be_bytes_len(n: nat, k: nat)
    ensures
        be_bytes(n, k).len() == k,
    decreases k,
{
    if k > 0 {
        lemma_be_bytes_len(n / 256, (k - 1) as nat);
    }
}

/// Reads `k` bytes from `start` as a big-endian number.
fn read_be(data: &[u8], start: usize, k: usize) -> (r: u64)
    requires
        k <= 8,
        start + k <= data.len(),
    ensures
        r as nat == be_value(data@.subrange(start as int, start + k)),
{
    let mut acc: u64 = 0;
    let mut i: usize = 0;
    while i < k
        invariant
            k <= 8,
            start + k <= data.len(),
            0 <= i <= k,
            acc as nat == be_value(data@.subrange(start as int, start + i)),
        decreases k - i,
    {
        let ghost pre = data@.subrange(start as int, start + i);
        let ghost next = data@.subrange(start as int, start + i + 1);
        proof {
            assert(next.drop_last() =~= pre);
            lemma_be_value_bound(pre);
            lemma_pow256_mono(i as nat, 7);
            reveal_with_fuel(pow256, 8);
            assert(acc * 256 + data@[start + i] < 0x1_0000_0000_0000_0000) by (nonlinear_arith)
                requires
                    acc < pow256(i as nat),
                    pow256(i as nat) <= pow256(7),
                    pow256(7) == 0x100_0000_0000_0000,
                    data@[start + i] < 256,
            {}
        }
        acc = acc * 256 + data[start + i] as u64;
        i = i + 1;
    }
    acc
}

/// Appends the `k` low bytes of `n` in big-endian order.
fn push_be(out: &mut Vec<u8>, n: u64, k: usize)
    requires
        k <= 8,
    ensures
        final(out)@ == old(out)@ + be_bytes(n as nat, k as nat),
    decreases k,
{
    if k > 0 {
        push_be(out, n / 256, k - 1);
        out.push((n % 256) as u8);
    }
}

/// The kind that a byte codes.
fn tx_type_from_code(b: u8) -> (r: Option<TxType>)
    ensures
        r == tx_type_of_code(b),
{
    match b {
        0 => Some(TxType::Deposit),
        1 => Some(TxType::Transfer),
        2 => Some(TxType::Withdrawal),
        _ => None,
    }
}

/// The status that a byte codes.
fn status_from_code(b: u8) -> (r: Option<Status>)
    ensures
        r == status_of_code(b),
{
    match b {
        0 => Some(Status::Success),
        1 => Some(Status::Failure),
        2 => Some(Status::Pending),
        _ => None,
    }
}

/// Reads the record that starts at `pos`.
fn read_record(data: &[u8], pos: usize, index: usize) -> (r: Result<(Transaction, usize), BinError>)
    requires
        pos < data@.len(),
    ensures
        match record(data@.skip(pos as int), index) {
            Err(e) => r == Err::<(Transaction, usize), BinError>(e),
            Ok((t, n)) => r matches Ok((tr, m)) && tr@ == t && m == n && 0 < n <= data@.len()
                - pos,
        },
{
    reveal(record);
    let ghost s = data@.skip(pos as int);
    let len = data.len() - pos;
    if len < 4 {
        return Err(BinError::InvalidLength { index });
    }
    if !(data[pos] == 0x59 && data[pos + 1] == 0x50 && data[pos + 2] == 0x42 && data[pos + 3]
        == 0x4E) {
        proof {
            if s.subrange(0, 4) == magic() {
                assert(s.subrange(0, 4)[0] == s[0]);
                assert(s.subrange(0, 4)[1] == s[1]);
                assert(s.subrange(0, 4)[2] == s[2]);
                assert(s.subrange(0, 4)[3] == s[3]);
            }
        }
        return Err(BinError::InvalidMagic { index });
    }
    assert(s.subrange(0, 4) =~= magic());
    if len < 17 {
        return Err(BinError::InvalidLength { index });
    }
    let tx_type = match tx_type_from_code(data[pos + 16]) {
        Some(t) => t,
        None => {
            return Err(BinError::InvalidField { index, field: Field::TxType });
        },
    };
    if len < 50 {
        return Err(BinError::InvalidLength { index });
    }
    let status = match status_from_code(data[pos + 49]) {
        Some(t) => t,
        None => {
            return Err(BinError::InvalidField { index, field: Field::Status });
        },
    };
    if len < 54 {
        return Err(BinError::InvalidLength { index });
    }
    let raw_len = read_be(data, pos + 50, 4);
    proof {
        assert(s.subrange(50, 54) =~= data@.subrange(pos + 50, pos + 54));
        lemma_be_value_bound(data@.subrange(pos + 50, pos + 54));
        lemma_pow256_8();
    }
    if raw_len >= 0x8000_0000 {
        return Err(BinError::InvalidDescLen { index });
    }
    let dlen = raw_len as usize;
    if len - 54 < dlen {
        return Err(BinError::InvalidLength { index });
    }
    let bytes = vstd::slice::slice_subrange(data, pos + 54, pos + 54 + dlen);
    assert(bytes@ =~= s.subrange(54, 54 + desc_len(s)));
    let text = match utf8_text(bytes) {
        Some(t) => t,
        None => {
            return Err(BinError::InvalidField { index, field: Field::Description });
        },
    };
    let chars = crate::text::text_chars(text);
    let description = match unquote_at(chars.as_slice(), 0, chars.len()) {
        Some(d) => d,
        None => {
            assert(chars@.subrange(0, chars@.len() as int) =~= chars@);
            return Err(BinError::InvalidField { index, field: Field::Description });
        },
    };
    assert(chars@.subrange(0, chars@.len() as int) =~= chars@);
    let tx_id = read_be(data, pos + 8, 8);
    let from_user_id = read_be(data, pos + 17, 8);
    let to_user_id = read_be(data, pos + 25, 8);
    let amount = read_be(data, pos + 33, 8);
    let ts_raw = read_be(data, pos + 41, 8);
    let timestamp: i64 = if ts_raw < 0x8000_0000_0000_0000 {
        ts_raw as i64
    } else {
        ((ts_raw - 0x8000_0000_0000_0000) as i64) + i64::MIN
    };
    proof {
        lemma_pow256_8();
        lemma_be_value_bound(data@.subrange(pos + 8, pos + 16));
        lemma_be_value_bound(data@.subrange(pos + 17, pos + 25));
        lemma_be_value_bound(data@.subrange(pos + 25, pos + 33));
        lemma_be_value_bound(data@.subrange(pos + 33, pos + 41));
        lemma_be_value_bound(data@.subrange(pos + 41, pos + 49));
        assert(s.subrange(8, 16) =~= data@.subrange(pos + 8, pos + 16));
        assert(s.subrange(17, 25) =~= data@.subrange(pos + 17, pos + 25));
        assert(s.subrange(25, 33) =~= data@.subrange(pos + 25, pos + 33));
        assert(s.subrange(33, 41) =~= data@.subrange(pos + 33, pos + 41));
        assert(s.subrange(41, 49) =~= data@.subrange(pos + 41, pos + 49));
    }
    let t = Transaction {
        tx_id,
        tx_type,
        from_user_id,
        to_user_id,
        amount,
        timestamp,
        status,
        description,
    };
    Ok((t, 54 + dlen))
}

/// Appends the record of one transaction.
fn write_record(out: &mut Vec<u8>, t: &Transaction)
    requires
        bin_encodable(t@),
    ensures
        final(out)@ == old(out)@ + record_bytes(t@),
{
    let mut quoted = String::new();
    push_char(&mut quoted, '"');
    quoted.append(t.description.as_str());
    push_char(&mut quoted, '"');
    assert(quoted@ =~= quote(t@.description));
    let plen = quoted.as_str().len();
    let mut rec: Vec<u8> = Vec::new();
    rec.push(0x59);
    rec.push(0x50);
    rec.push(0x42);
    rec.push(0x4E);
    assert(rec@ =~= magic());
    push_be(&mut rec, FIXED_TAIL_LEN + plen as u64, 4);
    push_be(&mut rec, t.tx_id, 8);
    let ghost r1 = rec@;
    rec.push(
        match t.tx_type {
            TxType::Deposit => 0,
            TxType::Transfer => 1,
            TxType::Withdrawal => 2,
        },
    );
    assert(rec@ =~= r1 + seq![tx_type_code(t.tx_type)]);
    push_be(&mut rec, t.from_user_id, 8);
    push_be(&mut rec, t.to_user_id, 8);
    push_be(&mut rec, t.amount, 8);
    let ts_bits: u64 = if t.timestamp >= 0 {
        t.timestamp as u64
    } else {
        ((t.timestamp - i64::MIN) as u64) + 0x8000_0000_0000_0000
    };
    push_be(&mut rec, ts_bits, 8);
    let ghost r2 = rec@;
    rec.push(
        match t.status {
            Status::Success => 0,
            Status::Failure => 1,
            Status::Pending => 2,
        },
    );
    assert(rec@ =~= r2 + seq![status_code(t.status)]);
    push_be(&mut rec, plen as u64, 4);
    push_text(&mut rec, &quoted);
    assert(rec@ == record_bytes(t@));
    push_bytes(out, rec.as_slice());
}

// ---------------------------------------------------------------------------
// Laws
// ---------------------------------------------------------------------------

proof fn lemma_record_decodes(t: TxModel, rest: Seq<u8>, index: usize)
    requires
        bin_encodable(t),
    ensures
        record(record_bytes(t) + rest, index) == Ok::<(TxModel, nat), BinError>(
            (t, record_bytes(t).len()),
        ),
{
    reveal(record);
    let q = quote(t.description);
    let p = payload(t);
    let plen = p.len();
    let size = be_bytes((FIXED_TAIL_LEN + plen) as nat, 4);
    let id = be_bytes(t.tx_id as nat, 8);
    let from = be_bytes(t.from_user_id as nat, 8);
    let to = be_bytes(t.to_user_id as nat, 8);
    let amount = be_bytes(t.amount as nat, 8);
    let ts = be_bytes(unsigned64(t.timestamp as int), 8);
    let dl = be_bytes(plen, 4);
    lemma_pow256_8();
    lemma_be_round_trip(t.tx_id as nat, 8);
    lemma_be_round_trip(t.from_user_id as nat, 8);
    lemma_be_round_trip(t.to_user_id as nat, 8);
    lemma_be_round_trip(t.amount as nat, 8);
    lemma_be_round_trip(unsigned64(t.timestamp as int), 8);
    lemma_be_round_trip(plen, 4);
    lemma_be_bytes_len((FIXED_TAIL_LEN + plen) as nat, 4);
    let a0 = magic();
    let a1 = a0 + size;
    let a2 = a1 + id;
    let a3 = a2 + seq![tx_type_code(t.tx_type)];
    let a4 = a3 + from;
    let a5 = a4 + to;
    let a6 = a5 + amount;
    let a7 = a6 + ts;
    let a8 = a7 + seq![status_code(t.status)];
    let a9 = a8 + dl;
    let r = a9 + p;
    assert(r == record_bytes(t));
    let s = r + rest;
    assert(a9.len() == 54);
    assert(s.subrange(0, 4) =~= magic());
    assert(s[16] == tx_type_code(t.tx_type)) by {
        assert(a3[16] == tx_type_code(t.tx_type));
    }
    assert(s[49] == status_code(t.status)) by {
        assert(a8[49] == status_code(t.status));
    }
    assert(s.subrange(8, 16) =~= id) by {
        assert(a2.subrange(8, 16) =~= id);
    }
    assert(s.subrange(17, 25) =~= from) by {
        assert(a4.subrange(17, 25) =~= from);
    }
    assert(s.subrange(25, 33) =~= to) by {
        assert(a5.subrange(25, 33) =~= to);
    }
    assert(s.subrange(33, 41) =~= amount) by {
        assert(a6.subrange(33, 41) =~= amount);
    }
    assert(s.subrange(41, 49) =~= ts) by {
        assert(a7.subrange(41, 49) =~= ts);
    }
    assert(s.subrange(50, 54) =~= dl) by {
        assert(a9.subrange(50, 54) =~= dl);
    }
    assert(desc_len(s) == plen);
    assert(s.subrange(54, 54 + plen as int) =~= p);
    encode_utf8_valid_utf8(q);
    encode_utf8_decode_utf8(q);
    crate::text::lemma_unquote_quote(t.description);
    assert(tx_type_of_code(tx_type_code(t.tx_type)) == Some(t.tx_type));
    assert(status_of_code(status_code(t.status)) == Some(t.status));
    assert(signed64(unsigned64(t.timestamp as int)) == t.timestamp);
}

proof fn lemma_records_bytes_front(t: TxModel, ts: Seq<TxModel>)
    ensures
        records_bytes(seq![t] + ts) == record_bytes(t) + records_bytes(ts),
    decreases ts.len(),
{
    if ts.len() == 0 {
        assert((seq![t] + ts).drop_last() =~= Seq::<TxModel>::empty());
        let u = seq![t] + ts;
        assert(u.drop_last() =~= Seq::<TxModel>::empty());
        assert(u.last() == t);
        assert(records_bytes(Seq::<TxModel>::empty()) == Seq::<u8>::empty());
        assert(records_bytes(u) =~= record_bytes(t) + records_bytes(ts));
    } else {
        lemma_records_bytes_front(t, ts.drop_last());
        assert((seq![t] + ts).drop_last() =~= seq![t] + ts.drop_last());
        assert((seq![t] + ts).last() == ts.last());
        assert(records_bytes(seq![t] + ts) == records_bytes(seq![t] + ts.drop_last())
            + record_bytes(ts.last()));
        assert(records_bytes(seq![t] + ts) =~= record_bytes(t) + records_bytes(ts));
    }
}

proof fn lemma_records_decode(ts: Seq<TxModel>, index: usize)
    requires
        forall|i: int| 0 <= i < ts.len() ==> bin_encodable(#[trigger] ts[i]),
    ensures
        records(records_bytes(ts), index) == Ok::<Seq<TxModel>, BinError>(ts),
    decreases ts.len(),
{
    if ts.len() > 0 {
        let t = ts[0];
        let tail = ts.drop_first();
        assert(ts =~= seq![t] + tail);
        assert(bin_encodable(t));
        lemma_records_bytes_front(t, tail);
        lemma_record_decodes(t, records_bytes(tail), index);
        let s = records_bytes(ts);
        let n = record_bytes(t).len();
        assert(s.skip(n as int) =~= records_bytes(tail));
        assert forall|i: int| 0 <= i < tail.len() implies bin_encodable(#[trigger] tail[i]) by {
            assert(tail[i] == ts[i + 1]);
        }
        lemma_records_decode(tail, (index + 1) as usize);
        assert(record_bytes(t).len() > 0) by {
            assert(record_bytes(t)[0] == 0x59u8);
        }
        assert(s == record_bytes(t) + records_bytes(tail));
        assert(s.len() > 0);
        assert(record(s, index) == Ok::<(TxModel, nat), BinError>((t, n)));
        assert(records(s.skip(n as int), (index + 1) as usize) == Ok::<Seq<TxModel>, BinError>(tail));
        assert(records(s, index) == Ok::<Seq<TxModel>, BinError>(seq![t] + tail));
    } else {
        assert(records_bytes(ts) =~= Seq::<u8>::empty());
        assert(ts =~= Seq::<TxModel>::empty());
    }
}

/// Decoding what was encoded gives back the same transactions, in order.
pub proof fn law_bin_round_trip(transactions: Seq<TxModel>)
    requires
        BinParser::encodable(transactions),
    ensures
        BinParser::decoded(BinParser::encoded(transactions)) == Ok::<Seq<TxModel>, BinError>(
            transactions,
        ),
{
    lemma_records_decode(transactions, 0);
}

/// A buffer too short to hold the magic bytes fails with the first record
/// truncated.
pub proof fn law_bin_short_buffer(data: Seq<u8>)
    requires
        0 < data.len() < 4,
    ensures
        BinParser::decoded(data) == Err::<Seq<TxModel>, BinError>(
            BinError::InvalidLength { index: 0 },
        ),
{
    reveal(record);
}

/// A buffer that opens with the magic bytes but ends before the fixed part
/// of the first record fails with that record truncated, unless a kind or
/// status byte that it does hold is out of range.
pub proof fn law_bin_truncated_header(data: Seq<u8>)
    requires
        4 <= data.len() < 54,
        data.subrange(0, 4) == magic(),
        data.len() > 16 ==> tx_type_of_code(data[16]) is Some,
        data.len() > 49 ==> status_of_code(data[49]) is Some,
    ensures
        BinParser::decoded(data) == Err::<Seq<TxModel>, BinError>(
            BinError::InvalidLength { index: 0 },
        ),
{
    reveal(record);
}

/// A buffer whose first four bytes are not the magic bytes fails with a
/// wrong magic in the first record.
pub proof fn law_bin_bad_magic(data: Seq<u8>)
    requires
        data.len() >= 4,
        data.subrange(0, 4) != magic(),
    ensures
        BinParser::decoded(data) == Err::<Seq<TxModel>, BinError>(
            BinError::InvalidMagic { index: 0 },
        ),
{
    reveal(record);
}

} // verus!
