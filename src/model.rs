//! The transaction record, its fields and their canonical names.
use vstd::prelude::*;

use crate::text::{
    dec, dec_signed, digit_of, lemma_dec_digits, push_dec, push_dec_signed, quote, text_chars,
};

verus! {

/// The fields of a transaction, in canonical order.
#[derive(Debug, Clone, Copy, PartialEq, Eq, Structural)]
pub enum Field {
    /// Unique identifier of the transaction.
    TxId,
    /// Kind of transaction.
    TxType,
    /// Identifier of the sending user.
    FromUserId,
    /// Identifier of the receiving user.
    ToUserId,
    /// Amount in the smallest unit of the currency.
    Amount,
    /// Unix time of the transaction.
    Timestamp,
    /// Outcome of the transaction.
    Status,
    /// Free text.
    Description,
}

/// Kind of transaction.
#[derive(Debug, Clone, Copy, PartialEq, Eq, Structural)]
pub enum TxType {
    /// Money comes in.
    Deposit,
    /// Money moves between users.
    Transfer,
    /// Money goes out.
    Withdrawal,
}

/// Outcome of a transaction.
#[derive(Debug, Clone, Copy, PartialEq, Eq, Structural)]
pub enum Status {
    /// Completed.
    Success,
    /// Refused.
    Failure,
    /// Not settled yet.
    Pending,
}

/// One financial transaction.
#[derive(Debug, Clone)]
pub struct Transaction {
    /// Unique identifier of the transaction.
    pub tx_id: u64,
    /// Kind of transaction.
    pub tx_type: TxType,
    /// Identifier of the sending user.
    pub from_user_id: u64,
    /// Identifier of the receiving user.
    pub to_user_id: u64,
    /// Amount in the smallest unit of the currency.
    pub amount: u64,
    /// Unix time of the transaction.
    pub timestamp: i64,
    /// Outcome of the transaction.
    pub status: Status,
    /// Free text.
    pub description: String,
}

/// What a transaction holds, with its description as characters.
pub struct TxModel {
    /// Unique identifier of the transaction.
    pub tx_id: u64,
    /// Kind of transaction.
    pub tx_type: TxType,
    /// Identifier of the sending user.
    pub from_user_id: u64,
    /// Identifier of the receiving user.
    pub to_user_id: u64,
    /// Amount in the smallest unit of the currency.
    pub amount: u64,
    /// Unix time of the transaction.
    pub timestamp: i64,
    /// Outcome of the transaction.
    pub status: Status,
    /// Free text.
    pub description: Seq<char>,
}

impl View for Transaction {
    type V = TxModel;

    open spec fn view(&self) -> TxModel {
        TxModel {
            tx_id: self.tx_id,
            tx_type: self.tx_type,
            from_user_id: self.from_user_id,
            to_user_id: self.to_user_id,
            amount: self.amount,
            timestamp: self.timestamp,
            status: self.status,
            description: self.description@,
        }
    }
}

/// The models of a sequence of transactions.
pub open spec fn models(v: Seq<Transaction>) -> Seq<TxModel> {
    v.map_values(|t: Transaction| t@)
}

/// A decoding result, with the transactions replaced by their models.
pub open spec fn result_models<E>(r: Result<Vec<Transaction>, E>) -> Result<Seq<TxModel>, E> {
    match r {
        Ok(v) => Ok(models(v@)),
        Err(e) => Err(e),
    }
}

impl PartialEq for Transaction {
    fn eq(&self, other: &Transaction) -> (r: bool)
        ensures
            r == (self@ == other@),
    {
        let same = self.tx_id == other.tx_id && self.tx_type == other.tx_type && self.from_user_id
            == other.from_user_id && self.to_user_id == other.to_user_id && self.amount
            == other.amount && self.timestamp == other.timestamp && self.status == other.status
            && self.description == other.description;
        same
    }
}

impl vstd::std_specs::cmp::PartialEqSpecImpl for Transaction {
    open spec fn obeys_eq_spec() -> bool {
        true
    }

    open spec fn eq_spec(&self, other: &Transaction) -> bool {
        self@ == other@
    }
}

impl Eq for Transaction {

}

impl Default for Transaction {
    fn default() -> (r: Transaction)
        ensures
            r@ == (TxModel {
                tx_id: 0,
                tx_type: TxType::Deposit,
                from_user_id: 0,
                to_user_id: 0,
                amount: 0,
                timestamp: 0,
                status: Status::Success,
                description: Seq::empty(),
            }),
    {
        Transaction {
            tx_id: 0,
            tx_type: TxType::Deposit,
            from_user_id: 0,
            to_user_id: 0,
            amount: 0,
            timestamp: 0,
            status: Status::Success,
            description: String::new(),
        }
    }
}

impl Default for TxType {
    fn default() -> (r: TxType)
        ensures
            r == TxType::Deposit,
    {
        TxType::Deposit
    }
}

impl Default for Status {
    fn default() -> (r: Status)
        ensures
            r == Status::Success,
    {
        Status::Success
    }
}

/// A format of transaction records: how bytes decode to transactions and
/// how transactions encode to bytes.
pub trait Parser {
    /// What goes wrong when decoding.
    type Error;

    /// Whether the format can hold these transactions.
    spec fn encodable(transactions: Seq<TxModel>) -> bool;

    /// The outcome of decoding `data`.
    spec fn decoded(data: Seq<u8>) -> Result<Seq<TxModel>, Self::Error>;

    /// The bytes that encode `transactions`.
    spec fn encoded(transactions: Seq<TxModel>) -> Seq<u8>;

    /// Reads every record of `data`.
    fn from_read(data: &[u8]) -> (r: Result<Vec<Transaction>, Self::Error>)
        ensures
            result_models(r) == Self::decoded(data@),
    ;

    /// Appends the encoding of `transactions` to `out`.
    fn write_to(out: &mut Vec<u8>, transactions: &[Transaction])
        requires
            Self::encodable(models(transactions@)),
        ensures
            final(out)@ == old(out)@ + Self::encoded(models(transactions@)),
    ;
}

// ---------------------------------------------------------------------------
// Canonical names
// ---------------------------------------------------------------------------

/// The eight fields in canonical order.
pub open spec fn canonical_fields() -> Seq<Field> {
    seq![
        Field::TxId,
        Field::TxType,
        Field::FromUserId,
        Field::ToUserId,
        Field::Amount,
        Field::Timestamp,
        Field::Status,
        Field::Description,
    ]
}

/// The canonical name of a field.
pub open spec fn field_name(f: Field) -> Seq<char> {
    match f {
        Field::TxId => seq!['T', 'X', '_', 'I', 'D'],
        Field::TxType => seq!['T', 'X', '_', 'T', 'Y', 'P', 'E'],
        Field::FromUserId => seq!['F', 'R', 'O', 'M', '_', 'U', 'S', 'E', 'R', '_', 'I', 'D'],
        Field::ToUserId => seq!['T', 'O', '_', 'U', 'S', 'E', 'R', '_', 'I', 'D'],
        Field::Amount => seq!['A', 'M', 'O', 'U', 'N', 'T'],
        Field::Timestamp => seq!['T', 'I', 'M', 'E', 'S', 'T', 'A', 'M', 'P'],
        Field::Status => seq!['S', 'T', 'A', 'T', 'U', 'S'],
        Field::Description => seq!['D', 'E', 'S', 'C', 'R', 'I', 'P', 'T', 'I', 'O', 'N'],
    }
}

/// The field whose canonical name is `s`.
pub open spec fn field_named(s: Seq<char>) -> Option<Field> {
    if s == field_name(Field::TxId) {
        Some(Field::TxId)
    } else if s == field_name(Field::TxType) {
        Some(Field::TxType)
    } else if s == field_name(Field::FromUserId) {
        Some(Field::FromUserId)
    } else if s == field_name(Field::ToUserId) {
        Some(Field::ToUserId)
    } else if s == field_name(Field::Amount) {
        Some(Field::Amount)
    } else if s == field_name(Field::Timestamp) {
        Some(Field::Timestamp)
    } else if s == field_name(Field::Status) {
        Some(Field::Status)
    } else if s == field_name(Field::Description) {
        Some(Field::Description)
    } else {
        None
    }
}

/// The canonical token of a transaction kind.
pub open spec fn tx_type_token(t: TxType) -> Seq<char> {
    match t {
        TxType::Deposit => seq!['D', 'E', 'P', 'O', 'S', 'I', 'T'],
        TxType::Transfer => seq!['T', 'R', 'A', 'N', 'S', 'F', 'E', 'R'],
        TxType::Withdrawal => seq!['W', 'I', 'T', 'H', 'D', 'R', 'A', 'W', 'A', 'L'],
    }
}

/// The transaction kind whose token is `s`.
pub open spec fn tx_type_of(s: Seq<char>) -> Option<TxType> {
    if s == tx_type_token(TxType::Deposit) {
        Some(TxType::Deposit)
    } else if s == tx_type_token(TxType::Transfer) {
        Some(TxType::Transfer)
    } else if s == tx_type_token(TxType::Withdrawal) {
        Some(TxType::Withdrawal)
    } else {
        None
    }
}

/// The canonical token of a status.
pub open spec fn status_token(s: Status) -> Seq<char> {
    match s {
        Status::Success => seq!['S', 'U', 'C', 'C', 'E', 'S', 'S'],
        Status::Failure => seq!['F', 'A', 'I', 'L', 'U', 'R', 'E'],
        Status::Pending => seq!['P', 'E', 'N', 'D', 'I', 'N', 'G'],
    }
}

/// The status whose token is `s`.
pub open spec fn status_of(s: Seq<char>) -> Option<Status> {
    if s == status_token(Status::Success) {
        Some(Status::Success)
    } else if s == status_token(Status::Failure) {
        Some(Status::Failure)
    } else if s == status_token(Status::Pending) {
        Some(Status::Pending)
    } else {
        None
    }
}

/// The text of a field of a transaction: numbers in decimal, the kind and
/// the status as their tokens, the description as it is.
pub open spec fn field_value(t: TxModel, f: Field) -> Seq<char> {
    match f {
        Field::TxId => dec(t.tx_id as nat),
        Field::TxType => tx_type_token(t.tx_type),
        Field::FromUserId => dec(t.from_user_id as nat),
        Field::ToUserId => dec(t.to_user_id as nat),
        Field::Amount => dec(t.amount as nat),
        Field::Timestamp => dec_signed(t.timestamp as int),
        Field::Status => status_token(t.status),
        Field::Description => t.description,
    }
}

/// The text of a field as the formats write it: the description between
/// double quotes, every other field as `field_value` gives it.
pub open spec fn written_value(t: TxModel, f: Field) -> Seq<char> {
    if f == Field::Description {
        quote(t.description)
    } else {
        field_value(t, f)
    }
}

pub proof fn lemma_tokens_round_trip()
    ensures
        forall|f: Field| field_named(#[trigger] field_name(f)) == Some(f),
        forall|t: TxType| tx_type_of(#[trigger] tx_type_token(t)) == Some(t),
        forall|s: Status| status_of(#[trigger] status_token(s)) == Some(s),
{
    assert forall|f: Field| field_named(#[trigger] field_name(f)) == Some(f) by {
        match f {
            Field::TxId => {},
            Field::TxType => {
                assert(field_name(Field::TxType) != field_name(Field::TxId));
            },
            Field::FromUserId => {
                assert(field_name(f)[1] == 'R');
                assert(field_name(Field::TxId)[1] == 'X');
                assert(field_name(Field::TxType)[1] == 'X');
            },
            Field::ToUserId => {
                assert(field_name(f)[1] == 'O');
                assert(field_name(Field::TxId)[1] == 'X');
                assert(field_name(Field::TxType)[1] == 'X');
                assert(field_name(Field::FromUserId)[1] == 'R');
            },
            Field::Amount => {
                assert(field_name(f).len() == 6);
                assert(field_name(f)[0] == 'A');
            },
            Field::Timestamp => {
                assert(field_name(f).len() == 9);
                assert(field_name(f)[1] == 'I');
            },
            Field::Status => {
                assert(field_name(f).len() == 6);
                assert(field_name(f)[0] == 'S');
            },
            Field::Description => {
                assert(field_name(f).len() == 11);
                assert(field_name(f)[0] == 'D');
            },
        }
    }
    assert forall|t: TxType| tx_type_of(#[trigger] tx_type_token(t)) == Some(t) by {
        match t {
            TxType::Deposit => {},
            TxType::Transfer => {
                assert(tx_type_token(t).len() == 8);
            },
            TxType::Withdrawal => {
                assert(tx_type_token(t).len() == 10);
            },
        }
    }
    assert forall|s: Status| status_of(#[trigger] status_token(s)) == Some(s) by {
        match s {
            Status::Success => {},
            Status::Failure => {
                assert(status_token(s)[0] == 'F');
            },
            Status::Pending => {
                assert(status_token(s)[0] == 'P');
            },
        }
    }
}

/// Whether `s[start..end]` spells `word`.
pub fn spells(s: &[char], start: usize, end: usize, word: &str) -> (r: bool)
    requires
        start <= end <= s@.len(),
    ensures
        r == (s@.subrange(start as int, end as int) == word@),
{
    let w = text_chars(word);
    if end - start != w.len() {
        return false;
    }
    let mut i: usize = 0;
    while i < w.len()
        invariant
            end - start == w@.len(),
            start <= end <= s@.len(),
            0 <= i <= w@.len(),
            w@ == word@,
            forall|j: int| 0 <= j < i ==> s@[start + j] == w@[j],
        decreases w@.len() - i,
    {
        if s[start + i] != w[i] {
            assert(s@.subrange(start as int, end as int)[i as int] != w@[i as int]);
            return false;
        }
        i = i + 1;
    }
    assert(s@.subrange(start as int, end as int) =~= w@);
    true
}

impl Field {
    /// The eight fields in canonical order.
    pub fn get_all() -> (r: [Field; 8])
        ensures
            r@ == canonical_fields(),
    {
        let r = [
            Field::TxId,
            Field::TxType,
            Field::FromUserId,
            Field::ToUserId,
            Field::Amount,
            Field::Timestamp,
            Field::Status,
            Field::Description,
        ];
        assert(r@ =~= canonical_fields());
        r
    }

    /// The canonical name.
    pub fn name(&self) -> (r: &'static str)
        ensures
            r@ == field_name(*self),
    {
        match self {
            Field::TxId => {
                proof {
                    reveal_strlit("TX_ID");
                }
                assert("TX_ID"@ =~= field_name(*self));
                "TX_ID"
            },
            Field::TxType => {
                proof {
                    reveal_strlit("TX_TYPE");
                }
                assert("TX_TYPE"@ =~= field_name(*self));
                "TX_TYPE"
            },
            Field::FromUserId => {
                proof {
                    reveal_strlit("FROM_USER_ID");
                }
                assert("FROM_USER_ID"@ =~= field_name(*self));
                "FROM_USER_ID"
            },
            Field::ToUserId => {
                proof {
                    reveal_strlit("TO_USER_ID");
                }
                assert("TO_USER_ID"@ =~= field_name(*self));
                "TO_USER_ID"
            },
            Field::Amount => {
                proof {
                    reveal_strlit("AMOUNT");
                }
                assert("AMOUNT"@ =~= field_name(*self));
                "AMOUNT"
            },
            Field::Timestamp => {
                proof {
                    reveal_strlit("TIMESTAMP");
                }
                assert("TIMESTAMP"@ =~= field_name(*self));
                "TIMESTAMP"
            },
            Field::Status => {
                proof {
                    reveal_strlit("STATUS");
                }
                assert("STATUS"@ =~= field_name(*self));
                "STATUS"
            },
            Field::Description => {
                proof {
                    reveal_strlit("DESCRIPTION");
                }
                assert("DESCRIPTION"@ =~= field_name(*self));
                "DESCRIPTION"
            },
        }
    }

    /// The canonical name, as an owned string.
    pub fn to_string(&self) -> (r: String)
        ensures
            r@ == field_name(*self),
    {
        String::from_str(self.name())
    }

    /// The field whose canonical name is `s[start..end]`.
    pub fn from_name(s: &[char], start: usize, end: usize) -> (r: Option<Field>)
        requires
            start <= end <= s@.len(),
        ensures
            r == field_named(s@.subrange(start as int, end as int)),
    {
        let all = Field::get_all();
        let mut i: usize = 0;
        while i < 8
            invariant
                0 <= i <= 8,
                all@ == canonical_fields(),
                start <= end <= s@.len(),
                forall|j: int|
                    0 <= j < i ==> s@.subrange(start as int, end as int) != field_name(
                        #[trigger] canonical_fields()[j],
                    ),
            decreases 8 - i,
        {
            let f = all[i];
            if spells(s, start, end, f.name()) {
                proof {
                    let t = s@.subrange(start as int, end as int);
                    if i > 0 {
                        assert(t != field_name(canonical_fields()[0]));
                    }
                    if i > 1 {
                        assert(t != field_name(canonical_fields()[1]));
                    }
                    if i > 2 {
                        assert(t != field_name(canonical_fields()[2]));
                    }
                    if i > 3 {
                        assert(t != field_name(canonical_fields()[3]));
                    }
                    if i > 4 {
                        assert(t != field_name(canonical_fields()[4]));
                    }
                    if i > 5 {
                        assert(t != field_name(canonical_fields()[5]));
                    }
                    if i > 6 {
                        assert(t != field_name(canonical_fields()[6]));
                    }
                    lemma_tokens_round_trip();
                    assert(field_named(field_name(f)) == Some(f));
                }
                return Some(f);
            }
            i = i + 1;
        }
        proof {
            let t = s@.subrange(start as int, end as int);
            assert(t != field_name(canonical_fields()[0]));
            assert(t != field_name(canonical_fields()[1]));
            assert(t != field_name(canonical_fields()[2]));
            assert(t != field_name(canonical_fields()[3]));
            assert(t != field_name(canonical_fields()[4]));
            assert(t != field_name(canonical_fields()[5]));
            assert(t != field_name(canonical_fields()[6]));
            assert(t != field_name(canonical_fields()[7]));
        }
        None
    }
}

impl TxType {
    /// The canonical token.
    pub fn token(&self) -> (r: &'static str)
        ensures
            r@ == tx_type_token(*self),
    {
        match self {
            TxType::Deposit => {
                proof {
                    reveal_strlit("DEPOSIT");
                }
                assert("DEPOSIT"@ =~= tx_type_token(*self));
                "DEPOSIT"
            },
            TxType::Transfer => {
                proof {
                    reveal_strlit("TRANSFER");
                }
                assert("TRANSFER"@ =~= tx_type_token(*self));
                "TRANSFER"
            },
            TxType::Withdrawal => {
                proof {
                    reveal_strlit("WITHDRAWAL");
                }
                assert("WITHDRAWAL"@ =~= tx_type_token(*self));
                "WITHDRAWAL"
            },
        }
    }

    /// The kind whose token is `s[start..end]`.
    pub fn from_token(s: &[char], start: usize, end: usize) -> (r: Option<TxType>)
        requires
            start <= end <= s@.len(),
        ensures
            r == tx_type_of(s@.subrange(start as int, end as int)),
    {
        if spells(s, start, end, TxType::Deposit.token()) {
            Some(TxType::Deposit)
        } else if spells(s, start, end, TxType::Transfer.token()) {
            Some(TxType::Transfer)
        } else if spells(s, start, end, TxType::Withdrawal.token()) {
            Some(TxType::Withdrawal)
        } else {
            None
        }
    }
}

impl Status {
    /// The canonical token.
    pub fn token(&self) -> (r: &'static str)
        ensures
            r@ == status_token(*self),
    {
        match self {
            Status::Success => {
                proof {
                    reveal_strlit("SUCCESS");
                }
                assert("SUCCESS"@ =~= status_token(*self));
                "SUCCESS"
            },
            Status::Failure => {
                proof {
                    reveal_strlit("FAILURE");
                }
                assert("FAILURE"@ =~= status_token(*self));
                "FAILURE"
            },
            Status::Pending => {
                proof {
                    reveal_strlit("PENDING");
                }
                assert("PENDING"@ =~= status_token(*self));
                "PENDING"
            },
        }
    }

    /// The status whose token is `s[start..end]`.
    pub fn from_token(s: &[char], start: usize, end: usize) -> (r: Option<Status>)
        requires
            start <= end <= s@.len(),
        ensures
            r == status_of(s@.subrange(start as int, end as int)),
    {
        if spells(s, start, end, Status::Success.token()) {
            Some(Status::Success)
        } else if spells(s, start, end, Status::Failure.token()) {
            Some(Status::Failure)
        } else if spells(s, start, end, Status::Pending.token()) {
            Some(Status::Pending)
        } else {
            None
        }
    }
}

impl Transaction {
    /// The text of one field, as every text format writes it.
    pub fn get_value(&self, field: &Field) -> (r: String)
        ensures
            r@ == field_value(self@, *field),
    {
        let mut r = String::new();
        match field {
            Field::TxId => push_dec(&mut r, self.tx_id),
            Field::TxType => r.append(self.tx_type.token()),
            Field::FromUserId => push_dec(&mut r, self.from_user_id),
            Field::ToUserId => push_dec(&mut r, self.to_user_id),
            Field::Amount => push_dec(&mut r, self.amount),
            Field::Timestamp => push_dec_signed(&mut r, self.timestamp),
            Field::Status => r.append(self.status.token()),
            Field::Description => r.append(self.description.as_str()),
        }
        assert(r@ =~= field_value(self@, *field));
        r
    }
}

/// The written text of a field holds no comma or line feed that its
/// description does not hold, and never ends with a carriage return.
pub proof fn lemma_written_value_free(t: TxModel, f: Field, c: char)
    requires
        c == ',' || c == '\n',
        !t.description.contains(c),
    ensures
        !written_value(t, f).contains(c),
        written_value(t, f).len() > 0,
        written_value(t, f).last() != '\r',
{
    lemma_dec_digits(t.tx_id as nat);
    lemma_dec_digits(t.from_user_id as nat);
    lemma_dec_digits(t.to_user_id as nat);
    lemma_dec_digits(t.amount as nat);
    let m: nat = if t.timestamp < 0 {
        (-t.timestamp) as nat
    } else {
        t.timestamp as nat
    };
    lemma_dec_digits(m);
    let v = written_value(t, f);
    match f {
        Field::Description => {
            assert(v.last() == '"');
            if v.contains(c) {
                let k = choose|k: int| 0 <= k < v.len() && v[k] == c;
                assert(t.description[k - 1] == c);
            }
        },
        Field::TxType => {
            assert(forall|k: int| 0 <= k < v.len() ==> v[k] != c);
        },
        Field::Status => {
            assert(forall|k: int| 0 <= k < v.len() ==> v[k] != c);
        },
        Field::Timestamp => {
            let d = dec(m);
            assert(digit_of(d.last()) is Some) by {
                assert(d.last() == d[d.len() - 1]);
            }
            if v.contains(c) {
                let k = choose|k: int| 0 <= k < v.len() && v[k] == c;
                if t.timestamp < 0 {
                    assert(digit_of(d[k - 1]) is Some);
                } else {
                    assert(digit_of(d[k]) is Some);
                }
            }
        },
        _ => {
            let d = v;
            assert(digit_of(d.last()) is Some) by {
                assert(d.last() == d[d.len() - 1]);
            }
            if v.contains(c) {
                let k = choose|k: int| 0 <= k < v.len() && v[k] == c;
                assert(digit_of(d[k]) is Some);
            }
        },
    }
}

/// Field names hold neither a colon nor a line feed, and none starts with `#`.
pub proof fn lemma_name_chars(f: Field)
    ensures
        forall|j: int|
            0 <= j < field_name(f).len() ==> #[trigger] field_name(f)[j] != ':' && field_name(
                f,
            )[j] != '\n',
        field_name(f).len() > 0,
        field_name(f)[0] != '#',
{
}

} // verus!
