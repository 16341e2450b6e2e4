//! The key/value text format: one `KEY: value` line per field, records
//! closed by a blank line, `#` lines ignored.
use vstd::prelude::*;
use vstd::utf8::*;

use crate::model::{
    canonical_fields, field_name, field_named, models, result_models, status_of, tx_type_of,
    written_value, Field, Parser, Status, Transaction, TxModel, TxType,
};
use crate::text::{
    dec, line_spans, lines, parse_i64, parse_i64_at, parse_u64, parse_u64_at, push_char, push_dec, push_text,
    terminated, text_chars, unquote, unquote_at, utf8_text,
};

verus! {

/// What goes wrong when decoding the key/value format.
#[derive(Debug, Clone, Copy, PartialEq, Eq, Structural)]
pub enum TxtError {
    /// An error of no known kind.
    Unknown,
    /// The input is not UTF-8 text.
    Read,
    /// The line is not `KEY: value`.
    LineFormat {
        /// Index of the line.
        index: usize,
    },
    /// The key is no field name.
    UnknownField {
        /// Index of the line.
        index: usize,
    },
    /// The field was given before in the same record.
    FieldAlreadyExists {
        /// Index of the line.
        index: usize,
        /// The field.
        field: Field,
    },
    /// The record closes without this field.
    MissingField {
        /// Index of the line that closes the record.
        index: usize,
        /// The first field missing, in canonical order.
        field: Field,
    },
    /// The value does not parse as the field's type.
    InvalidField {
        /// Index of the line.
        index: usize,
        /// The field.
        field: Field,
    },
}

/// The key/value text format.
pub struct TxtParser;

/// The message of an error.
pub open spec fn txt_message(e: TxtError) -> Seq<char> {
    match e {
        TxtError::Unknown => "Неизвестная ошибка"@,
        TxtError::Read => "Ошибка чтения"@,
        TxtError::LineFormat { index } => "Некорректный формат в строке "@ + dec(index as nat),
        TxtError::UnknownField { index } => "Неизвестное поле в строке "@ + dec(index as nat),
        TxtError::FieldAlreadyExists { index, field } => "Повторное чтение поле "@ + field_name(
            field,
        ) + " в строке "@ + dec(index as nat),
        TxtError::MissingField { index, field } => "Отсутствует поле "@ + field_name(field)
            + " в записи на строке "@ + dec(index as nat),
        TxtError::InvalidField { index, field } => "Ошибка парсинга поля "@ + field_name(field)
            + " в строке "@ + dec(index as nat),
    }
}

impl TxtError {
    /// The message of the error.
    pub fn to_string(&self) -> (r: String)
        ensures
            r@ == txt_message(*self),
    {
        match self {
            TxtError::Unknown => String::from_str("Неизвестная ошибка"),
            TxtError::Read => String::from_str("Ошибка чтения"),
            TxtError::LineFormat { index } => {
                let mut r = String::from_str("Некорректный формат в строке ");
                push_dec(&mut r, *index as u64);
                r
            },
            TxtError::UnknownField { index } => {
                let mut r = String::from_str("Неизвестное поле в строке ");
                push_dec(&mut r, *index as u64);
                r
            },
            TxtError::FieldAlreadyExists { index, field } => {
                let mut r = String::from_str("Повторное чтение поле ");
                r.append(field.name());
                r.append(" в строке ");
                push_dec(&mut r, *index as u64);
                r
            },
            TxtError::MissingField { index, field } => {
                let mut r = String::from_str("Отсутствует поле ");
                r.append(field.name());
                r.append(" в записи на строке ");
                push_dec(&mut r, *index as u64);
                r
            },
            TxtError::InvalidField { index, field } => {
                let mut r = String::from_str("Ошибка парсинга поля ");
                r.append(field.name());
                r.append(" в строке ");
                push_dec(&mut r, *index as u64);
                r
            },
        }
    }
}

/// The fields of a record read so far; `None` for a field not read yet.
pub struct DraftModel {
    pub tx_id: Option<u64>,
    pub tx_type: Option<TxType>,
    pub from_user_id: Option<u64>,
    pub to_user_id: Option<u64>,
    pub amount: Option<u64>,
    pub timestamp: Option<i64>,
    pub status: Option<Status>,
    pub description: Option<Seq<char>>,
}

/// A record with no field read.
pub open spec fn empty_draft() -> DraftModel {
    DraftModel {
        tx_id: None,
        tx_type: None,
        from_user_id: None,
        to_user_id: None,
        amount: None,
        timestamp: None,
        status: None,
        description: None,
    }
}

/// Whether the field has been read.
pub open spec fn has_field(d: DraftModel, f: Field) -> bool {
    match f {
        Field::TxId => d.tx_id is Some,
        Field::TxType => d.tx_type is Some,
        Field::FromUserId => d.from_user_id is Some,
        Field::ToUserId => d.to_user_id is Some,
        Field::Amount => d.amount is Some,
        Field::Timestamp => d.timestamp is Some,
        Field::Status => d.status is Some,
        Field::Description => d.description is Some,
    }
}

/// The first field, in canonical order, that has not been read.
pub open spec fn first_missing(d: DraftModel) -> Option<Field> {
    if !has_field(d, Field::TxId) {
        Some(Field::TxId)
    } else if !has_field(d, Field::TxType) {
        Some(Field::TxType)
    } else if !has_field(d, Field::FromUserId) {
        Some(Field::FromUserId)
    } else if !has_field(d, Field::ToUserId) {
        Some(Field::ToUserId)
    } else if !has_field(d, Field::Amount) {
        Some(Field::Amount)
    } else if !has_field(d, Field::Timestamp) {
        Some(Field::Timestamp)
    } else if !has_field(d, Field::Status) {
        Some(Field::Status)
    } else if !has_field(d, Field::Description) {
        Some(Field::Description)
    } else {
        None
    }
}

/// The transaction of a record whose fields have all been read.
pub open spec fn complete(d: DraftModel) -> TxModel {
    TxModel {
        tx_id: d.tx_id->0,
        tx_type: d.tx_type->0,
        from_user_id: d.from_user_id->0,
        to_user_id: d.to_user_id->0,
        amount: d.amount->0,
        timestamp: d.timestamp->0,
        status: d.status->0,
        description: d.description->0,
    }
}

/// The record with field `f` read from the text `v`, if `v` parses.
pub open spec fn with_value(d: DraftModel, f: Field, v: Seq<char>) -> Option<DraftModel> {
    match f {
        Field::TxId => match parse_u64(v) {
            Some(n) => Some(DraftModel { tx_id: Some(n), ..d }),
            None => None,
        },
        Field::TxType => match tx_type_of(v) {
            Some(k) => Some(DraftModel { tx_type: Some(k), ..d }),
            None => None,
        },
        Field::FromUserId => match parse_u64(v) {
            Some(n) => Some(DraftModel { from_user_id: Some(n), ..d }),
            None => None,
        },
        Field::ToUserId => match parse_u64(v) {
            Some(n) => Some(DraftModel { to_user_id: Some(n), ..d }),
            None => None,
        },
        Field::Amount => match parse_u64(v) {
            Some(n) => Some(DraftModel { amount: Some(n), ..d }),
            None => None,
        },
        Field::Timestamp => match parse_i64(v) {
            Some(n) => Some(DraftModel { timestamp: Some(n), ..d }),
            None => None,
        },
        Field::Status => match status_of(v) {
            Some(k) => Some(DraftModel { status: Some(k), ..d }),
            None => None,
        },
        Field::Description => match unquote(v) {
            Some(s) => Some(DraftModel { description: Some(s), ..d }),
            None => None,
        },
    }
}

/// The position of the first `": "` in the line from `i` on.
pub open spec fn find_sep_from(line: Seq<char>, i: int) -> Option<int>
    decreases line.len() - i,
{
    if i < 0 || i + 1 >= line.len() {
        None
    } else if line[i] == ':' && line[i + 1] == ' ' {
        Some(i)
    } else {
        find_sep_from(line, i + 1)
    }
}

/// The decoder's state between lines: the finished transactions and the
/// record being read.
pub type TxtState = (Seq<TxModel>, DraftModel);

/// Closing the record at line `index`: nothing happens to a record with no
/// field read; a record that lacks a field fails; a full one is finished.
pub open spec fn close(st: TxtState, index: usize) -> Result<TxtState, TxtError> {
    if st.1 == empty_draft() {
        Ok(st)
    } else {
        match first_missing(st.1) {
            Some(f) => Err(TxtError::MissingField { index, field: f }),
            None => Ok((st.0.push(complete(st.1)), empty_draft())),
        }
    }
}

/// What line number `index` does to the state.
pub open spec fn txt_step(st: TxtState, line: Seq<char>, index: usize) -> Result<
    TxtState,
    TxtError,
> {
    if line.len() == 0 {
        close(st, index)
    } else if line[0] == '#' {
        Ok(st)
    } else {
        match find_sep_from(line, 0) {
            None => Err(TxtError::LineFormat { index }),
            Some(k) => match field_named(line.subrange(0, k)) {
                None => Err(TxtError::UnknownField { index }),
                Some(f) => if has_field(st.1, f) {
                    Err(TxtError::FieldAlreadyExists { index, field: f })
                } else {
                    match with_value(st.1, f, line.subrange(k + 2, line.len() as int)) {
                        None => Err(TxtError::InvalidField { index, field: f }),
                        Some(d) => Ok((st.0, d)),
                    }
                },
            },
        }
    }
}

/// The state after the lines, or the first fault.
pub open spec fn txt_run(ls: Seq<Seq<char>>) -> Result<TxtState, TxtError>
    decreases ls.len(),
{
    if ls.len() == 0 {
        Ok((seq![], empty_draft()))
    } else {
        match txt_run(ls.drop_last()) {
            Err(e) => Err(e),
            Ok(st) => txt_step(st, ls.last(), (ls.len() - 1) as usize),
        }
    }
}

/// The transactions of a text: its lines run through, and the last record
/// closed at the end.
pub open spec fn txt_decode_text(text: Seq<char>) -> Result<Seq<TxModel>, TxtError> {
    let ls = lines(text);
    match txt_run(ls) {
        Err(e) => Err(e),
        Ok(st) => match close(st, ls.len() as usize) {
            Err(e) => Err(e),
            Ok(fin) => Ok(fin.0),
        },
    }
}

/// The line of one field.
pub open spec fn kv_line(t: TxModel, f: Field) -> Seq<char> {
    field_name(f) + seq![':', ' '] + written_value(t, f)
}

/// The lines of one record: every field in canonical order, then a blank
/// line.
pub open spec fn record_lines(t: TxModel) -> Seq<Seq<char>> {
    canonical_fields().map_values(|f: Field| kv_line(t, f)).push(seq![])
}

/// The lines of all the records.
pub open spec fn all_lines(ts: Seq<TxModel>) -> Seq<Seq<char>>
    decreases ts.len(),
{
    if ts.len() == 0 {
        seq![]
    } else {
        all_lines(ts.drop_last()) + record_lines(ts.last())
    }
}

/// The text of all the records.
pub open spec fn txt_text(ts: Seq<TxModel>) -> Seq<char> {
    terminated(all_lines(ts))
}

/// A description that the format can carry: on one line.
pub open spec fn txt_encodable(t: TxModel) -> bool {
    !t.description.contains('\n')
}

// ---------------------------------------------------------------------------
// The record being read
// ---------------------------------------------------------------------------

struct RecordDraft {
    tx_id: Option<u64>,
    tx_type: Option<TxType>,
    from_user_id: Option<u64>,
    to_user_id: Option<u64>,
    amount: Option<u64>,
    timestamp: Option<i64>,
    status: Option<Status>,
    description: Option<String>,
}

impl View for RecordDraft {
    type V = DraftModel;

    closed spec fn view(&self) -> DraftModel {
        DraftModel {
            tx_id: self.tx_id,
            tx_type: self.tx_type,
            from_user_id: self.from_user_id,
            to_user_id: self.to_user_id,
            amount: self.amount,
            timestamp: self.timestamp,
            status: self.status,
            description: match self.description {
                Some(s) => Some(s@),
                None => None,
            },
        }
    }
}

impl RecordDraft {
    fn new() -> (r: RecordDraft)
        ensures
            r@ == empty_draft(),
    {
        RecordDraft {
            tx_id: None,
            tx_type: None,
            from_user_id: None,
            to_user_id: None,
            amount: None,
            timestamp: None,
            status: None,
            description: None,
        }
    }

    fn is_empty(&self) -> (r: bool)
        ensures
            r == (self@ == empty_draft()),
    {
        self.tx_id.is_none() && self.tx_type.is_none() && self.from_user_id.is_none()
            && self.to_user_id.is_none() && self.amount.is_none() && self.timestamp.is_none()
            && self.status.is_none() && self.description.is_none()
    }

    fn has_field(&self, f: Field) -> (r: bool)
        ensures
            r == has_field(self@, f),
    {
        match f {
            Field::TxId => self.tx_id.is_some(),
            Field::TxType => self.tx_type.is_some(),
            Field::FromUserId => self.from_user_id.is_some(),
            Field::ToUserId => self.to_user_id.is_some(),
            Field::Amount => self.amount.is_some(),
            Field::Timestamp => self.timestamp.is_some(),
            Field::Status => self.status.is_some(),
            Field::Description => self.description.is_some(),
        }
    }

    fn first_missing(&self) -> (r: Option<Field>)
        ensures
            r == first_missing(self@),
    {
        let all = Field::get_all();
        let mut i: usize = 0;
        while i < 8
            invariant
                0 <= i <= 8,
                all@ == canonical_fields(),
                forall|j: int| 0 <= j < i ==> has_field(self@, #[trigger] canonical_fields()[j]),
            decreases 8 - i,
        {
            if !self.has_field(all[i]) {
                proof {
                    if i > 0 {
                        assert(has_field(self@, canonical_fields()[0]));
                    }
                    if i > 1 {
                        assert(has_field(self@, canonical_fields()[1]));
                    }
                    if i > 2 {
                        assert(has_field(self@, canonical_fields()[2]));
                    }
                    if i > 3 {
                        assert(has_field(self@, canonical_fields()[3]));
                    }
                    if i > 4 {
                        assert(has_field(self@, canonical_fields()[4]));
                    }
                    if i > 5 {
                        assert(has_field(self@, canonical_fields()[5]));
                    }
                    if i > 6 {
                        assert(has_field(self@, canonical_fields()[6]));
                    }
                }
                return Some(all[i]);
            }
            i = i + 1;
        }
        proof {
            assert(has_field(self@, canonical_fields()[0]));
            assert(has_field(self@, canonical_fields()[1]));
            assert(has_field(self@, canonical_fields()[2]));
            assert(has_field(self@, canonical_fields()[3]));
            assert(has_field(self@, canonical_fields()[4]));
            assert(has_field(self@, canonical_fields()[5]));
            assert(has_field(self@, canonical_fields()[6]));
            assert(has_field(self@, canonical_fields()[7]));
        }
        None
    }
}

/// The first `": "` of `s[start..end]`, counted from `start`.
fn find_sep(s: &[char], start: usize, end: usize) -> (r: Option<usize>)
    requires
        start <= end <= s.len(),
    ensures
        match find_sep_from(s@.subrange(start as int, end as int), 0) {
            Some(k) => r == Some(k as usize),
            None => r is None,
        },
{
    let ghost line = s@.subrange(start as int, end as int);
    let mut i: usize = start;
    while end - i >= 2
        invariant
            start <= i <= end,
            end <= s.len(),
            line == s@.subrange(start as int, end as int),
            find_sep_from(line, 0) == find_sep_from(line, i - start),
        decreases end - i,
    {
        assert(line[i - start] == s@[i as int]);
        assert(line[i - start + 1] == s@[i + 1]);
        if s[i] == ':' && s[i + 1] == ' ' {
            return Some(i - start);
        }
        i = i + 1;
    }
    None
}

/// Reads the value of field `f` from `s[start..end]` into the record.
fn set_value(d: &mut RecordDraft, f: Field, s: &[char], start: usize, end: usize) -> (ok: bool)
    requires
        start <= end <= s@.len(),
    ensures
        match with_value(old(d)@, f, s@.subrange(start as int, end as int)) {
            Some(nd) => ok && final(d)@ == nd,
            None => !ok,
        },
{
    match f {
        Field::TxId => match parse_u64_at(s, start, end) {
            Some(n) => {
                d.tx_id = Some(n);
                true
            },
            None => false,
        },
        Field::TxType => match TxType::from_token(s, start, end) {
            Some(k) => {
                d.tx_type = Some(k);
                true
            },
            None => false,
        },
        Field::FromUserId => match parse_u64_at(s, start, end) {
            Some(n) => {
                d.from_user_id = Some(n);
                true
            },
            None => false,
        },
        Field::ToUserId => match parse_u64_at(s, start, end) {
            Some(n) => {
                d.to_user_id = Some(n);
                true
            },
            None => false,
        },
        Field::Amount => match parse_u64_at(s, start, end) {
            Some(n) => {
                d.amount = Some(n);
                true
            },
            None => false,
        },
        Field::Timestamp => match parse_i64_at(s, start, end) {
            Some(n) => {
                d.timestamp = Some(n);
                true
            },
            None => false,
        },
        Field::Status => match Status::from_token(s, start, end) {
            Some(k) => {
                d.status = Some(k);
                true
            },
            None => false,
        },
        Field::Description => match unquote_at(s, start, end) {
            Some(v) => {
                d.description = Some(v);
                true
            },
            None => false,
        },
    }
}

/// Closes the record at line `index`.
fn close_record(done: &mut Vec<Transaction>, d: &mut RecordDraft, index: usize) -> (r: Result<
    (),
    TxtError,
>)
    ensures
        match close((models(old(done)@), old(d)@), index) {
            Ok(st) => r is Ok && models(final(done)@) == st.0 && final(d)@ == st.1,
            Err(e) => r == Err::<(), TxtError>(e),
        },
{
    if d.is_empty() {
        return Ok(());
    }
    match d.first_missing() {
        Some(f) => Err(TxtError::MissingField { index, field: f }),
        None => {
            let description = match &d.description {
                Some(s) => s.clone(),
                None => String::new(),
            };
            let t = Transaction {
                tx_id: match d.tx_id {
                    Some(v) => v,
                    None => 0,
                },
                tx_type: match d.tx_type {
                    Some(v) => v,
                    None => TxType::Deposit,
                },
                from_user_id: match d.from_user_id {
                    Some(v) => v,
                    None => 0,
                },
                to_user_id: match d.to_user_id {
                    Some(v) => v,
                    None => 0,
                },
                amount: match d.amount {
                    Some(v) => v,
                    None => 0,
                },
                timestamp: match d.timestamp {
                    Some(v) => v,
                    None => 0,
                },
                status: match d.status {
                    Some(v) => v,
                    None => Status::Success,
                },
                description,
            };
            assert(t@ == complete(d@));
            let ghost before = done@;
            done.push(t);
            assert(models(done@) =~= models(before).push(t@));
            *d = RecordDraft::new();
            Ok(())
        },
    }
}

/// Runs line number `index`, `s[start..end]`, through the decoder.
fn step(
    done: &mut Vec<Transaction>,
    d: &mut RecordDraft,
    s: &[char],
    start: usize,
    end: usize,
    index: usize,
) -> (r: Result<(), TxtError>)
    requires
        start <= end <= s.len(),
    ensures
        match txt_step((models(old(done)@), old(d)@), s@.subrange(start as int, end as int), index) {
            Ok(st) => r is Ok && models(final(done)@) == st.0 && final(d)@ == st.1,
            Err(e) => r == Err::<(), TxtError>(e),
        },
{
    let ghost line = s@.subrange(start as int, end as int);
    if start == end {
        return close_record(done, d, index);
    }
    assert(line[0] == s@[start as int]);
    if s[start] == '#' {
        return Ok(());
    }
    let k = match find_sep(s, start, end) {
        None => {
            return Err(TxtError::LineFormat { index });
        },
        Some(k) => k,
    };
    proof {
        lemma_find_sep_bounds(line, 0);
    }
    assert(line.subrange(0, k as int) =~= s@.subrange(start as int, start + k));
    let f = match Field::from_name(s, start, start + k) {
        None => {
            return Err(TxtError::UnknownField { index });
        },
        Some(f) => f,
    };
    if d.has_field(f) {
        return Err(TxtError::FieldAlreadyExists { index, field: f });
    }
    assert(line.subrange(k + 2, line.len() as int) =~= s@.subrange(start + k + 2, end as int));
    if set_value(d, f, s, start + k + 2, end) {
        Ok(())
    } else {
        Err(TxtError::InvalidField { index, field: f })
    }
}

proof fn lemma_find_sep_bounds(line: Seq<char>, i: int)
    ensures
        find_sep_from(line, i) matches Some(k) ==> i <= k && k + 2 <= line.len() && line[k] == ':'
            && line[k + 1] == ' ',
    decreases line.len() - i,
{
    if 0 <= i && i + 1 < line.len() && !(line[i] == ':' && line[i + 1] == ' ') {
        lemma_find_sep_bounds(line, i + 1);
    }
}

impl Parser for TxtParser {
    type Error = TxtError;

    open spec fn encodable(transactions: Seq<TxModel>) -> bool {
        true
    }

    open spec fn decoded(data: Seq<u8>) -> Result<Seq<TxModel>, TxtError> {
        if !valid_utf8(data) {
            Err(TxtError::Read)
        } else {
            txt_decode_text(decode_utf8(data))
        }
    }

    open spec fn encoded(transactions: Seq<TxModel>) -> Seq<u8> {
        encode_utf8(txt_text(transactions))
    }

    fn from_read(data: &[u8]) -> (r: Result<Vec<Transaction>, TxtError>)
        ensures
            result_models(r) == Self::decoded(data@),
    {
        let text = match utf8_text(data) {
            None => {
                return Err(TxtError::Read);
            },
            Some(t) => t,
        };
        let cs = text_chars(text);
        let spans = line_spans(cs.as_slice());
        let ghost ls = lines(cs@);
        let mut done: Vec<Transaction> = Vec::new();
        let mut d = RecordDraft::new();
        let mut k: usize = 0;
        assert(ls.subrange(0, 0) =~= Seq::<Seq<char>>::empty());
        assert(models(done@) =~= Seq::<TxModel>::empty());
        assert(cs@ == decode_utf8(data@));
        while k < spans.len()
            invariant
                valid_utf8(data@),
                cs@ == decode_utf8(data@),
                ls == lines(cs@),
                spans@.len() == ls.len(),
                forall|j: int|
                    0 <= j < spans@.len() ==> (#[trigger] spans@[j]).0 <= spans@[j].1 <= cs@.len()
                        && cs@.subrange(spans@[j].0 as int, spans@[j].1 as int) == ls[j],
                0 <= k <= spans@.len(),
                txt_run(ls.subrange(0, k as int)) == Ok::<TxtState, TxtError>(
                    (models(done@), d@),
                ),
            decreases spans@.len() - k,
        {
            let (a, b) = spans[k];
            let ghost pre = ls.subrange(0, k as int);
            let ghost next = ls.subrange(0, k + 1);
            assert(next.drop_last() =~= pre);
            assert(next.last() == ls[k as int]);
            match step(&mut done, &mut d, cs.as_slice(), a, b, k) {
                Err(e) => {
                    proof {
                        assert(txt_run(next) == Err::<TxtState, TxtError>(e));
                        lemma_run_error(ls, k as int + 1, e);
                        assert(txt_decode_text(cs@) == Err::<Seq<TxModel>, TxtError>(e));
                    }
                    return Err(e);
                },
                Ok(()) => {},
            }
            k = k + 1;
        }
        assert(ls.subrange(0, k as int) =~= ls);
        match close_record(&mut done, &mut d, k) {
            Err(e) => Err(e),
            Ok(()) => Ok(done),
        }
    }

    fn write_to(out: &mut Vec<u8>, transactions: &[Transaction])
        ensures
            final(out)@ == old(out)@ + encode_utf8(txt_text(models(transactions@))),
    {
        let mut text = String::new();
        let mut i: usize = 0;
        assert(all_lines(models(transactions@.subrange(0, 0))) =~= Seq::<Seq<char>>::empty());
        while i < transactions.len()
            invariant
                0 <= i <= transactions@.len(),
                text@ == terminated(all_lines(models(transactions@.subrange(0, i as int)))),
            decreases transactions@.len() - i,
        {
            let t = &transactions[i];
            write_record(&mut text, t);
            proof {
                let m = models(transactions@.subrange(0, i + 1));
                assert(m.drop_last() =~= models(transactions@.subrange(0, i as int)));
                assert(m.last() == t@);
                crate::text::lemma_terminated_append(
                    all_lines(models(transactions@.subrange(0, i as int))),
                    record_lines(t@),
                );
            }
            i = i + 1;
        }
        assert(transactions@.subrange(0, i as int) =~= transactions@);
        push_text(out, &text);
    }
}

/// Appends the lines of one record.
fn write_record(text: &mut String, t: &Transaction)
    ensures
        final(text)@ == old(text)@ + terminated(record_lines(t@)),
{
    let all = Field::get_all();
    let ghost ls = record_lines(t@);
    let mut j: usize = 0;
    assert(ls.subrange(0, 0) =~= Seq::<Seq<char>>::empty());
    while j < 8
        invariant
            0 <= j <= 8,
            all@ == canonical_fields(),
            ls == record_lines(t@),
            text@ == old(text)@ + terminated(ls.subrange(0, j as int)),
        decreases 8 - j,
    {
        let f = all[j];
        let ghost before = text@;
        text.append(f.name());
        text.append(": ");
        if f == Field::Description {
            push_char(text, '"');
            text.append(t.description.as_str());
            push_char(text, '"');
        } else {
            let v = t.get_value(&f);
            text.append(v.as_str());
        }
        push_char(text, '\n');
        proof {
            reveal_strlit(": ");
            assert(ls[j as int] == kv_line(t@, f));
            let next = ls.subrange(0, j + 1);
            assert(next.drop_last() =~= ls.subrange(0, j as int));
            assert(text@ =~= before + kv_line(t@, f).push('\n'));
        }
        j = j + 1;
    }
    push_char(text, '\n');
    proof {
        assert(ls.subrange(0, 8).push(seq![]) =~= ls);
        assert(ls.last() == Seq::<char>::empty());
        assert(Seq::<char>::empty().push('\n') =~= seq!['\n']);
    }
}

proof fn lemma_run_error(ls: Seq<Seq<char>>, k: int, e: TxtError)
    requires
        0 <= k <= ls.len(),
        txt_run(ls.subrange(0, k)) == Err::<TxtState, TxtError>(e),
    ensures
        txt_run(ls) == Err::<TxtState, TxtError>(e),
    decreases ls.len() - k,
{
    if k < ls.len() {
        let next = ls.subrange(0, k + 1);
        assert(next.drop_last() =~= ls.subrange(0, k));
        lemma_run_error(ls, k + 1, e);
    } else {
        assert(ls.subrange(0, k) =~= ls);
    }
}

// ---------------------------------------------------------------------------
// Laws
// ---------------------------------------------------------------------------

/// A record whose first `j` fields, in canonical order, have been read
/// from `t`.
pub open spec fn prefix_draft(t: TxModel, j: int) -> DraftModel {
    DraftModel {
        tx_id: if j > 0 {
            Some(t.tx_id)
        } else {
            None
        },
        tx_type: if j > 1 {
            Some(t.tx_type)
        } else {
            None
        },
        from_user_id: if j > 2 {
            Some(t.from_user_id)
        } else {
            None
        },
        to_user_id: if j > 3 {
            Some(t.to_user_id)
        } else {
            None
        },
        amount: if j > 4 {
            Some(t.amount)
        } else {
            None
        },
        timestamp: if j > 5 {
            Some(t.timestamp)
        } else {
            None
        },
        status: if j > 6 {
            Some(t.status)
        } else {
            None
        },
        description: if j > 7 {
            Some(t.description)
        } else {
            None
        },
    }
}

proof fn lemma_find_sep_at(line: Seq<char>, i: int, k: int)
    requires
        0 <= i <= k,
        k + 1 < line.len(),
        line[k] == ':',
        line[k + 1] == ' ',
        forall|j: int| i <= j < k ==> line[j] != ':',
    ensures
        find_sep_from(line, i) == Some(k),
    decreases k - i,
{
    if i < k {
        lemma_find_sep_at(line, i + 1, k);
    }
}

/// A line `name: value` whose name holds no colon splits at the name.
proof fn lemma_kv_split(name: Seq<char>, v: Seq<char>)
    requires
        forall|j: int| 0 <= j < name.len() ==> name[j] != ':',
    ensures
        find_sep_from(name + seq![':', ' '] + v, 0) == Some(name.len() as int),
        (name + seq![':', ' '] + v).subrange(0, name.len() as int) == name,
        (name + seq![':', ' '] + v).subrange(
            name.len() + 2int,
            (name + seq![':', ' '] + v).len() as int,
        ) == v,
{
    let line = name + seq![':', ' '] + v;
    assert forall|j: int| 0 <= j < name.len() implies line[j] != ':' by {
        assert(line[j] == name[j]);
    }
    lemma_find_sep_at(line, 0, name.len() as int);
    assert(line.subrange(0, name.len() as int) =~= name);
    assert(line.subrange(name.len() + 2int, line.len() as int) =~= v);
}

proof fn lemma_kv_line(t: TxModel, f: Field)
    requires
        txt_encodable(t),
    ensures
        find_sep_from(kv_line(t, f), 0) == Some(field_name(f).len() as int),
        kv_line(t, f).subrange(0, field_name(f).len() as int) == field_name(f),
        kv_line(t, f).subrange(field_name(f).len() + 2int, kv_line(t, f).len() as int) == written_value(
            t,
            f,
        ),
        kv_line(t, f).len() > 0,
        kv_line(t, f)[0] != '#',
        crate::text::plain_line(kv_line(t, f)),
{
    let name = field_name(f);
    let v = written_value(t, f);
    let line = kv_line(t, f);
    crate::model::lemma_name_chars(f);
    crate::model::lemma_written_value_free(t, f, '\n');
    lemma_kv_split(name, v);
    assert(line[0] == name[0]);
    assert(line.last() == v.last());
    if line.contains('\n') {
        let k = choose|k: int| 0 <= k < line.len() && line[k] == '\n';
        if k < name.len() {
            assert(line[k] == name[k]);
        } else if k >= name.len() + 2 {
            assert(line[k] == v[k - name.len() - 2]);
        }
    }
}

proof fn lemma_step_field(t: TxModel, j: int, done: Seq<TxModel>, index: usize)
    requires
        0 <= j < 8,
        txt_encodable(t),
    ensures
        txt_step((done, prefix_draft(t, j)), kv_line(t, canonical_fields()[j]), index) == Ok::<
            TxtState,
            TxtError,
        >((done, prefix_draft(t, j + 1))),
{
    let f = canonical_fields()[j];
    lemma_kv_line(t, f);
    crate::model::lemma_tokens_round_trip();
    assert(field_named(field_name(f)) == Some(f));
    crate::text::lemma_parse_dec(t.tx_id);
    crate::text::lemma_parse_dec(t.from_user_id);
    crate::text::lemma_parse_dec(t.to_user_id);
    crate::text::lemma_parse_dec(t.amount);
    crate::text::lemma_parse_dec_signed(t.timestamp);
    crate::text::lemma_unquote_quote(t.description);
    assert(tx_type_of(crate::model::tx_type_token(t.tx_type)) == Some(t.tx_type));
    assert(status_of(crate::model::status_token(t.status)) == Some(t.status));
    assert(!has_field(prefix_draft(t, j), f));
    assert(with_value(prefix_draft(t, j), f, written_value(t, f)) == Some(prefix_draft(t, j + 1)));
}

proof fn lemma_record_prefix(x: Seq<Seq<char>>, t: TxModel, done: Seq<TxModel>, j: int)
    requires
        txt_run(x) == Ok::<TxtState, TxtError>((done, empty_draft())),
        0 <= j <= 8,
        txt_encodable(t),
    ensures
        txt_run(x + record_lines(t).subrange(0, j)) == Ok::<TxtState, TxtError>(
            (done, prefix_draft(t, j)),
        ),
    decreases j,
{
    let r = record_lines(t);
    if j == 0 {
        assert(x + r.subrange(0, 0) =~= x);
        assert(prefix_draft(t, 0) == empty_draft());
    } else {
        lemma_record_prefix(x, t, done, j - 1);
        let y = x + r.subrange(0, j);
        assert(y.drop_last() =~= x + r.subrange(0, j - 1));
        assert(y.last() == kv_line(t, canonical_fields()[j - 1]));
        lemma_step_field(t, j - 1, done, (y.len() - 1) as usize);
    }
}

proof fn lemma_record_run(x: Seq<Seq<char>>, t: TxModel, done: Seq<TxModel>)
    requires
        txt_run(x) == Ok::<TxtState, TxtError>((done, empty_draft())),
        txt_encodable(t),
    ensures
        txt_run(x + record_lines(t)) == Ok::<TxtState, TxtError>((done.push(t), empty_draft())),
{
    let r = record_lines(t);
    lemma_record_prefix(x, t, done, 8);
    let y = x + r;
    assert(y.drop_last() =~= x + r.subrange(0, 8));
    assert(y.last() == Seq::<char>::empty());
    assert(prefix_draft(t, 8) != empty_draft());
    assert(complete(prefix_draft(t, 8)) == t);
}

proof fn lemma_all_run(ts: Seq<TxModel>)
    requires
        forall|i: int| 0 <= i < ts.len() ==> txt_encodable(#[trigger] ts[i]),
    ensures
        txt_run(all_lines(ts)) == Ok::<TxtState, TxtError>((ts, empty_draft())),
    decreases ts.len(),
{
    if ts.len() == 0 {
        assert(all_lines(ts) =~= Seq::<Seq<char>>::empty());
        assert(ts =~= Seq::<TxModel>::empty());
    } else {
        let init = ts.drop_last();
        assert forall|i: int| 0 <= i < init.len() implies txt_encodable(#[trigger] init[i]) by {
            assert(init[i] == ts[i]);
        }
        lemma_all_run(init);
        assert(txt_encodable(ts.last())) by {
            assert(ts.last() == ts[ts.len() - 1]);
        }
        lemma_record_run(all_lines(init), ts.last(), init);
        assert(init.push(ts.last()) =~= ts);
    }
}

proof fn lemma_all_lines_plain(ts: Seq<TxModel>)
    requires
        forall|i: int| 0 <= i < ts.len() ==> txt_encodable(#[trigger] ts[i]),
    ensures
        forall|i: int|
            0 <= i < all_lines(ts).len() ==> crate::text::plain_line(#[trigger] all_lines(ts)[i]),
    decreases ts.len(),
{
    if ts.len() > 0 {
        let init = ts.drop_last();
        assert forall|i: int| 0 <= i < init.len() implies txt_encodable(#[trigger] init[i]) by {
            assert(init[i] == ts[i]);
        }
        lemma_all_lines_plain(init);
        let t = ts.last();
        assert(txt_encodable(t)) by {
            assert(t == ts[ts.len() - 1]);
        }
        let a = all_lines(init);
        let r = record_lines(t);
        assert forall|i: int| 0 <= i < all_lines(ts).len() implies crate::text::plain_line(
            #[trigger] all_lines(ts)[i],
        ) by {
            if i >= a.len() {
                let k = i - a.len();
                assert(all_lines(ts)[i] == r[k]);
                if k < 8 {
                    lemma_kv_line(t, canonical_fields()[k]);
                } else {
                    assert(r[k] == Seq::<char>::empty());
                }
            } else {
                assert(all_lines(ts)[i] == a[i]);
            }
        }
    }
}

/// Decoding what was encoded gives back the same transactions, in order,
/// when no description spans two lines.
pub proof fn law_txt_round_trip(transactions: Seq<TxModel>)
    requires
        forall|i: int| 0 <= i < transactions.len() ==> txt_encodable(#[trigger] transactions[i]),
    ensures
        TxtParser::decoded(TxtParser::encoded(transactions)) == Ok::<Seq<TxModel>, TxtError>(
            transactions,
        ),
{
    let text = txt_text(transactions);
    encode_utf8_valid_utf8(text);
    encode_utf8_decode_utf8(text);
    lemma_all_lines_plain(transactions);
    crate::text::lemma_lines_terminated(all_lines(transactions));
    lemma_all_run(transactions);
}

proof fn lemma_run_error_tail(pre: Seq<Seq<char>>, post: Seq<Seq<char>>, e: TxtError)
    requires
        txt_run(pre) == Err::<TxtState, TxtError>(e),
    ensures
        txt_run(pre + post) == Err::<TxtState, TxtError>(e),
{
    assert((pre + post).subrange(0, pre.len() as int) =~= pre);
    lemma_run_error(pre + post, pre.len() as int, e);
}

/// A second line for a field inside one record fails, naming that field
/// and the line.
pub proof fn law_txt_duplicate_field(
    text: Seq<char>,
    pre: Seq<Seq<char>>,
    f: Field,
    value: Seq<char>,
    post: Seq<Seq<char>>,
)
    requires
        lines(text) == pre.push(field_name(f) + seq![':', ' '] + value) + post,
        txt_run(pre) matches Ok(st) && has_field(st.1, f),
    ensures
        txt_decode_text(text) == Err::<Seq<TxModel>, TxtError>(
            TxtError::FieldAlreadyExists { index: pre.len() as usize, field: f },
        ),
{
    let line = field_name(f) + seq![':', ' '] + value;
    crate::model::lemma_name_chars(f);
    lemma_kv_split(field_name(f), value);
    crate::model::lemma_tokens_round_trip();
    assert(line[0] == field_name(f)[0]);
    let e = TxtError::FieldAlreadyExists { index: pre.len() as usize, field: f };
    assert(pre.push(line).drop_last() =~= pre);
    assert(txt_run(pre.push(line)) == Err::<TxtState, TxtError>(e));
    lemma_run_error_tail(pre.push(line), post, e);
}

/// A blank line that closes a record lacking exactly one field fails,
/// naming that field and the blank line.
pub proof fn law_txt_missing_field(
    text: Seq<char>,
    pre: Seq<Seq<char>>,
    f: Field,
    post: Seq<Seq<char>>,
)
    requires
        lines(text) == pre.push(seq![]) + post,
        txt_run(pre) matches Ok(st) && forall|g: Field| has_field(st.1, g) <==> g != f,
    ensures
        txt_decode_text(text) == Err::<Seq<TxModel>, TxtError>(
            TxtError::MissingField { index: pre.len() as usize, field: f },
        ),
{
    let st = txt_run(pre)->Ok_0;
    let e = TxtError::MissingField { index: pre.len() as usize, field: f };
    assert(has_field(st.1, Field::TxId) <==> Field::TxId != f);
    assert(has_field(st.1, Field::TxType) <==> Field::TxType != f);
    assert(has_field(st.1, Field::FromUserId) <==> Field::FromUserId != f);
    assert(has_field(st.1, Field::ToUserId) <==> Field::ToUserId != f);
    assert(has_field(st.1, Field::Amount) <==> Field::Amount != f);
    assert(has_field(st.1, Field::Timestamp) <==> Field::Timestamp != f);
    assert(has_field(st.1, Field::Status) <==> Field::Status != f);
    assert(has_field(st.1, Field::Description) <==> Field::Description != f);
    assert(st.1 != empty_draft()) by {
        if f == Field::TxId {
            assert(has_field(st.1, Field::TxType));
        } else {
            assert(has_field(st.1, Field::TxId));
        }
    }
    assert(first_missing(st.1) == Some(f));
    let y = pre.push(Seq::<char>::empty());
    assert(y.drop_last() =~= pre);
    assert(txt_run(y) == Err::<TxtState, TxtError>(e));
    lemma_run_error_tail(y, post, e);
}

/// A text that ends inside a record lacking exactly one field fails, naming
/// that field and the line after the last.
pub proof fn law_txt_missing_field_at_end(text: Seq<char>, f: Field)
    requires
        txt_run(lines(text)) matches Ok(st) && forall|g: Field| has_field(st.1, g) <==> g != f,
    ensures
        txt_decode_text(text) == Err::<Seq<TxModel>, TxtError>(
            TxtError::MissingField { index: lines(text).len() as usize, field: f },
        ),
{
    let st = txt_run(lines(text))->Ok_0;
    assert(has_field(st.1, Field::TxId) <==> Field::TxId != f);
    assert(has_field(st.1, Field::TxType) <==> Field::TxType != f);
    assert(has_field(st.1, Field::FromUserId) <==> Field::FromUserId != f);
    assert(has_field(st.1, Field::ToUserId) <==> Field::ToUserId != f);
    assert(has_field(st.1, Field::Amount) <==> Field::Amount != f);
    assert(has_field(st.1, Field::Timestamp) <==> Field::Timestamp != f);
    assert(has_field(st.1, Field::Status) <==> Field::Status != f);
    assert(has_field(st.1, Field::Description) <==> Field::Description != f);
    assert(st.1 != empty_draft()) by {
        if f == Field::TxId {
            assert(has_field(st.1, Field::TxType));
        } else {
            assert(has_field(st.1, Field::TxId));
        }
    }
}

} // verus!
