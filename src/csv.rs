//! The comma-separated format: a header row of field names, then one row per
//! transaction.
use vstd::prelude::*;
use vstd::utf8::*;

use crate::model::{
    canonical_fields, field_name, models, result_models, status_of, tx_type_of, written_value,
    Field, Parser, Status, Transaction, TxModel, TxType,
};
use crate::text::{
    line_spans, lines, parse_i64, parse_i64_at, parse_u64, parse_u64_at, piece_end, piece_start,
    dec, push_char, push_dec_succ, push_text, split, split_positions, terminated, text_chars, unquote, unquote_at,
    utf8_text,
};

verus! {

/// What goes wrong when decoding the comma-separated format.
#[derive(Debug, Clone, Copy, PartialEq, Eq, Structural)]
pub enum CsvError {
    /// The input is not UTF-8 text.
    Read,
    /// The first line is not the header row.
    Header,
    /// A row does not have eight columns.
    Length {
        /// Index of the row among the lines after the header.
        index: usize,
    },
    /// A column does not parse as its field's type.
    InvalidField {
        /// Index of the row among the lines after the header.
        index: usize,
        /// The field.
        field: Field,
    },
}

/// The comma-separated format.
pub struct CsvParser;

/// The message of an error. It names the line of the file, counted from
/// zero with the header as line zero: the row's index plus one.
pub open spec fn csv_message(e: CsvError) -> Seq<char> {
    match e {
        CsvError::Read => "Ошибка чтения"@,
        CsvError::Header => "Некорректный заголовок"@,
        CsvError::Length { index } => "Некорректное количество элементов в строке "@ + dec(
            (index + 1) as nat,
        ),
        CsvError::InvalidField { index, field } => "Ошибка парсинга поля "@ + field_name(field)
            + " в строке "@ + dec((index + 1) as nat),
    }
}

impl CsvError {
    /// The message of the error.
    pub fn to_string(&self) -> (r: String)
        ensures
            r@ == csv_message(*self),
    {
        match self {
            CsvError::Read => String::from_str("Ошибка чтения"),
            CsvError::Header => String::from_str("Некорректный заголовок"),
            CsvError::Length { index } => {
                let mut r = String::from_str("Некорректное количество элементов в строке ");
                push_dec_succ(&mut r, *index as u64);
                r
            },
            CsvError::InvalidField { index, field } => {
                let mut r = String::from_str("Ошибка парсинга поля ");
                r.append(field.name());
                r.append(" в строке ");
                push_dec_succ(&mut r, *index as u64);
                r
            },
        }
    }
}

/// Texts joined with commas between them.
pub open spec fn join(cols: Seq<Seq<char>>) -> Seq<char>
    decreases cols.len(),
{
    if cols.len() == 0 {
        seq![]
    } else if cols.len() == 1 {
        cols[0]
    } else {
        join(cols.drop_last()).push(',') + cols.last()
    }
}

/// The header row: the field names in canonical order.
pub open spec fn header_text() -> Seq<char> {
    join(canonical_fields().map_values(|f: Field| field_name(f)))
}

/// The columns of one transaction, in canonical order.
pub open spec fn row_columns(t: TxModel) -> Seq<Seq<char>> {
    canonical_fields().map_values(|f: Field| written_value(t, f))
}

/// The row of one transaction.
pub open spec fn row_text(t: TxModel) -> Seq<char> {
    join(row_columns(t))
}

/// The transaction in eight columns, or the first column, in order, that
/// does not parse.
pub open spec fn row_fields(cols: Seq<Seq<char>>, index: usize) -> Result<TxModel, CsvError> {
    match parse_u64(cols[0]) {
        None => Err(CsvError::InvalidField { index, field: Field::TxId }),
        Some(tx_id) => match tx_type_of(cols[1]) {
            None => Err(CsvError::InvalidField { index, field: Field::TxType }),
            Some(tx_type) => match parse_u64(cols[2]) {
                None => Err(CsvError::InvalidField { index, field: Field::FromUserId }),
                Some(from_user_id) => match parse_u64(cols[3]) {
                    None => Err(CsvError::InvalidField { index, field: Field::ToUserId }),
                    Some(to_user_id) => match parse_u64(cols[4]) {
                        None => Err(CsvError::InvalidField { index, field: Field::Amount }),
                        Some(amount) => match parse_i64(cols[5]) {
                            None => Err(CsvError::InvalidField { index, field: Field::Timestamp }),
                            Some(timestamp) => match status_of(cols[6]) {
                                None => Err(CsvError::InvalidField { index, field: Field::Status }),
                                Some(status) => match unquote(cols[7]) {
                                    None => Err(
                                        CsvError::InvalidField { index, field: Field::Description },
                                    ),
                                    Some(description) => Ok(
                                        TxModel {
                                            tx_id,
                                            tx_type,
                                            from_user_id,
                                            to_user_id,
                                            amount,
                                            timestamp,
                                            status,
                                            description,
                                        },
                                    ),
                                },
                            },
                        },
                    },
                },
            },
        },
    }
}

/// The transaction of a data row.
pub open spec fn csv_row(line: Seq<char>, index: usize) -> Result<TxModel, CsvError> {
    let cols = split(line, ',');
    if cols.len() != 8 {
        Err(CsvError::Length { index })
    } else {
        row_fields(cols, index)
    }
}

/// The transactions of the lines after the header, empty lines skipped, up
/// to the first fault.
pub open spec fn csv_rows(rows: Seq<Seq<char>>) -> Result<Seq<TxModel>, CsvError>
    decreases rows.len(),
{
    if rows.len() == 0 {
        Ok(seq![])
    } else {
        match csv_rows(rows.drop_last()) {
            Err(e) => Err(e),
            Ok(acc) => if rows.last().len() == 0 {
                Ok(acc)
            } else {
                match csv_row(rows.last(), (rows.len() - 1) as usize) {
                    Err(e) => Err(e),
                    Ok(t) => Ok(acc.push(t)),
                }
            },
        }
    }
}

/// The transactions of a text: the header row first, then the data rows.
pub open spec fn csv_decode_text(text: Seq<char>) -> Result<Seq<TxModel>, CsvError> {
    let ls = lines(text);
    if ls.len() == 0 || ls[0] != header_text() {
        Err(CsvError::Header)
    } else {
        csv_rows(ls.drop_first())
    }
}

/// The text of the header row and the rows of all the transactions.
pub open spec fn csv_text(ts: Seq<TxModel>) -> Seq<char> {
    terminated(seq![header_text()] + ts.map_values(|t: TxModel| row_text(t)))
}

/// A description that the format can carry: no comma, on one line.
pub open spec fn csv_encodable(t: TxModel) -> bool {
    !t.description.contains(',') && !t.description.contains('\n')
}

/// The header row: the field names joined with commas.
pub fn get_header_row() -> (r: String)
    ensures
        r@ == header_text(),
{
    let all = Field::get_all();
    let ghost names = canonical_fields().map_values(|f: Field| field_name(f));
    let mut r = String::new();
    let mut i: usize = 0;
    assert(names.subrange(0, 0) =~= Seq::<Seq<char>>::empty());
    while i < 8
        invariant
            0 <= i <= 8,
            all@ == canonical_fields(),
            names == canonical_fields().map_values(|f: Field| field_name(f)),
            r@ == join(names.subrange(0, i as int)),
        decreases 8 - i,
    {
        if i > 0 {
            push_char(&mut r, ',');
        }
        r.append(all[i].name());
        proof {
            let next = names.subrange(0, i + 1);
            assert(next.drop_last() =~= names.subrange(0, i as int));
            assert(next.last() == field_name(all@[i as int]));
            if i == 0 {
                assert(r@ =~= next[0]);
            }
        }
        i = i + 1;
    }
    assert(names.subrange(0, 8) =~= names);
    r
}

/// Reads the data row `s[start..end]`.
fn parse_row(s: &[char], start: usize, end: usize, index: usize) -> (r: Result<
    Transaction,
    CsvError,
>)
    requires
        start <= end <= s.len(),
    ensures
        match csv_row(s@.subrange(start as int, end as int), index) {
            Ok(t) => r matches Ok(tr) && tr@ == t,
            Err(e) => r == Err::<Transaction, CsvError>(e),
        },
{
    let seps = split_positions(s, start, end, ',');
    if seps.len() != 7 {
        return Err(CsvError::Length { index });
    }
    let ghost cols = split(s@.subrange(start as int, end as int), ',');
    let ghost sp = seps@;
    proof {
        assert(sp[0] < sp[1]);
        assert(sp[1] < sp[2]);
        assert(sp[2] < sp[3]);
        assert(sp[3] < sp[4]);
        assert(sp[4] < sp[5]);
        assert(sp[5] < sp[6]);
        assert(cols[0] == s@.subrange(piece_start(start as int, sp, 0), piece_end(end as int, sp, 0)));
        assert(cols[1] == s@.subrange(piece_start(start as int, sp, 1), piece_end(end as int, sp, 1)));
        assert(cols[2] == s@.subrange(piece_start(start as int, sp, 2), piece_end(end as int, sp, 2)));
        assert(cols[3] == s@.subrange(piece_start(start as int, sp, 3), piece_end(end as int, sp, 3)));
        assert(cols[4] == s@.subrange(piece_start(start as int, sp, 4), piece_end(end as int, sp, 4)));
        assert(cols[5] == s@.subrange(piece_start(start as int, sp, 5), piece_end(end as int, sp, 5)));
        assert(cols[6] == s@.subrange(piece_start(start as int, sp, 6), piece_end(end as int, sp, 6)));
        assert(cols[7] == s@.subrange(piece_start(start as int, sp, 7), piece_end(end as int, sp, 7)));
    }
    let tx_id = match parse_u64_at(s, start, seps[0]) {
        Some(v) => v,
        None => {
            return Err(CsvError::InvalidField { index, field: Field::TxId });
        },
    };
    let tx_type = match TxType::from_token(s, seps[0] + 1, seps[1]) {
        Some(v) => v,
        None => {
            return Err(CsvError::InvalidField { index, field: Field::TxType });
        },
    };
    let from_user_id = match parse_u64_at(s, seps[1] + 1, seps[2]) {
        Some(v) => v,
        None => {
            return Err(CsvError::InvalidField { index, field: Field::FromUserId });
        },
    };
    let to_user_id = match parse_u64_at(s, seps[2] + 1, seps[3]) {
        Some(v) => v,
        None => {
            return Err(CsvError::InvalidField { index, field: Field::ToUserId });
        },
    };
    let amount = match parse_u64_at(s, seps[3] + 1, seps[4]) {
        Some(v) => v,
        None => {
            return Err(CsvError::InvalidField { index, field: Field::Amount });
        },
    };
    let timestamp = match parse_i64_at(s, seps[4] + 1, seps[5]) {
        Some(v) => v,
        None => {
            return Err(CsvError::InvalidField { index, field: Field::Timestamp });
        },
    };
    let status = match Status::from_token(s, seps[5] + 1, seps[6]) {
        Some(v) => v,
        None => {
            return Err(CsvError::InvalidField { index, field: Field::Status });
        },
    };
    let description = match unquote_at(s, seps[6] + 1, end) {
        Some(v) => v,
        None => {
            return Err(CsvError::InvalidField { index, field: Field::Description });
        },
    };
    Ok(
        Transaction {
            tx_id,
            tx_type,
            from_user_id,
            to_user_id,
            amount,
            timestamp,
            status,
            description,
        },
    )
}

impl Parser for CsvParser {
    type Error = CsvError;

    open spec fn encodable(transactions: Seq<TxModel>) -> bool {
        true
    }

    open spec fn decoded(data: Seq<u8>) -> Result<Seq<TxModel>, CsvError> {
        if !valid_utf8(data) {
            Err(CsvError::Read)
        } else {
            csv_decode_text(decode_utf8(data))
        }
    }

    open spec fn encoded(transactions: Seq<TxModel>) -> Seq<u8> {
        encode_utf8(csv_text(transactions))
    }

    fn from_read(data: &[u8]) -> (r: Result<Vec<Transaction>, CsvError>)
        ensures
            result_models(r) == Self::decoded(data@),
    {
        let text = match utf8_text(data) {
            None => {
                return Err(CsvError::Read);
            },
            Some(t) => t,
        };
        let cs = text_chars(text);
        let spans = line_spans(cs.as_slice());
        let ghost ls = lines(cs@);
        if spans.len() == 0 {
            return Err(CsvError::Header);
        }
        let header = get_header_row();
        let (a0, b0) = spans[0];
        if !crate::model::spells(cs.as_slice(), a0, b0, header.as_str()) {
            return Err(CsvError::Header);
        }
        let ghost rows = ls.drop_first();
        let mut out: Vec<Transaction> = Vec::new();
        let mut k: usize = 1;
        assert(rows.subrange(0, 0) =~= Seq::<Seq<char>>::empty());
        assert(models(out@) =~= Seq::<TxModel>::empty());
        while k < spans.len()
            invariant
                valid_utf8(data@),
                cs@ == decode_utf8(data@),
                ls == lines(cs@),
                ls.len() > 0,
                ls[0] == header_text(),
                rows == ls.drop_first(),
                spans@.len() == ls.len(),
                forall|j: int|
                    0 <= j < spans@.len() ==> (#[trigger] spans@[j]).0 <= spans@[j].1 <= cs@.len()
                        && cs@.subrange(spans@[j].0 as int, spans@[j].1 as int) == ls[j],
                1 <= k <= spans@.len(),
                csv_rows(rows.subrange(0, k - 1)) == Ok::<Seq<TxModel>, CsvError>(models(out@)),
            decreases spans@.len() - k,
        {
            let (a, b) = spans[k];
            let ghost pre = rows.subrange(0, k - 1);
            let ghost next = rows.subrange(0, k as int);
            assert(next.drop_last() =~= pre);
            assert(next.last() == ls[k as int]);
            if a < b {
                match parse_row(cs.as_slice(), a, b, k - 1) {
                    Err(e) => {
                        proof {
                            assert(csv_rows(next) == Err::<Seq<TxModel>, CsvError>(e));
                            lemma_rows_error(rows, k as int, e);
                        }
                        return Err(e);
                    },
                    Ok(t) => {
                        let ghost before = out@;
                        out.push(t);
                        assert(models(out@) =~= models(before).push(t@));
                    },
                }
            }
            k = k + 1;
        }
        assert(rows.subrange(0, k - 1) =~= rows);
        Ok(out)
    }

    fn write_to(out: &mut Vec<u8>, transactions: &[Transaction])
        ensures
            final(out)@ == old(out)@ + encode_utf8(csv_text(models(transactions@))),
    {
        let mut text = get_header_row();
        push_char(&mut text, '\n');
        let ghost rows = models(transactions@).map_values(|t: TxModel| row_text(t));
        let mut i: usize = 0;
        proof {
            let first = seq![header_text()] + rows.subrange(0, 0);
            assert(first =~= seq![header_text()]);
            assert(first.drop_last() =~= Seq::<Seq<char>>::empty());
            assert(first.last() == header_text());
            assert(terminated(Seq::<Seq<char>>::empty()) == Seq::<char>::empty());
            assert(terminated(first) == terminated(first.drop_last()) + first.last().push('\n'));
            assert(terminated(first) =~= header_text().push('\n'));
        }
        while i < transactions.len()
            invariant
                0 <= i <= transactions@.len(),
                rows == models(transactions@).map_values(|t: TxModel| row_text(t)),
                text@ == terminated(seq![header_text()] + rows.subrange(0, i as int)),
            decreases transactions@.len() - i,
        {
            let t = &transactions[i];
            write_row(&mut text, t);
            push_char(&mut text, '\n');
            proof {
                let next = seq![header_text()] + rows.subrange(0, i + 1);
                assert(next.drop_last() =~= seq![header_text()] + rows.subrange(0, i as int));
                assert(next.last() == row_text(t@));
            }
            i = i + 1;
        }
        assert(rows.subrange(0, i as int) =~= rows);
        push_text(out, &text);
    }
}

/// Appends the row of one transaction, without its line feed.
fn write_row(text: &mut String, t: &Transaction)
    ensures
        final(text)@ == old(text)@ + row_text(t@),
{
    let all = Field::get_all();
    let ghost cols = row_columns(t@);
    let ghost start = text@;
    let mut i: usize = 0;
    assert(cols.subrange(0, 0) =~= Seq::<Seq<char>>::empty());
    assert(start + join(Seq::<Seq<char>>::empty()) =~= start);
    while i < 8
        invariant
            0 <= i <= 8,
            all@ == canonical_fields(),
            cols == row_columns(t@),
            text@ == start + join(cols.subrange(0, i as int)),
        decreases 8 - i,
    {
        let f = all[i];
        if i > 0 {
            push_char(text, ',');
        }
        if f == Field::Description {
            push_char(text, '"');
            text.append(t.description.as_str());
            push_char(text, '"');
        } else {
            let v = t.get_value(&f);
            text.append(v.as_str());
        }
        proof {
            let next = cols.subrange(0, i + 1);
            assert(next.drop_last() =~= cols.subrange(0, i as int));
            assert(next.last() == written_value(t@, f));
            if i == 0 {
                assert(text@ =~= start + next[0]);
            } else {
                assert(text@ =~= start + join(next));
            }
        }
        i = i + 1;
    }
    assert(cols.subrange(0, 8) =~= cols);
}

proof fn lemma_rows_error(rows: Seq<Seq<char>>, k: int, e: CsvError)
    requires
        0 <= k <= rows.len(),
        csv_rows(rows.subrange(0, k)) == Err::<Seq<TxModel>, CsvError>(e),
    ensures
        csv_rows(rows) == Err::<Seq<TxModel>, CsvError>(e),
    decreases rows.len() - k,
{
    if k < rows.len() {
        let next = rows.subrange(0, k + 1);
        assert(next.drop_last() =~= rows.subrange(0, k));
        lemma_rows_error(rows, k + 1, e);
    } else {
        assert(rows.subrange(0, k) =~= rows);
    }
}

// ---------------------------------------------------------------------------
// Laws
// ---------------------------------------------------------------------------

proof fn lemma_join_free(cols: Seq<Seq<char>>, c: char)
    requires
        c != ',',
        forall|i: int| 0 <= i < cols.len() ==> !(#[trigger] cols[i]).contains(c),
    ensures
        !join(cols).contains(c),
    decreases cols.len(),
{
    if cols.len() > 1 {
        let init = cols.drop_last();
        assert forall|i: int| 0 <= i < init.len() implies !(#[trigger] init[i]).contains(c) by {
            assert(init[i] == cols[i]);
        }
        lemma_join_free(init, c);
        let a = join(init).push(',');
        let b = cols.last();
        assert(!b.contains(c)) by {
            assert(b == cols[cols.len() - 1]);
        }
        if (a + b).contains(c) {
            let k = choose|k: int| 0 <= k < (a + b).len() && (a + b)[k] == c;
            if k < join(init).len() {
                assert(join(init)[k] == c);
            } else if k >= a.len() {
                assert(b[k - a.len()] == c);
            }
        }
    } else if cols.len() == 1 {
        assert(cols[0] == join(cols));
    }
}

proof fn lemma_join_last(cols: Seq<Seq<char>>)
    requires
        cols.len() >= 1,
        cols.last().len() > 0,
    ensures
        join(cols).len() > 0,
        join(cols).last() == cols.last().last(),
{
    if cols.len() == 1 {
        assert(cols[0] == cols.last());
    }
}

proof fn lemma_split_join(cols: Seq<Seq<char>>)
    requires
        cols.len() >= 1,
        forall|i: int| 0 <= i < cols.len() ==> !(#[trigger] cols[i]).contains(','),
    ensures
        split(join(cols), ',') == cols,
    decreases cols.len(),
{
    if cols.len() == 1 {
        crate::text::lemma_split_none(cols[0], ',');
        assert(seq![cols[0]] =~= cols);
    } else {
        let init = cols.drop_last();
        assert forall|i: int| 0 <= i < init.len() implies !(#[trigger] init[i]).contains(',') by {
            assert(init[i] == cols[i]);
        }
        lemma_split_join(init);
        assert(!cols.last().contains(',')) by {
            assert(cols.last() == cols[cols.len() - 1]);
        }
        crate::text::lemma_split_push_piece(join(init), cols.last(), ',');
        assert(init.push(cols.last()) =~= cols);
    }
}

proof fn lemma_row_columns(t: TxModel, c: char)
    requires
        c == ',' || c == '\n',
        !t.description.contains(c),
    ensures
        forall|i: int|
            0 <= i < 8 ==> !(#[trigger] row_columns(t)[i]).contains(c),
{
    let cols = row_columns(t);
    assert forall|i: int| 0 <= i < 8 implies !(#[trigger] cols[i]).contains(c) by {
        crate::model::lemma_written_value_free(t, canonical_fields()[i], c);
    }
}

proof fn lemma_row_decodes(t: TxModel, index: usize)
    requires
        csv_encodable(t),
    ensures
        csv_row(row_text(t), index) == Ok::<TxModel, CsvError>(t),
{
    let cols = row_columns(t);
    lemma_row_columns(t, ',');
    lemma_split_join(cols);
    crate::model::lemma_tokens_round_trip();
    crate::text::lemma_parse_dec(t.tx_id);
    crate::text::lemma_parse_dec(t.from_user_id);
    crate::text::lemma_parse_dec(t.to_user_id);
    crate::text::lemma_parse_dec(t.amount);
    crate::text::lemma_parse_dec_signed(t.timestamp);
    crate::text::lemma_unquote_quote(t.description);
    assert(tx_type_of(crate::model::tx_type_token(t.tx_type)) == Some(t.tx_type));
    assert(status_of(crate::model::status_token(t.status)) == Some(t.status));
    assert(cols[0] == written_value(t, Field::TxId));
    assert(cols[7] == written_value(t, Field::Description));
}

proof fn lemma_row_plain(t: TxModel)
    requires
        csv_encodable(t),
    ensures
        crate::text::plain_line(row_text(t)),
        row_text(t).len() > 0,
{
    let cols = row_columns(t);
    lemma_row_columns(t, '\n');
    lemma_join_free(cols, '\n');
    crate::model::lemma_written_value_free(t, Field::Description, '\n');
    assert(cols.last() == written_value(t, Field::Description));
    lemma_join_last(cols);
}

proof fn lemma_header_plain()
    ensures
        crate::text::plain_line(header_text()),
{
    let names = canonical_fields().map_values(|f: Field| field_name(f));
    assert forall|i: int| 0 <= i < names.len() implies !(#[trigger] names[i]).contains('\n') by {
        crate::model::lemma_name_chars(canonical_fields()[i]);
        assert(names[i] == field_name(canonical_fields()[i]));
    }
    lemma_join_free(names, '\n');
    assert(names.last() == field_name(Field::Description));
    lemma_join_last(names);
}

proof fn lemma_rows_decode(ts: Seq<TxModel>)
    requires
        forall|i: int| 0 <= i < ts.len() ==> csv_encodable(#[trigger] ts[i]),
    ensures
        csv_rows(ts.map_values(|t: TxModel| row_text(t))) == Ok::<Seq<TxModel>, CsvError>(ts),
    decreases ts.len(),
{
    let rows = ts.map_values(|t: TxModel| row_text(t));
    if ts.len() == 0 {
        assert(rows =~= Seq::<Seq<char>>::empty());
        assert(ts =~= Seq::<TxModel>::empty());
    } else {
        let init = ts.drop_last();
        assert forall|i: int| 0 <= i < init.len() implies csv_encodable(#[trigger] init[i]) by {
            assert(init[i] == ts[i]);
        }
        lemma_rows_decode(init);
        assert(rows.drop_last() =~= init.map_values(|t: TxModel| row_text(t)));
        let t = ts.last();
        assert(csv_encodable(t)) by {
            assert(t == ts[ts.len() - 1]);
        }
        assert(rows.last() == row_text(t));
        lemma_row_plain(t);
        lemma_row_decodes(t, (rows.len() - 1) as usize);
        assert(init.push(t) =~= ts);
    }
}

/// Decoding what was encoded gives back the same transactions, in order,
/// when no description holds a comma or a line feed.
pub proof fn law_csv_round_trip(transactions: Seq<TxModel>)
    requires
        forall|i: int| 0 <= i < transactions.len() ==> csv_encodable(#[trigger] transactions[i]),
    ensures
        CsvParser::decoded(CsvParser::encoded(transactions)) == Ok::<Seq<TxModel>, CsvError>(
            transactions,
        ),
{
    let text = csv_text(transactions);
    encode_utf8_valid_utf8(text);
    encode_utf8_decode_utf8(text);
    let rows = transactions.map_values(|t: TxModel| row_text(t));
    let ls = seq![header_text()] + rows;
    lemma_header_plain();
    assert forall|i: int| 0 <= i < ls.len() implies crate::text::plain_line(#[trigger] ls[i]) by {
        if i > 0 {
            assert(ls[i] == rows[i - 1]);
            assert(csv_encodable(transactions[i - 1]));
            lemma_row_plain(transactions[i - 1]);
        }
    }
    crate::text::lemma_lines_terminated(ls);
    assert(ls.drop_first() =~= rows);
    lemma_rows_decode(transactions);
}

/// Valid text whose first line is not exactly the header row fails with a
/// header error.
pub proof fn law_csv_header(data: Seq<u8>)
    requires
        valid_utf8(data),
        lines(decode_utf8(data)).len() == 0 || lines(decode_utf8(data))[0] != header_text(),
    ensures
        CsvParser::decoded(data) == Err::<Seq<TxModel>, CsvError>(CsvError::Header),
{
}

/// A non-empty data row that does not split into eight columns fails with a
/// length error naming the row, counted from zero after the header, unless
/// an earlier row failed first.
pub proof fn law_csv_column_count(text: Seq<char>, k: int)
    requires
        lines(text).len() > 0,
        lines(text)[0] == header_text(),
        1 <= k < lines(text).len(),
        csv_rows(lines(text).subrange(1, k)) is Ok,
        lines(text)[k].len() > 0,
        split(lines(text)[k], ',').len() != 8,
    ensures
        csv_decode_text(text) == Err::<Seq<TxModel>, CsvError>(
            CsvError::Length { index: (k - 1) as usize },
        ),
{
    let ls = lines(text);
    let rows = ls.drop_first();
    let next = rows.subrange(0, k);
    assert(next.drop_last() =~= ls.subrange(1, k));
    assert(next.last() == ls[k]);
    lemma_rows_error(rows, k, CsvError::Length { index: (k - 1) as usize });
}

} // verus!
