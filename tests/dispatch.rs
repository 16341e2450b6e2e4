use txcodec::{
    description_trim, BinError, CsvError, Field, ParserError, ParserType, Status, Transaction,
    TxType, TxtError, WriteError,
};

#[test]
fn extension_picks_format() {
    assert_eq!(ParserType::get_ext("records.csv").unwrap(), ParserType::Csv);
    assert_eq!(ParserType::get_ext("dir.v2/records.txt").unwrap(), ParserType::Txt);
    assert_eq!(ParserType::get_ext("a.b.bin").unwrap(), ParserType::Bin);
    assert_eq!(ParserType::get_ext("bin").unwrap(), ParserType::Bin);
    assert_eq!(ParserType::get_ext("records.CSV").unwrap_err(), ParserError::UnknownExt);
    assert_eq!(ParserType::get_ext("records.csv.gz").unwrap_err(), ParserError::UnknownExt);
    assert_eq!(ParserType::get_ext("").unwrap_err(), ParserError::UnknownExt);
}

#[test]
fn description_trim_strips_one_quote_each_side() {
    assert_eq!(description_trim("\"abc\"").unwrap(), "abc");
    assert_eq!(description_trim("\"\"x\"\"").unwrap(), "\"x\"");
    assert_eq!(description_trim("\"\"").unwrap(), "");
    assert!(description_trim("\"").is_err());
    assert!(description_trim("abc\"").is_err());
    assert!(description_trim("'abc'").is_err());
}

#[test]
fn decode_and_encode_through_format() {
    let transactions = vec![Transaction {
        tx_id: 3,
        tx_type: TxType::Transfer,
        from_user_id: 1,
        to_user_id: 2,
        amount: 50,
        timestamp: 1633036860000,
        status: Status::Success,
        description: "moved".to_string(),
    }];
    for kind in [ParserType::Csv, ParserType::Txt, ParserType::Bin] {
        let mut bytes = Vec::new();
        kind.encode(&mut bytes, &transactions);
        assert_eq!(kind.decode(&bytes).unwrap(), transactions);
    }
    assert_eq!(
        ParserType::Csv.decode(b"nope").unwrap_err(),
        ParserError::Csv(CsvError::Header)
    );
    assert_eq!(
        ParserType::Bin.decode(&[1]).unwrap_err(),
        ParserError::Bin(BinError::InvalidLength { index: 0 })
    );
    assert_eq!(
        ParserType::Txt.decode(b"x").unwrap_err(),
        ParserError::Txt(TxtError::LineFormat { index: 0 })
    );
}

#[test]
fn wrapped_messages_keep_the_inner_one() {
    assert_eq!(
        ParserError::Txt(TxtError::MissingField { index: 4, field: Field::Status }).to_string(),
        "Ошибка парсера. Отсутствует поле STATUS в записи на строке 4"
    );
    assert_eq!(ParserError::UnknownExt.to_string(), "Неизвестное расширение файла");
    assert_eq!(WriteError::Write.to_string(), "Ошибка записи");
    assert_eq!(
        ParserError::Write(WriteError::Write).to_string(),
        "Ошибка парсера. Ошибка записи"
    );
}

#[test]
fn field_names_and_values() {
    let t = Transaction {
        tx_id: 10,
        tx_type: TxType::Withdrawal,
        from_user_id: 11,
        to_user_id: 12,
        amount: 13,
        timestamp: -14,
        status: Status::Failure,
        description: "d".to_string(),
    };
    let all = Field::get_all();
    let names: Vec<String> = all.iter().map(|f| f.to_string()).collect();
    assert_eq!(
        names,
        ["TX_ID", "TX_TYPE", "FROM_USER_ID", "TO_USER_ID", "AMOUNT", "TIMESTAMP", "STATUS", "DESCRIPTION"]
    );
    let values: Vec<String> = all.iter().map(|f| t.get_value(f)).collect();
    assert_eq!(values, ["10", "WITHDRAWAL", "11", "12", "13", "-14", "FAILURE", "d"]);
    assert_eq!(TxType::default(), TxType::Deposit);
    assert_eq!(Status::default(), Status::Success);
}

#[test]
fn default_transaction() {
    let t = Transaction::default();
    assert_eq!(t.tx_type, TxType::Deposit);
    assert_eq!(t.status, Status::Success);
    assert_eq!(t.tx_id, 0);
    assert_eq!(t.description, "");
}
