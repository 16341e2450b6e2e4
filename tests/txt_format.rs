use txcodec::{Field, Parser, Status, Transaction, TxType, TxtError, TxtParser};

fn lines_of(lines: Vec<&str>) -> Vec<u8> {
    lines.join("\n").into_bytes()
}

fn two_transactions() -> Vec<Transaction> {
    vec![
        Transaction {
            tx_id: 1,
            tx_type: TxType::Deposit,
            from_user_id: 0,
            to_user_id: 1,
            amount: 1000,
            timestamp: 1633036860000,
            status: Status::Success,
            description: "record 1".to_string(),
        },
        Transaction {
            tx_id: 2,
            tx_type: TxType::Transfer,
            from_user_id: 1,
            to_user_id: 2,
            amount: 1111,
            timestamp: 1633036860000,
            status: Status::Failure,
            description: "record 2".to_string(),
        },
    ]
}

fn valid_record() -> Vec<&'static str> {
    vec![
        "TX_ID: 0",
        "TX_TYPE: DEPOSIT",
        "FROM_USER_ID: 0",
        "TO_USER_ID: 1",
        "AMOUNT: 100",
        "TIMESTAMP: 1633036860000",
        "STATUS: SUCCESS",
        "DESCRIPTION: \"Test 1\"",
    ]
}

#[test]
fn txt_test_success_from_read() {
    let data = lines_of(vec![
        "TX_ID: 0",
        "TX_TYPE: DEPOSIT",
        "FROM_USER_ID: 0",
        "TO_USER_ID: 1",
        "AMOUNT: 100",
        "TIMESTAMP: 1633036860000",
        "STATUS: SUCCESS",
        "DESCRIPTION: \"Test 1\"",
    ]);
    let result = TxtParser::from_read(&data).unwrap();
    assert_eq!(
        result,
        [Transaction {
            tx_id: 0,
            tx_type: TxType::Deposit,
            from_user_id: 0,
            to_user_id: 1,
            amount: 100,
            timestamp: 1633036860000,
            status: Status::Success,
            description: "Test 1".to_string(),
        },]
    );
}

#[test]
fn test_error_line_format() {
    let data = lines_of(vec!["Test"]);
    let result = TxtParser::from_read(&data).unwrap_err();
    assert_eq!(result.to_string(), "Некорректный формат в строке 0");
}

#[test]
fn test_error_unknown_field() {
    let data = lines_of(vec!["UNKNOWN_FIELD: 1"]);
    let result = TxtParser::from_read(&data).unwrap_err();
    assert_eq!(result.to_string(), "Неизвестное поле в строке 0");
}

#[test]
fn test_error_field_already_exists() {
    let data = lines_of(vec!["TX_ID: 1", "AMOUNT: 1", "TX_ID: 2"]);
    let result = TxtParser::from_read(&data).unwrap_err();
    assert_eq!(result.to_string(), "Повторное чтение поле TX_ID в строке 2");
}

#[test]
fn test_error_missing_field() {
    let data = lines_of(vec![
        "TX_TYPE: DEPOSIT",
        "TO_USER_ID: 9223372036854775807",
        "FROM_USER_ID: 0",
        "TIMESTAMP: 1633036860000",
        "DESCRIPTION: \"Test\"",
        "TX_ID: 1000000000000000",
        "AMOUNT: 100",
        // "STATUS: FAILURE"
    ]);
    let result = TxtParser::from_read(&data).unwrap_err();
    assert_eq!(result.to_string(), "Отсутствует поле STATUS в записи на строке 7");
}

#[test]
fn txt_test_error_invalid_field() {
    let cases = [
        ("TX_ID: !", 0, "Ошибка парсинга поля TX_ID в строке 0"),
        ("TX_TYPE: !", 1, "Ошибка парсинга поля TX_TYPE в строке 1"),
        ("FROM_USER_ID: !", 2, "Ошибка парсинга поля FROM_USER_ID в строке 2"),
        ("TO_USER_ID: !", 3, "Ошибка парсинга поля TO_USER_ID в строке 3"),
        ("AMOUNT: !", 4, "Ошибка парсинга поля AMOUNT в строке 4"),
        ("TIMESTAMP: !", 5, "Ошибка парсинга поля TIMESTAMP в строке 5"),
        ("STATUS: !", 6, "Ошибка парсинга поля STATUS в строке 6"),
        ("DESCRIPTION: Test 1", 7, "Ошибка парсинга поля DESCRIPTION в строке 7"),
    ];
    for (line, at, message) in cases {
        let mut record = valid_record();
        record[at] = line;
        let result = TxtParser::from_read(&lines_of(record)).unwrap_err();
        assert_eq!(result.to_string(), message);
    }
}

#[test]
fn txt_test_success_write_to() {
    let transactions = two_transactions();
    let mut out = Vec::new();
    TxtParser::write_to(&mut out, &transactions);
    let result = String::from_utf8(out).unwrap();
    assert_eq!(
        result,
        [
            "TX_ID: 1",
            "TX_TYPE: DEPOSIT",
            "FROM_USER_ID: 0",
            "TO_USER_ID: 1",
            "AMOUNT: 1000",
            "TIMESTAMP: 1633036860000",
            "STATUS: SUCCESS",
            "DESCRIPTION: \"record 1\"",
            "",
            "TX_ID: 2",
            "TX_TYPE: TRANSFER",
            "FROM_USER_ID: 1",
            "TO_USER_ID: 2",
            "AMOUNT: 1111",
            "TIMESTAMP: 1633036860000",
            "STATUS: FAILURE",
            "DESCRIPTION: \"record 2\"",
            "",
        ]
        .map(|l| format!("{l}\n"))
        .join("")
    );
}

#[test]
fn txt_round_trip_two_records() {
    let transactions = two_transactions();
    let mut bytes = Vec::new();
    TxtParser::write_to(&mut bytes, &transactions);
    assert_eq!(TxtParser::from_read(&bytes).unwrap(), transactions);
}

#[test]
fn txt_round_trip_awkward_description() {
    let transactions = vec![Transaction {
        tx_id: 9,
        tx_type: TxType::Withdrawal,
        from_user_id: u64::MAX,
        to_user_id: 0,
        amount: 1,
        timestamp: -1,
        status: Status::Pending,
        description: "key: value, \"quoted\" ünïcode".to_string(),
    }];
    let mut bytes = Vec::new();
    TxtParser::write_to(&mut bytes, &transactions);
    assert_eq!(TxtParser::from_read(&bytes).unwrap(), transactions);
}

#[test]
fn txt_trailing_blank_line_or_not() {
    let mut with_blank = valid_record();
    with_blank.push("");
    with_blank.push("");
    let a = TxtParser::from_read(&lines_of(with_blank)).unwrap();
    let b = TxtParser::from_read(&lines_of(valid_record())).unwrap();
    assert_eq!(a.len(), 1);
    assert_eq!(a, b);
}

#[test]
fn txt_comments_and_any_order() {
    let data = lines_of(vec![
        "# a comment",
        "DESCRIPTION: \"x\"",
        "STATUS: PENDING",
        "TIMESTAMP: -3",
        "AMOUNT: 4",
        "# another",
        "TO_USER_ID: 5",
        "FROM_USER_ID: 6",
        "TX_TYPE: WITHDRAWAL",
        "TX_ID: 7",
    ]);
    let result = TxtParser::from_read(&data).unwrap();
    assert_eq!(
        result,
        [Transaction {
            tx_id: 7,
            tx_type: TxType::Withdrawal,
            from_user_id: 6,
            to_user_id: 5,
            amount: 4,
            timestamp: -3,
            status: Status::Pending,
            description: "x".to_string(),
        }]
    );
}

#[test]
fn txt_missing_field_at_blank_line() {
    for skip in 0..8 {
        let mut record = valid_record();
        record.remove(skip);
        record.push("");
        record.push("TX_ID: 5");
        let err = TxtParser::from_read(&lines_of(record)).unwrap_err();
        let field = [
            Field::TxId,
            Field::TxType,
            Field::FromUserId,
            Field::ToUserId,
            Field::Amount,
            Field::Timestamp,
            Field::Status,
            Field::Description,
        ][skip];
        assert_eq!(err, TxtError::MissingField { index: 7, field });
    }
}

#[test]
fn txt_duplicate_in_second_record() {
    let mut data = valid_record();
    data.push("");
    data.push("AMOUNT: 1");
    data.push("AMOUNT: 2");
    assert_eq!(
        TxtParser::from_read(&lines_of(data)).unwrap_err(),
        TxtError::FieldAlreadyExists { index: 10, field: Field::Amount }
    );
}

#[test]
fn txt_empty_input_and_read_error() {
    assert_eq!(TxtParser::from_read(b"").unwrap(), Vec::<Transaction>::new());
    assert_eq!(TxtParser::from_read(&[0xFF]).unwrap_err(), TxtError::Read);
}
