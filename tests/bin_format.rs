use txcodec::{BinError, BinParser, Field, Parser, Status, Transaction, TxType};

fn record_one() -> Vec<u8> {
    let mut data: Vec<u8> = Vec::new();
    data.extend_from_slice(&[89, 80, 66, 78]); // MAGIC
    data.extend_from_slice(&[0, 0, 0, 54]); // RECORD_SIZE
    data.extend_from_slice(&[0, 0, 0, 0, 0, 0, 0, 1]); // ID
    data.extend_from_slice(&[0]); // TX_TYPE
    data.extend_from_slice(&[0, 0, 0, 0, 0, 0, 0, 0]); // FROM_USER_ID
    data.extend_from_slice(&[0, 0, 0, 0, 0, 0, 0, 1]); // TO_USER_ID
    data.extend_from_slice(&[0, 0, 0, 0, 0, 0, 3, 232]); // AMOUNT
    data.extend_from_slice(&[0, 0, 1, 124, 56, 148, 250, 96]); // TIMESTAMP
    data.extend_from_slice(&[0]); // STATUS
    data.extend_from_slice(&[0, 0, 0, 10]); // DESC_LEN
    data.extend_from_slice(&[34, 114, 101, 99, 111, 114, 100, 32, 49, 34]); // DESCRIPTION
    data
}

fn two_transactions() -> Vec<Transaction> {
    vec![
        Transaction {
            tx_id: 1,
            tx_type: TxType::Deposit,
            from_user_id: 0,
            to_user_id: 1,
            amount: 1000,
            timestamp: 1633036860000,
            status: Status::Success,
            description: "record 1".to_string(),
        },
        Transaction {
            tx_id: 2,
            tx_type: TxType::Transfer,
            from_user_id: 1,
            to_user_id: 2,
            amount: 1111,
            timestamp: 1633036860000,
            status: Status::Failure,
            description: "record 2".to_string(),
        },
    ]
}

#[test]
fn parser_test_success_from_read() {
    let data = record_one();
    let result = BinParser::from_read(&data).unwrap();
    assert_eq!(
        result,
        [Transaction {
            tx_id: 1,
            tx_type: TxType::Deposit,
            from_user_id: 0,
            to_user_id: 1,
            amount: 1000,
            timestamp: 1633036860000,
            status: Status::Success,
            description: "record 1".to_string(),
        },]
    );
}

#[test]
fn test_error_invalid_length() {
    let mut data: Vec<u8> = Vec::new();
    data.extend_from_slice(&[0]);
    let result = BinParser::from_read(&data).unwrap_err();
    assert_eq!(result.to_string(), "Неожиданное завершение записи 0");
}

#[test]
fn test_error_invalid_magic() {
    let mut data: Vec<u8> = Vec::new();
    data.extend_from_slice(&[0, 1, 2, 3]);
    let result = BinParser::from_read(&data).unwrap_err();
    assert_eq!(result.to_string(), "Некорректный MAGIC в записи 0");
}

#[test]
fn parser_test_success_write_to() {
    let transactions = two_transactions();
    let mut result = Vec::new();
    BinParser::write_to(&mut result, &transactions);

    let mut expected = Vec::new();
    // record 1
    expected.extend_from_slice(&[89, 80, 66, 78]); // MAGIC
    expected.extend_from_slice(&[0, 0, 0, 56]); // RECORD_SIZE
    expected.extend_from_slice(&[0, 0, 0, 0, 0, 0, 0, 1]); // ID
    expected.extend_from_slice(&[0]); // TX_TYPE
    expected.extend_from_slice(&[0, 0, 0, 0, 0, 0, 0, 0]); // FROM_USER_ID
    expected.extend_from_slice(&[0, 0, 0, 0, 0, 0, 0, 1]); // TO_USER_ID
    expected.extend_from_slice(&[0, 0, 0, 0, 0, 0, 3, 232]); // AMOUNT
    expected.extend_from_slice(&[0, 0, 1, 124, 56, 148, 250, 96]); // TIMESTAMP
    expected.extend_from_slice(&[0]); // STATUS
    expected.extend_from_slice(&[0, 0, 0, 10]); // DESC_LEN
    expected.extend_from_slice(&[34, 114, 101, 99, 111, 114, 100, 32, 49, 34]); // DESCRIPTION

    // record 2
    expected.extend_from_slice(&[89, 80, 66, 78]); // MAGIC
    expected.extend_from_slice(&[0, 0, 0, 56]); // RECORD_SIZE
    expected.extend_from_slice(&[0, 0, 0, 0, 0, 0, 0, 2]); // ID
    expected.extend_from_slice(&[1]); // TX_TYPE
    expected.extend_from_slice(&[0, 0, 0, 0, 0, 0, 0, 1]); // FROM_USER_ID
    expected.extend_from_slice(&[0, 0, 0, 0, 0, 0, 0, 2]); // TO_USER_ID
    expected.extend_from_slice(&[0, 0, 0, 0, 0, 0, 4, 87]); // AMOUNT
    expected.extend_from_slice(&[0, 0, 1, 124, 56, 148, 250, 96]); // TIMESTAMP
    expected.extend_from_slice(&[1]); // STATUS
    expected.extend_from_slice(&[0, 0, 0, 10]); // DESC_LEN
    expected.extend_from_slice(&[34, 114, 101, 99, 111, 114, 100, 32, 50, 34]); // DESCRIPTION

    assert_eq!(result, expected);
}

#[test]
fn bin_round_trip_keeps_order_and_values() {
    let mut transactions = two_transactions();
    transactions.push(Transaction {
        tx_id: u64::MAX,
        tx_type: TxType::Withdrawal,
        from_user_id: 7,
        to_user_id: 8,
        amount: 0,
        timestamp: -42,
        status: Status::Pending,
        description: "\"quoted\", with comma\nand newline — ünïcode".to_string(),
    });
    let mut bytes = Vec::new();
    BinParser::write_to(&mut bytes, &transactions);
    assert_eq!(BinParser::from_read(&bytes).unwrap(), transactions);
}

#[test]
fn bin_empty_input_has_no_records() {
    assert_eq!(BinParser::from_read(&[]).unwrap(), Vec::<Transaction>::new());
}

#[test]
fn bin_record_size_is_not_checked() {
    // The declared record size (54) differs from the real one (56); the
    // record still decodes.
    let data = record_one();
    assert_eq!(data[7], 54);
    assert_eq!(BinParser::from_read(&data).unwrap().len(), 1);
}

#[test]
fn bin_truncated_header_is_invalid_length() {
    let data = record_one();
    for cut in [1usize, 3, 4, 10, 17, 49, 50, 53, 54, 60] {
        let err = BinParser::from_read(&data[..cut]).unwrap_err();
        assert_eq!(err, BinError::InvalidLength { index: 0 }, "cut at {cut}");
    }
}

#[test]
fn bin_second_record_errors_carry_its_index() {
    let mut data = record_one();
    data.extend_from_slice(&[89, 80, 66, 79]);
    assert_eq!(
        BinParser::from_read(&data).unwrap_err(),
        BinError::InvalidMagic { index: 1 }
    );
}

#[test]
fn bin_out_of_range_codes_are_invalid_fields() {
    let mut data = record_one();
    data[16] = 3;
    assert_eq!(
        BinParser::from_read(&data).unwrap_err(),
        BinError::InvalidField { index: 0, field: Field::TxType }
    );
    let mut data = record_one();
    data[49] = 9;
    assert_eq!(
        BinParser::from_read(&data).unwrap_err(),
        BinError::InvalidField { index: 0, field: Field::Status }
    );
}

#[test]
fn bin_description_faults() {
    let mut data = record_one();
    data[54] = b'x';
    assert_eq!(
        BinParser::from_read(&data).unwrap_err(),
        BinError::InvalidField { index: 0, field: Field::Description }
    );
    let mut data = record_one();
    data[55] = 0xFF;
    assert_eq!(
        BinParser::from_read(&data).unwrap_err(),
        BinError::InvalidField { index: 0, field: Field::Description }
    );
    let mut data = record_one();
    data[50] = 0x80;
    assert_eq!(
        BinParser::from_read(&data).unwrap_err(),
        BinError::InvalidDescLen { index: 0 }
    );
    let mut data = record_one();
    data[53] = 11;
    assert_eq!(
        BinParser::from_read(&data).unwrap_err(),
        BinError::InvalidLength { index: 0 }
    );
}

#[test]
fn bin_messages() {
    assert_eq!(
        BinError::InvalidField { index: 12, field: Field::Amount }.to_string(),
        "Ошибка парсинга поля AMOUNT в записи 12"
    );
    assert_eq!(BinError::InvalidDescLen { index: 3 }.to_string(), "Некорректный DESC_LEN в записи 3");
    assert_eq!(
        BinError::InvalidRecordSize { index: 0 }.to_string(),
        "Некорректный RECORD_SIZE в записи 0"
    );
}
