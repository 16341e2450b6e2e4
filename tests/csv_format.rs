use txcodec::{get_header_row, CsvError, CsvParser, Field, Parser, Status, Transaction, TxType};

fn with_header(data: &str) -> Vec<u8> {
    let header = get_header_row();
    format!("{header}\n{data}").into_bytes()
}

fn two_transactions() -> Vec<Transaction> {
    vec![
        Transaction {
            tx_id: 1,
            tx_type: TxType::Deposit,
            from_user_id: 0,
            to_user_id: 1,
            amount: 1000,
            timestamp: 1633036860000,
            status: Status::Success,
            description: "record 1".to_string(),
        },
        Transaction {
            tx_id: 2,
            tx_type: TxType::Transfer,
            from_user_id: 1,
            to_user_id: 2,
            amount: 1111,
            timestamp: 1633036860000,
            status: Status::Failure,
            description: "record 2".to_string(),
        },
    ]
}

#[test]
fn csv_test_success_from_read() {
    let data = with_header("0,DEPOSIT,0,1,100,1633036860000,SUCCESS,\"Test 1\"");
    let result = CsvParser::from_read(&data).unwrap();
    assert_eq!(
        result,
        [Transaction {
            tx_id: 0,
            tx_type: TxType::Deposit,
            from_user_id: 0,
            to_user_id: 1,
            amount: 100,
            timestamp: 1633036860000,
            status: Status::Success,
            description: "Test 1".to_string(),
        },]
    );
}

#[test]
fn test_get_header_row() {
    assert_eq!(
        get_header_row(),
        "TX_ID,TX_TYPE,FROM_USER_ID,TO_USER_ID,AMOUNT,TIMESTAMP,STATUS,DESCRIPTION"
    );
}

#[test]
fn test_error_header() {
    let data = "TX_ID,TX_TYPE,FROM_USER_ID,TO_USER_ID,AMOUNT,TIMESTAMP,DESCRIPTION,STATUS";
    let result = CsvParser::from_read(data.as_bytes()).unwrap_err();
    assert_eq!(result.to_string(), "Некорректный заголовок");
}

#[test]
fn test_error_length() {
    let data = with_header("0");
    let result = CsvParser::from_read(&data).unwrap_err();
    assert_eq!(result.to_string(), "Некорректное количество элементов в строке 1");
}

#[test]
fn csv_test_error_invalid_field() {
    let data = with_header("!,DEPOSIT,0,1,100,1633036860000,FAILURE,\"Test\"");
    let result = CsvParser::from_read(&data).unwrap_err();
    assert_eq!(result.to_string(), "Ошибка парсинга поля TX_ID в строке 1");

    let data = with_header("0,!,0,1,100,1633036860000,FAILURE,\"Test\"");
    let result = CsvParser::from_read(&data).unwrap_err();
    assert_eq!(result.to_string(), "Ошибка парсинга поля TX_TYPE в строке 1");

    let data = with_header("0,DEPOSIT,!,1,100,1633036860000,FAILURE,\"Test\"");
    let result = CsvParser::from_read(&data).unwrap_err();
    assert_eq!(result.to_string(), "Ошибка парсинга поля FROM_USER_ID в строке 1");

    let data = with_header("0,DEPOSIT,0,!,100,1633036860000,FAILURE,\"Test\"");
    let result = CsvParser::from_read(&data).unwrap_err();
    assert_eq!(result.to_string(), "Ошибка парсинга поля TO_USER_ID в строке 1");

    let data = with_header("0,DEPOSIT,0,1,!,1633036860000,FAILURE,\"Test\"");
    let result = CsvParser::from_read(&data).unwrap_err();
    assert_eq!(result.to_string(), "Ошибка парсинга поля AMOUNT в строке 1");

    let data = with_header("0,DEPOSIT,0,1,100,!,FAILURE,\"Test\"");
    let result = CsvParser::from_read(&data).unwrap_err();
    assert_eq!(result.to_string(), "Ошибка парсинга поля TIMESTAMP в строке 1");

    let data = with_header("0,DEPOSIT,0,1,100,1633036860000,!,\"Test\"");
    let result = CsvParser::from_read(&data).unwrap_err();
    assert_eq!(result.to_string(), "Ошибка парсинга поля STATUS в строке 1");

    let data = with_header("0,DEPOSIT,0,1,100,1633036860000,FAILURE,\'Test\'");
    let result = CsvParser::from_read(&data).unwrap_err();
    assert_eq!(result.to_string(), "Ошибка парсинга поля DESCRIPTION в строке 1");
}

#[test]
fn csv_test_success_write_to() {
    let transactions = two_transactions();
    let mut out = Vec::new();
    CsvParser::write_to(&mut out, &transactions);
    let result = String::from_utf8(out).unwrap();
    assert_eq!(
        result,
        [
            "TX_ID,TX_TYPE,FROM_USER_ID,TO_USER_ID,AMOUNT,TIMESTAMP,STATUS,DESCRIPTION",
            "1,DEPOSIT,0,1,1000,1633036860000,SUCCESS,\"record 1\"",
            "2,TRANSFER,1,2,1111,1633036860000,FAILURE,\"record 2\"",
        ]
        .map(|l| format!("{l}\n"))
        .join("")
    );
}

#[test]
fn csv_round_trip() {
    let mut transactions = two_transactions();
    transactions.push(Transaction {
        tx_id: 18446744073709551615,
        tx_type: TxType::Withdrawal,
        from_user_id: 3,
        to_user_id: 4,
        amount: 5,
        timestamp: i64::MIN,
        status: Status::Pending,
        description: "\"inner quotes\" and ünïcode".to_string(),
    });
    let mut bytes = Vec::new();
    CsvParser::write_to(&mut bytes, &transactions);
    assert_eq!(CsvParser::from_read(&bytes).unwrap(), transactions);
}

#[test]
fn csv_error_values_name_row_and_field() {
    let data = with_header("0,DEPOSIT,0,1,100,1633036860000,!,\"Test\"");
    assert_eq!(
        CsvParser::from_read(&data).unwrap_err(),
        CsvError::InvalidField { index: 0, field: Field::Status }
    );
    let data = with_header("0,DEPOSIT,0,1,100,1633036860000,SUCCESS,\"a\"\n\n1,2,3");
    assert_eq!(CsvParser::from_read(&data).unwrap_err(), CsvError::Length { index: 2 });
}

#[test]
fn csv_too_many_columns() {
    let data = with_header("0,DEPOSIT,0,1,100,1633036860000,SUCCESS,\"a\",9");
    assert_eq!(CsvParser::from_read(&data).unwrap_err(), CsvError::Length { index: 0 });
}

#[test]
fn csv_header_checked_before_rows() {
    let data = "TX_ID,TX_TYPE,FROM_USER_ID,TO_USER_ID,AMOUNT,TIMESTAMP,STATUS,DESCRIPTIO\n!,!";
    assert_eq!(CsvParser::from_read(data.as_bytes()).unwrap_err(), CsvError::Header);
    assert_eq!(CsvParser::from_read(b"").unwrap_err(), CsvError::Header);
}

#[test]
fn csv_empty_lines_and_crlf() {
    let data = with_header("\r\n1,DEPOSIT,0,1,1000,1633036860000,SUCCESS,\"record 1\"\r\n\n");
    let result = CsvParser::from_read(&data).unwrap();
    assert_eq!(result.len(), 1);
    assert_eq!(result[0].description, "record 1");
}

#[test]
fn csv_number_forms() {
    let data = with_header("+7,DEPOSIT,0,1,100,-5,SUCCESS,\"\"");
    let result = CsvParser::from_read(&data).unwrap();
    assert_eq!(result[0].tx_id, 7);
    assert_eq!(result[0].timestamp, -5);
    assert_eq!(result[0].description, "");
    let data = with_header("18446744073709551616,DEPOSIT,0,1,100,0,SUCCESS,\"\"");
    assert_eq!(
        CsvParser::from_read(&data).unwrap_err(),
        CsvError::InvalidField { index: 0, field: Field::TxId }
    );
    let data = with_header("1,DEPOSIT,0,1,-1,0,SUCCESS,\"\"");
    assert_eq!(
        CsvParser::from_read(&data).unwrap_err(),
        CsvError::InvalidField { index: 0, field: Field::Amount }
    );
}

#[test]
fn csv_invalid_utf8_is_read_error() {
    let mut data = with_header("");
    data.push(0xC3);
    assert_eq!(CsvParser::from_read(&data).unwrap_err(), CsvError::Read);
    assert_eq!(CsvError::Read.to_string(), "Ошибка чтения");
}
