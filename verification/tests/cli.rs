use seq_align::cli::{parse_2d_array, parse_number, parse_row, split_symbols, MatrixError};

fn chars(s: &str) -> Vec<char> {
    s.chars().collect()
}

#[test]
fn a_matrix_is_read_row_by_row() {
    assert_eq!(
        parse_2d_array("1,2,3,4;5,6,7,8;9,10,11,12;13,14,15,16"),
        Ok([[1, 2, 3, 4], [5, 6, 7, 8], [9, 10, 11, 12], [13, 14, 15, 16]])
    );
    assert_eq!(
        parse_2d_array("5,-4,-4,-1;-4,5,-4,-1;-4,-4,5,-1;-1,-1,-1,5"),
        Ok([[5, -4, -4, -1], [-4, 5, -4, -1], [-4, -4, 5, -1], [-1, -1, -1, 5]])
    );
    assert_eq!(
        parse_2d_array("+1,-0,007,2147483647;-2147483648,0,0,0;0,0,0,0;0,0,0,0"),
        Ok([[1, 0, 7, i32::MAX], [i32::MIN, 0, 0, 0], [0; 4], [0; 4]])
    );
}

#[test]
fn a_wrong_number_of_rows_is_reported_first() {
    assert_eq!(parse_2d_array(""), Err(MatrixError::RowCount));
    assert_eq!(parse_2d_array("1,2,3,4"), Err(MatrixError::RowCount));
    assert_eq!(parse_2d_array("x;y;z"), Err(MatrixError::RowCount));
    assert_eq!(
        parse_2d_array("1,2,3,4;5,6,7,8;9,10,11,12;13,14,15,16;"),
        Err(MatrixError::RowCount)
    );
}

#[test]
fn the_first_bad_row_decides_the_error() {
    assert_eq!(
        parse_2d_array("1,2,3;5,6,x,8;9,10,11,12;13,14,15,16"),
        Err(MatrixError::ColumnCount)
    );
    assert_eq!(
        parse_2d_array("1,2,3,4;5,6,x,8;9,10,11;13,14,15,16"),
        Err(MatrixError::Number)
    );
    // Within a row a bad number is reported before a wrong number of fields.
    assert_eq!(
        parse_2d_array("1,2,3,4,x;5,6,7,8;9,10,11,12;13,14,15,16"),
        Err(MatrixError::Number)
    );
    assert_eq!(
        parse_2d_array("1,2,3,4,5;5,6,7,8;9,10,11,12;13,14,15,16"),
        Err(MatrixError::ColumnCount)
    );
    assert_eq!(parse_2d_array(";;;"), Err(MatrixError::Number));
    assert_eq!(
        parse_2d_array("1, 2,3,4;5,6,7,8;9,10,11,12;13,14,15,16"),
        Err(MatrixError::Number)
    );
}

#[test]
fn rows_are_read_field_by_field() {
    assert_eq!(parse_row(&chars("1,-2,+3,40")), Ok([1, -2, 3, 40]));
    assert_eq!(parse_row(&chars("1,2,3")), Err(MatrixError::ColumnCount));
    assert_eq!(parse_row(&chars("1,,3,4")), Err(MatrixError::Number));
    assert_eq!(parse_row(&chars("")), Err(MatrixError::Number));
}

#[test]
fn numbers_are_read_as_std_reads_them() {
    let cases = [
        "", "+", "-", "0", "-0", "+0", "7", "-7", "+7", "007", "12a", "a12", "1 2", " 1", "1 ",
        "--1", "+-1", "1_000", "2147483647", "2147483648", "-2147483648", "-2147483649",
        "99999999999999999999", "-99999999999999999999", "00000000000000000000005", "٣", "1.0",
        "0x10", "١٢", "+2147483647", "-2147483647", "4294967296",
    ];
    for text in cases {
        assert_eq!(parse_number(&chars(text)), text.parse::<i32>().ok(), "{:?}", text);
    }
    assert_eq!(parse_number(&chars("-2147483648")), Some(i32::MIN));
    assert_eq!(parse_number(&chars("2147483648")), None);
    assert_eq!(parse_number(&chars("42")), Some(42));
}

#[test]
fn texts_are_split_as_std_splits_them() {
    let cases = ["", ";", "a", "a;b", "a;;b", ";a", "a;", ";;", "ab;cd;ef", "é;ü"];
    for text in cases {
        let expected: Vec<Vec<char>> = text.split(';').map(chars).collect();
        assert_eq!(split_symbols(&chars(text), ';'), expected, "{:?}", text);
    }
    assert_eq!(split_symbols(&chars("a;;b"), ';'), vec![chars("a"), chars(""), chars("b")]);
    assert_eq!(split_symbols(&chars(""), ','), vec![chars("")]);
}
