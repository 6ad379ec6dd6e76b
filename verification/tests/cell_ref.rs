use wolfxl::cell_ref::{a1_to_row_col, RefError};

#[test]
fn strict_references() {
    assert_eq!(a1_to_row_col("A1"), Ok((0, 0)));
    assert_eq!(a1_to_row_col("B3"), Ok((2, 1)));
    assert_eq!(a1_to_row_col("aa100"), Ok((99, 26)));
    assert_eq!(a1_to_row_col("XFD1048576"), Ok((1048575, 16383)));
    assert_eq!(a1_to_row_col("A007"), Ok((6, 0)));
    assert_eq!(a1_to_row_col("A4294967295"), Ok((4294967294, 0)));
    assert_eq!(a1_to_row_col("MWLQKWU1"), Ok((0, 4294967294)));
}

#[test]
fn refused_references() {
    assert_eq!(a1_to_row_col(""), Err(RefError::BadColumn));
    assert_eq!(a1_to_row_col("12"), Err(RefError::BadColumn));
    assert_eq!(a1_to_row_col("A"), Err(RefError::BadRow));
    assert_eq!(a1_to_row_col("A0"), Err(RefError::BadRow));
    assert_eq!(a1_to_row_col("A4294967296"), Err(RefError::BadRow));
    assert_eq!(a1_to_row_col("MWLQKWV1"), Err(RefError::BadColumn));
    assert_eq!(a1_to_row_col("AAAAAAAAAAAAAAAA1"), Err(RefError::BadColumn));
    assert_eq!(a1_to_row_col("$A$1"), Err(RefError::BadCharacter));
    assert_eq!(a1_to_row_col("A 1"), Err(RefError::BadCharacter));
    assert_eq!(a1_to_row_col("Ä1"), Err(RefError::BadCharacter));
    assert_eq!(a1_to_row_col("A+1"), Err(RefError::BadCharacter));
}
