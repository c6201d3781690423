use licensor::catalog::Catalog;
use licensor::selector::select_index;
use licensor::selector::select_name;
use licensor::selector::SelectError;

fn bytes(s: &str) -> Vec<u8> {
    s.as_bytes().to_vec()
}

#[test]
fn select_name_picks_identifier_by_index() {
    let catalog = Catalog::new(vec![bytes("mit.txt"), bytes("apache.txt")]);
    assert_eq!(select_name(&catalog, &bytes("1")), Ok(bytes("apache")));
    assert_eq!(select_name(&catalog, &bytes("0")), Ok(bytes("mit")));
}

#[test]
fn select_index_out_of_range_reports_bounds() {
    let err = select_index(&bytes("5"), 2);
    assert_eq!(err, Err(SelectError::IndexOutOfRange(5, 1)));
}

#[test]
fn select_index_rejects_non_numeric_input() {
    assert_eq!(
        select_index(&bytes("abc"), 2),
        Err(SelectError::InvalidIndex(bytes("abc")))
    );
    assert_eq!(
        select_index(&bytes("  abc \n"), 2),
        Err(SelectError::InvalidIndex(bytes("abc")))
    );
    assert_eq!(
        select_index(&bytes(""), 2),
        Err(SelectError::InvalidIndex(bytes("")))
    );
}

#[test]
fn select_index_rejects_negative_input() {
    assert_eq!(
        select_index(&bytes("-1"), 2),
        Err(SelectError::InvalidIndex(bytes("-1")))
    );
}

#[test]
fn select_index_rejects_oversized_number() {
    assert_eq!(
        select_index(&bytes("99999999999999999999999999"), 2),
        Err(SelectError::InvalidIndex(bytes("99999999999999999999999999")))
    );
}

#[test]
fn select_index_accepts_plus_sign_and_whitespace() {
    assert_eq!(select_index(&bytes(" +1 \n"), 3), Ok(1));
    assert_eq!(select_index(&bytes("0"), 1), Ok(0));
    assert_eq!(select_index(&bytes("007"), 10), Ok(7));
}
