use licensor::catalog::Catalog;
use licensor::catalog::CatalogError;
use licensor::catalog::strip_extension;

fn bytes(s: &str) -> Vec<u8> {
    s.as_bytes().to_vec()
}

#[test]
fn strip_extension_removes_trailing_txt() {
    assert_eq!(strip_extension(&bytes("mit.txt")), bytes("mit"));
    assert_eq!(strip_extension(&bytes("a.txt.txt")), bytes("a"));
    assert_eq!(strip_extension(&bytes("mit")), bytes("mit"));
    assert_eq!(strip_extension(&bytes(".txt")), bytes(""));
    assert_eq!(strip_extension(&bytes("b.TXT")), bytes("b.TXT"));
    assert_eq!(strip_extension(&bytes("x.txt.bak")), bytes("x.txt.bak"));
}

#[test]
fn catalog_lists_stripped_identifiers_in_order() {
    let catalog = Catalog::new(vec![bytes("mit.txt"), bytes("apache.txt")]);
    let ids = catalog.list();
    assert_eq!(ids, vec![bytes("mit"), bytes("apache")]);
}

#[test]
fn catalog_resolves_identifier_to_file_name() {
    let catalog = Catalog::new(vec![bytes("mit.txt"), bytes("apache.txt")]);
    assert_eq!(catalog.resolve(&bytes("apache")), Ok(bytes("apache.txt")));
    assert_eq!(catalog.resolve(&bytes("mit")), Ok(bytes("mit.txt")));
}

#[test]
fn catalog_resolves_to_first_match() {
    let catalog = Catalog::new(vec![bytes("a.txt"), bytes("a.txt.txt")]);
    assert_eq!(catalog.resolve(&bytes("a")), Ok(bytes("a.txt")));
}

#[test]
fn catalog_reports_unknown_identifier() {
    let catalog = Catalog::new(vec![bytes("mit.txt")]);
    assert_eq!(
        catalog.resolve(&bytes("bsd")),
        Err(CatalogError::NotFound(bytes("bsd")))
    );
}
