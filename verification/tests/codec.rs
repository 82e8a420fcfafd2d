use cells::addr::{col_to_letter, letter_to_col, parse_cell_reference};
use cells::deps::parse_dependencies;

#[test]
fn test_col_to_letter() {
    assert_eq!(col_to_letter(0), "A");
    assert_eq!(col_to_letter(1), "B");
    assert_eq!(col_to_letter(25), "Z");
}

#[test]
fn test_letter_to_col() {
    assert_eq!(letter_to_col('A'), Some(0));
    assert_eq!(letter_to_col('a'), Some(0));
    assert_eq!(letter_to_col('B'), Some(1));
    assert_eq!(letter_to_col('Z'), Some(25));
    assert_eq!(letter_to_col('0'), None);
    assert_eq!(letter_to_col('!'), None);
}

#[test]
fn test_parse_cell_reference() {
    assert_eq!(parse_cell_reference("A0"), Some((0, 0)));
    assert_eq!(parse_cell_reference("B5"), Some((5, 1)));
    assert_eq!(parse_cell_reference("Z99"), Some((99, 25)));
    assert_eq!(parse_cell_reference("A100"), None); // Row out of bounds
    assert_eq!(parse_cell_reference("AA0"), None); // Invalid format
    assert_eq!(parse_cell_reference(""), None);
    assert_eq!(parse_cell_reference("A"), None);
    assert_eq!(parse_cell_reference("0"), None);
}

#[test]
fn test_parse_dependencies_simple() {
    let deps = parse_dependencies("=A0");
    assert_eq!(deps.len(), 1);
    assert!(deps.contains(&(0, 0)));
}

#[test]
fn test_parse_dependencies_multiple() {
    let deps = parse_dependencies("=A0+B5");
    assert_eq!(deps.len(), 2);
    assert!(deps.contains(&(0, 0)));
    assert!(deps.contains(&(5, 1)));
}

#[test]
fn test_parse_dependencies_complex() {
    let deps = parse_dependencies("=A1+B2*C3-D4/E5");
    assert_eq!(deps.len(), 5);
    assert!(deps.contains(&(1, 0)));
    assert!(deps.contains(&(2, 1)));
    assert!(deps.contains(&(3, 2)));
    assert!(deps.contains(&(4, 3)));
    assert!(deps.contains(&(5, 4)));
}

#[test]
fn test_parse_dependencies_no_formula() {
    let deps = parse_dependencies("123");
    assert_eq!(deps.len(), 0);
}

#[test]
fn test_parse_dependencies_empty() {
    let deps = parse_dependencies("");
    assert_eq!(deps.len(), 0);
}

#[test]
fn test_parse_dependencies_dedup() {
    let deps = parse_dependencies("=A0+A0*A0");
    assert_eq!(deps.len(), 1);
    assert!(deps.contains(&(0, 0)));
}

#[test]
fn test_parse_cell_reference_lowercase() {
    assert_eq!(parse_cell_reference("b7"), Some((7, 1)));
}

#[test]
fn test_parse_cell_reference_trims() {
    assert_eq!(parse_cell_reference("  C3  "), Some((3, 2)));
}

#[test]
fn test_parse_cell_reference_rejects_signs() {
    // The row part is decimal digits only: no sign characters.
    assert_eq!(parse_cell_reference("A+5"), None);
    assert_eq!(parse_cell_reference("A-5"), None);
}

#[test]
fn test_parse_dependencies_ignores_lowercase() {
    // The scan only starts a reference at an uppercase letter.
    let deps = parse_dependencies("=a0+B5");
    assert_eq!(deps.len(), 1);
    assert!(deps.contains(&(5, 1)));
}
