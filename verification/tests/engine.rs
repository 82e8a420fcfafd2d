use cells::engine::Cells;
use cells::eval::Step;
use cells::value::CellValue;

/// Parses a literal the way the engine's caller is expected to: standard
/// floating-point parsing, handing back the IEEE-754 bit pattern.
fn answer_num(text: &str) -> Option<u64> {
    text.parse::<f64>().ok().map(f64::to_bits)
}

fn answer_op(op: char, lhs: u64, rhs: u64) -> u64 {
    let x = f64::from_bits(lhs);
    let y = f64::from_bits(rhs);
    let r = match op {
        '+' => x + y,
        '-' => x - y,
        '*' => x * y,
        '/' => x / y,
        _ => unreachable!(),
    };
    r.to_bits()
}

/// Runs one whole edit: opens the session and answers every request.
fn set(cells: &mut Cells, row: usize, col: usize, text: &str) {
    let mut st = cells.update_cell(row, col, text.to_string());
    loop {
        st = match st {
            Step::NeedNum(s) => cells.resume_num(answer_num(&s)),
            Step::NeedOp(op, a, b) => cells.resume_op(answer_op(op, a, b)),
            Step::Done => return,
        };
    }
}

/// Evaluates a formula text read-only, answering every request.
fn eval(cells: &Cells, text: &str) -> CellValue {
    let mut ev = cells.evaluate_formula(text);
    loop {
        match ev.request() {
            Step::NeedNum(s) => ev.feed_num(cells, answer_num(&s)),
            Step::NeedOp(op, a, b) => ev.feed_op(answer_op(op, a, b)),
            Step::Done => return ev.result().unwrap().clone(),
        }
    }
}

fn value_num(cells: &Cells, row: usize, col: usize) -> f64 {
    match cells.get_value(row, col) {
        Some(CellValue::Number(b)) => f64::from_bits(*b),
        other => panic!("expected a number, found {:?}", other),
    }
}

#[test]
fn test_evaluate_formula_number() {
    let cells = Cells::new();
    let result = eval(&cells, "123");
    assert!(matches!(result, CellValue::Number(b) if (f64::from_bits(b) - 123.0).abs() < 0.001));
}

#[test]
fn test_evaluate_formula_decimal() {
    let cells = Cells::new();
    let result = eval(&cells, "45.67");
    assert!(matches!(result, CellValue::Number(b) if (f64::from_bits(b) - 45.67).abs() < 0.001));
}

#[test]
fn test_evaluate_formula_text() {
    let cells = Cells::new();
    let result = eval(&cells, "Hello");
    assert!(matches!(result, CellValue::Text(s) if s == "Hello"));
}

#[test]
fn test_evaluate_formula_simple_addition() {
    let cells = Cells::new();
    let result = eval(&cells, "=5+3");
    assert!(matches!(result, CellValue::Number(b) if (f64::from_bits(b) - 8.0).abs() < 0.001));
}

#[test]
fn test_evaluate_formula_subtraction() {
    let cells = Cells::new();
    let result = eval(&cells, "=10-4");
    assert!(matches!(result, CellValue::Number(b) if (f64::from_bits(b) - 6.0).abs() < 0.001));
}

#[test]
fn test_evaluate_formula_multiplication() {
    let cells = Cells::new();
    let result = eval(&cells, "=6*7");
    assert!(matches!(result, CellValue::Number(b) if (f64::from_bits(b) - 42.0).abs() < 0.001));
}

#[test]
fn test_evaluate_formula_division() {
    let cells = Cells::new();
    let result = eval(&cells, "=20/4");
    assert!(matches!(result, CellValue::Number(b) if (f64::from_bits(b) - 5.0).abs() < 0.001));
}

#[test]
fn test_evaluate_formula_division_by_zero() {
    let cells = Cells::new();
    let result = eval(&cells, "=10/0");
    assert!(matches!(result, CellValue::Error(e) if e == "DIV0"));
}

#[test]
fn test_evaluate_formula_invalid() {
    let cells = Cells::new();
    let result = eval(&cells, "=ABC");
    assert!(matches!(result, CellValue::Error(_)));
}

#[test]
fn test_evaluate_formula_cell_reference() {
    let mut cells = Cells::new();
    // Set A0 to 42
    set(&mut cells, 0, 0, "42");

    let result = eval(&cells, "=A0");
    assert!(matches!(result, CellValue::Number(b) if (f64::from_bits(b) - 42.0).abs() < 0.001));
}

#[test]
fn test_evaluate_formula_cell_reference_addition() {
    let mut cells = Cells::new();
    set(&mut cells, 0, 0, "10");
    set(&mut cells, 1, 1, "20");

    let result = eval(&cells, "=A0+B1");
    assert!(matches!(result, CellValue::Number(b) if (f64::from_bits(b) - 30.0).abs() < 0.001));
}

#[test]
fn test_evaluate_formula_text_in_formula() {
    let mut cells = Cells::new();
    set(&mut cells, 0, 0, "Hello");

    let result = eval(&cells, "=A0+5");
    assert!(matches!(result, CellValue::Error(e) if e == "TEXT"));
}

#[test]
fn test_update_cell_number() {
    let mut cells = Cells::new();
    set(&mut cells, 0, 0, "42");

    assert_eq!(cells.get_formula(0, 0), Some(&"42".to_string()));
    assert!(
        matches!(cells.get_value(0, 0), Some(CellValue::Number(b)) if (f64::from_bits(*b) - 42.0).abs() < 0.001)
    );
}

#[test]
fn test_update_cell_text() {
    let mut cells = Cells::new();
    set(&mut cells, 0, 0, "Hello");

    assert_eq!(cells.get_formula(0, 0), Some(&"Hello".to_string()));
    assert!(matches!(cells.get_value(0, 0), Some(CellValue::Text(s)) if s == "Hello"));
}

#[test]
fn test_update_cell_formula() {
    let mut cells = Cells::new();
    set(&mut cells, 0, 0, "=5+3");

    assert_eq!(cells.get_formula(0, 0), Some(&"=5+3".to_string()));
    assert!(
        matches!(cells.get_value(0, 0), Some(CellValue::Number(b)) if (f64::from_bits(*b) - 8.0).abs() < 0.001)
    );
}

#[test]
fn test_update_cell_clear() {
    let mut cells = Cells::new();
    set(&mut cells, 0, 0, "42");
    set(&mut cells, 0, 0, "");

    assert_eq!(cells.get_formula(0, 0), None);
    assert_eq!(cells.get_value(0, 0), None);
}

#[test]
fn test_dependency_tracking() {
    let mut cells = Cells::new();
    set(&mut cells, 0, 0, "10");
    set(&mut cells, 1, 1, "=A0+5");

    // B1 should depend on A0
    assert!(cells.dependencies_of(1, 1).contains(&(0, 0)));
    // A0 should have B1 as a dependent
    assert!(cells.dependents_of(0, 0).contains(&(1, 1)));
}

#[test]
fn test_change_propagation() {
    let mut cells = Cells::new();
    set(&mut cells, 0, 0, "10");
    set(&mut cells, 1, 1, "=A0*2");

    // B1 should be 20
    assert!((value_num(&cells, 1, 1) - 20.0).abs() < 0.001);

    // Update A0
    set(&mut cells, 0, 0, "15");

    // B1 should now be 30
    assert!((value_num(&cells, 1, 1) - 30.0).abs() < 0.001);
}

#[test]
fn test_transitive_dependencies() {
    let mut cells = Cells::new();
    set(&mut cells, 0, 0, "5");
    set(&mut cells, 1, 1, "=A0*2");
    set(&mut cells, 2, 2, "=B1+10");

    // C2 should be 20 (5*2+10)
    assert!((value_num(&cells, 2, 2) - 20.0).abs() < 0.001);

    // Update A0
    set(&mut cells, 0, 0, "10");

    // B1 should be 20, C2 should be 30
    assert!((value_num(&cells, 1, 1) - 20.0).abs() < 0.001);
    assert!((value_num(&cells, 2, 2) - 30.0).abs() < 0.001);
}

#[test]
fn test_is_cell_number() {
    let mut cells = Cells::new();
    set(&mut cells, 0, 0, "42");
    set(&mut cells, 1, 1, "Hello");
    set(&mut cells, 2, 2, "=ABC");

    assert!(cells.is_cell_number(0, 0));
    assert!(!cells.is_cell_number(1, 1));
    assert!(!cells.is_cell_number(2, 2));
    assert!(!cells.is_cell_number(3, 3)); // Empty cell
}

#[test]
fn test_dependency_removal_on_update() {
    let mut cells = Cells::new();
    set(&mut cells, 0, 0, "10");
    set(&mut cells, 1, 1, "=A0+5");

    // B1 depends on A0
    assert!(cells.dependencies_of(1, 1).contains(&(0, 0)));

    // Change B1 to not depend on A0
    set(&mut cells, 1, 1, "20");

    // B1 should no longer have dependencies
    assert!(cells.dependencies_of(1, 1).is_empty());
    // A0 should no longer have B1 as dependent
    assert!(!cells.dependents_of(0, 0).contains(&(1, 1)));
}

#[test]
fn test_cell_value_debug() {
    let val = CellValue::Number(42.0f64.to_bits());
    let debug_str = format!("{:?}", val);
    assert!(debug_str.contains("Number"));
}

#[test]
fn test_clear_removes_edges() {
    let mut cells = Cells::new();
    set(&mut cells, 1, 1, "=A0+B5");
    set(&mut cells, 1, 1, "");

    assert_eq!(cells.get_formula(1, 1), None);
    assert_eq!(cells.get_value(1, 1), None);
    assert!(cells.dependencies_of(1, 1).is_empty());
    assert!(cells.dependents_of(1, 1).is_empty());
    assert!(!cells.dependents_of(0, 0).contains(&(1, 1)));
    assert!(!cells.dependents_of(5, 1).contains(&(1, 1)));
}

#[test]
fn test_literal_float_value() {
    let mut cells = Cells::new();
    set(&mut cells, 3, 4, "45.67");
    assert!((value_num(&cells, 3, 4) - 45.67).abs() < 1e-12);
}

#[test]
fn test_text_value_trimmed() {
    let mut cells = Cells::new();
    set(&mut cells, 0, 0, "  some label  ");
    assert!(matches!(cells.get_value(0, 0), Some(CellValue::Text(s)) if s == "some label"));
}

#[test]
fn test_unpopulated_reference_is_zero() {
    let mut cells = Cells::new();
    set(&mut cells, 0, 0, "=Z99");
    assert_eq!(value_num(&cells, 0, 0), 0.0);
}

#[test]
fn test_dependency_symmetry_after_edits() {
    let mut cells = Cells::new();
    set(&mut cells, 0, 0, "1");
    set(&mut cells, 1, 1, "=A0+C2");
    set(&mut cells, 1, 1, "=C2*2");
    for &(r, c) in &[(0usize, 0usize), (1, 1), (2, 2)] {
        for &(r2, c2) in &[(0usize, 0usize), (1, 1), (2, 2)] {
            let forward = cells.dependencies_of(r, c).contains(&(r2, c2));
            let reverse = cells.dependents_of(r2, c2).contains(&(r, c));
            assert_eq!(forward, reverse);
        }
    }
}

#[test]
fn test_propagation_same_call() {
    let mut cells = Cells::new();
    set(&mut cells, 0, 0, "10");
    set(&mut cells, 1, 1, "=A0*2");
    set(&mut cells, 2, 2, "=B1+10");
    set(&mut cells, 0, 0, "15");
    assert!((value_num(&cells, 1, 1) - 30.0).abs() < 0.001);
    assert!((value_num(&cells, 2, 2) - 40.0).abs() < 0.001);
}

#[test]
fn test_left_scan_no_precedence() {
    // The evaluator splits at the first operator found and the rest stays
    // one piece, so 2+3*4 is 2 + (3*4) = 14.
    let cells = Cells::new();
    let result = eval(&cells, "=2+3*4");
    assert!(matches!(result, CellValue::Number(b) if (f64::from_bits(b) - 14.0).abs() < 0.001));
}

#[test]
fn test_left_scan_subtraction_chain() {
    // The right-leaning split shows the absence of left-to-right
    // precedence: 10-2-3 is 10 - (2 - 3) = 11, not (10-2)-3 = 5.
    let cells = Cells::new();
    let result = eval(&cells, "=10-2-3");
    assert!(matches!(result, CellValue::Number(b) if (f64::from_bits(b) - 11.0).abs() < 0.001));
}

#[test]
fn test_evaluation_idempotent() {
    let mut cells = Cells::new();
    set(&mut cells, 0, 0, "7");
    let first = eval(&cells, "=A0*3");
    let second = eval(&cells, "=A0*3");
    assert_eq!(first, second);
    assert!(matches!(first, CellValue::Number(b) if (f64::from_bits(b) - 21.0).abs() < 0.001));
}

#[test]
fn test_formula_round_trip_trims() {
    let mut cells = Cells::new();
    set(&mut cells, 4, 2, "  =A0+1  ");
    assert_eq!(cells.get_formula(4, 2), Some(&"=A0+1".to_string()));
}

#[test]
fn test_error_propagates_downstream() {
    let mut cells = Cells::new();
    set(&mut cells, 0, 0, "=10/0");
    set(&mut cells, 1, 1, "=A0+1");
    assert!(matches!(cells.get_value(1, 1), Some(CellValue::Error(e)) if e == "DIV0"));
}

#[test]
fn test_error_codes() {
    let mut cells = Cells::new();
    set(&mut cells, 0, 0, "=");
    assert!(matches!(cells.get_value(0, 0), Some(CellValue::Error(e)) if e == "ERR"));
    set(&mut cells, 1, 0, "=1/0");
    assert!(matches!(cells.get_value(1, 0), Some(CellValue::Error(e)) if e == "DIV0"));
    set(&mut cells, 2, 0, "label");
    set(&mut cells, 3, 0, "=A2*2");
    assert!(matches!(cells.get_value(3, 0), Some(CellValue::Error(e)) if e == "TEXT"));
}

#[test]
fn test_empty_formula_evaluates_to_empty_text() {
    let cells = Cells::new();
    let result = eval(&cells, "   ");
    assert!(matches!(result, CellValue::Text(s) if s.is_empty()));
}

#[test]
fn test_lowercase_reference_reads_without_edge() {
    // Evaluation resolves a lowercase reference, but the dependency scan
    // only starts at uppercase letters, so no edge is recorded.
    let mut cells = Cells::new();
    set(&mut cells, 0, 0, "6");
    set(&mut cells, 1, 1, "=a0*2");
    assert!((value_num(&cells, 1, 1) - 12.0).abs() < 0.001);
    assert!(cells.dependencies_of(1, 1).is_empty());
}

#[test]
fn test_plus_sign_is_not_a_reference() {
    // `A+5` is no address (rows are digits only), and `A` alone is not
    // one either, so the split leaves an unparseable left part.
    let mut cells = Cells::new();
    set(&mut cells, 5, 0, "8");
    set(&mut cells, 1, 1, "=A+5");
    assert!(matches!(cells.get_value(1, 1), Some(CellValue::Error(e)) if e == "ERR"));
}

#[test]
fn test_self_reference_is_permitted() {
    // A self-referential formula is not rejected: the edit evaluates the
    // cell against its old value, then the worklist walk re-evaluates it
    // once more (the visited set stops further rounds), so the stored
    // value depends on the edit history.
    let mut cells = Cells::new();
    set(&mut cells, 0, 0, "=A0+1");
    assert!((value_num(&cells, 0, 0) - 2.0).abs() < 0.001);
    set(&mut cells, 0, 0, "=A0+1");
    assert!((value_num(&cells, 0, 0) - 4.0).abs() < 0.001);
}
