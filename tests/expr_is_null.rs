use riverbed::chunk::DataChunk;
use riverbed::expr_is_null::{IsNotNullExpression, IsNullExpression};

fn input() -> DataChunk {
    DataChunk { columns: vec![vec![Some(1), Some(-1), None]], visibility: vec![true; 3] }
}

#[test]
fn test_is_null() {
    let expr = IsNullExpression::new(0);
    let result = expr.eval(&input());
    assert_eq!(3, result.len());
    assert_eq!(result, vec![false, false, true]);
}

#[test]
fn test_is_not_null() {
    let expr = IsNotNullExpression::new(0);
    let result = expr.eval(&input());
    assert_eq!(3, result.len());
    assert_eq!(result, vec![true, true, false]);
}
