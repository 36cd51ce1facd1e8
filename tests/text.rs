use tcpmt::{BinomialOperationData, MonomialOperationData, Operation, OperationError};

#[test]
fn text_product_encodes() {
    let op = Operation::from_str("10 * 3").unwrap();
    assert_eq!(op, Operation::Mul(BinomialOperationData(10, 3)));
    assert_eq!(op.encode(), vec![3u8, 2, 10, 3]);
}

#[test]
fn text_factorial_reduces() {
    let op = Operation::from_str("5!").unwrap();
    assert_eq!(op, Operation::Fact(MonomialOperationData(5)));
    assert_eq!(op.reduce(), Ok(120));
}

#[test]
fn text_operators() {
    assert_eq!(Operation::from_str("1+2"), Ok(Operation::Sum((1, 2).into())));
    assert_eq!(Operation::from_str(" -3 - -4 "), Ok(Operation::Sub((-3, -4).into())));
    assert_eq!(Operation::from_str("2x3"), Ok(Operation::Mul((2, 3).into())));
    assert_eq!(Operation::from_str("2 \u{d7} 3"), Ok(Operation::Mul((2, 3).into())));
    assert_eq!(Operation::from_str("8/2"), Ok(Operation::Div((8, 2).into())));
    assert_eq!(Operation::from_str("8 \u{f7} 2"), Ok(Operation::Div((8, 2).into())));
    assert_eq!(Operation::from_str("\t9 % 4\n"), Ok(Operation::Rem((9, 4).into())));
    assert_eq!(Operation::from_str("007+1"), Ok(Operation::Sum((7, 1).into())));
    assert_eq!(Operation::from_str("-128 ! "), Ok(Operation::Fact((-128).into())));
}

#[test]
fn text_errors() {
    assert_eq!(Operation::from_str(""), Err(OperationError::Parse));
    assert_eq!(Operation::from_str("abc"), Err(OperationError::Parse));
    assert_eq!(Operation::from_str("3 4"), Err(OperationError::Parse));
    assert_eq!(Operation::from_str("3 +"), Err(OperationError::Parse));
    assert_eq!(Operation::from_str("3 ! 4"), Err(OperationError::Parse));
    assert_eq!(Operation::from_str("3 + 4 5"), Err(OperationError::Parse));
    assert_eq!(Operation::from_str("- 3 + 4"), Err(OperationError::Parse));
    assert_eq!(Operation::from_str("128 + 1"), Err(OperationError::ParseIntError));
    assert_eq!(Operation::from_str("1 + -129"), Err(OperationError::ParseIntError));
    assert_eq!(Operation::from_str("99999999999999999999 + 1"), Err(OperationError::ParseIntError));
    assert_eq!(
        Operation::from_str("3 ^ 4"),
        Err(OperationError::UnsupportedOperation("^".to_string()))
    );
    assert_eq!(
        Operation::from_str("3 ?"),
        Err(OperationError::UnsupportedOperation("?".to_string()))
    );
}

#[test]
fn text_display() {
    assert_eq!(Operation::Sum((127, -1).into()).to_text(), "127+-1");
    assert_eq!(Operation::Sub((5, 3).into()).to_text(), "5-3");
    assert_eq!(Operation::Mul((10, 3).into()).to_text(), "10\u{d7}3");
    assert_eq!(Operation::Div((-128, 7).into()).to_text(), "-128\u{f7}7");
    assert_eq!(Operation::Rem((0, 9).into()).to_text(), "0%9");
    assert_eq!(Operation::Fact((5).into()).to_text(), "5!");
}

#[test]
fn text_parses_through_from_str_trait() {
    let op: Operation = "7 % 3".parse().unwrap();
    assert_eq!(op, Operation::Rem((7, 3).into()));
    assert_eq!("x".parse::<Operation>(), Err(OperationError::Parse));
}

#[test]
fn text_unicode_digits_are_integer_errors() {
    assert_eq!(Operation::from_str("\u{663} + 1"), Err(OperationError::ParseIntError));
    assert_eq!(Operation::from_str("1 + \u{663}"), Err(OperationError::ParseIntError));
    assert_eq!(Operation::from_str("-\u{967}\u{968}!"), Err(OperationError::ParseIntError));
    assert_eq!(Operation::from_str("3 \u{663}"), Err(OperationError::Parse));
    assert_eq!(Operation::from_str("12 + 3"), Ok(Operation::Sum((12, 3).into())));
}
