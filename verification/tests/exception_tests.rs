use libmwemu::exception_type::ExceptionType;

#[test]
fn descriptions() {
    assert_eq!(ExceptionType::Int3.to_string(), "int 3");
    assert_eq!(ExceptionType::Div0.to_string(), "division by zero");
    assert_eq!(
        ExceptionType::BadAddressDereferencing.to_string(),
        "exception dereferencing bad address"
    );
    assert_eq!(ExceptionType::ReadingXmmOperand.to_string(), "exception reading xmm operand");
}

#[test]
fn equality_by_kind() {
    assert!(ExceptionType::Div0 == ExceptionType::Div0);
    assert!(ExceptionType::Div0 != ExceptionType::Int3);
    assert_eq!(ExceptionType::Int3.code(), 0);
    assert_eq!(ExceptionType::ReadingXmmOperand.code(), 12);
}
