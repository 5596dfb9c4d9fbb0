use ptrsx::cmd::{get_content_between_parentheses, Address, AddressList, ArgError, Offset, WVecU8};

#[test]
fn address_values() {
    assert_eq!(Address::from_arg_value("0x125F04080").ok().map(|a| a.0), Some(0x125F04080));
    assert_eq!(Address::from_arg_value("ff").ok().map(|a| a.0), Some(0xff));
    assert_eq!(Address::from_arg_value("0x0x10").ok().map(|a| a.0), Some(0x10));
    assert_eq!(Address::from_arg_value("+10").ok().map(|a| a.0), Some(0x10));
    assert_eq!(Address::from_arg_value("").err(), Some(ArgError::Number));
    assert_eq!(Address::from_arg_value("0x").err(), Some(ArgError::Number));
    assert_eq!(Address::from_arg_value("12g").err(), Some(ArgError::Number));
    assert_eq!(Address::from_arg_value("10000000000000000").err(), Some(ArgError::Number));
}

#[test]
fn address_list_values() {
    assert_eq!(AddressList::from_arg_value("0x10-20-0x30").ok().map(|a| a.0), Some(vec![0x10, 0x20, 0x30]));
    assert_eq!(AddressList::from_arg_value("10").ok().map(|a| a.0), Some(vec![0x10]));
    assert_eq!(AddressList::from_arg_value("10-").err(), Some(ArgError::Number));
    assert_eq!(AddressList::from_arg_value("10-x").err(), Some(ArgError::Number));
}

#[test]
fn offset_values() {
    assert_eq!(Offset::from_arg_value("0:4000").ok().map(|o| o.0), Some((0, 4000)));
    assert_eq!(Offset::from_arg_value("-16:+32").ok().map(|o| o.0), Some((16, 32)));
    assert_eq!(Offset::from_arg_value("16").err(), Some(ArgError::Format));
    assert_eq!(Offset::from_arg_value("a:1").err(), Some(ArgError::Number));
    assert_eq!(Offset::from_arg_value("1:").err(), Some(ArgError::Number));
    assert_eq!(Offset::from_arg_value("18446744073709551616:1").err(), Some(ArgError::Number));
}

#[test]
fn byte_list_values() {
    assert_eq!(WVecU8::from_arg_value(" [0x1, ff, 10] ").ok().map(|w| w.0), Some(vec![1, 0xff, 0x10]));
    assert_eq!(WVecU8::from_arg_value("1, 2").err(), Some(ArgError::Format));
    assert_eq!(WVecU8::from_arg_value("[1, 2").err(), Some(ArgError::Format));
    assert_eq!(WVecU8::from_arg_value("[100]").err(), Some(ArgError::Number));
    assert_eq!(WVecU8::from_arg_value("[]").err(), Some(ArgError::Number));
}

#[test]
fn brackets() {
    assert_eq!(get_content_between_parentheses(b"x[ab]c]"), Some((2, 4)));
    assert_eq!(get_content_between_parentheses(b"]ab["), None);
}
