use build_cart::text::{push_decimal, push_hex1, push_hex2, push_spaces};

#[test]
fn decimal_and_hex_text() {
    let mut s = String::new();
    push_decimal(&mut s, 0);
    s.push(',');
    push_decimal(&mut s, 1234);
    s.push(',');
    push_hex2(&mut s, 0x0f);
    push_hex1(&mut s, 10);
    push_spaces(&mut s, 2);
    assert_eq!(s, "0,1234,0fa  ");
}
