use codextool::account_store::{validated_email, validated_goods_no, validated_trade_no};

#[test]
fn rejects_empty_goods_number() {
    assert!(validated_goods_no("  ".to_string()).is_err());
}

#[test]
fn trims_valid_goods_number() {
    assert_eq!(validated_goods_no(" G123 ".to_string()).unwrap(), "G123");
}

#[test]
fn validates_and_trims_contact_email() {
    assert_eq!(
        validated_email(" buyer@example.com ".to_string()).unwrap(),
        "buyer@example.com"
    );
    assert!(validated_email("buyer".to_string()).is_err());
    assert!(validated_email("buyer@localhost".to_string()).is_err());
}

#[test]
fn rejects_blank_trade_number_and_trims_a_valid_one() {
    assert!(validated_trade_no(" \t ".to_string()).is_err());
    assert_eq!(validated_trade_no(" T-42 ".to_string()).unwrap(), "T-42");
}
