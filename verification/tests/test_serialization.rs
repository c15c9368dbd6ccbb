use sc_delegation::codec::DecodeError;
use sc_delegation::fund_item::{FundItem, FundsListInfo};
use sc_delegation::fund_type::{FundDescription, FundType};

fn check_type(t: FundType) {
    let serialized_bytes = t.top_encode();
    let deserialized = FundType::top_decode(&serialized_bytes).unwrap();
    assert_eq!(deserialized, t);
}

fn check_desc(d: FundDescription) {
    let serialized_bytes = d.top_encode();
    let deserialized = FundDescription::top_decode(&serialized_bytes).unwrap();
    assert_eq!(deserialized, d);
}

fn check_item(it: FundItem) {
    let serialized_bytes = it.top_encode();
    let deserialized = FundItem::top_decode(&serialized_bytes).unwrap();
    assert_eq!(deserialized, it);
}

#[test]
fn test_fund_type_serialization() {
    check_type(FundType::WithdrawOnly);
    check_type(FundType::Waiting);
    check_type(FundType::Active);
    check_type(FundType::UnStaked);
    check_type(FundType::DeferredPayment);
}

#[test]
fn test_fund_description_serialization() {
    check_desc(FundDescription::WithdrawOnly);
    check_desc(FundDescription::Waiting { created: 31 });
    check_desc(FundDescription::Active);
    check_desc(FundDescription::UnStaked { created: 5 });
    check_desc(FundDescription::DeferredPayment { created: 20 });
}

#[test]
fn test_fund_item_empty_serialization() {
    let empty = FundItem {
        fund_desc: FundDescription::Active,
        user_id: 123,
        balance: 0,
        type_list_next: 0,
        type_list_prev: 0,
        user_list_next: 0,
        user_list_prev: 0,
    };

    let serialized_bytes = empty.top_encode();
    assert!(serialized_bytes.is_empty());
    let deserialized = FundItem::top_decode(&serialized_bytes).unwrap();
    assert_eq!(
        deserialized,
        FundItem {
            fund_desc: FundDescription::WithdrawOnly,
            user_id: 0,
            balance: 0,
            type_list_next: 0,
            type_list_prev: 0,
            user_list_next: 0,
            user_list_prev: 0,
        }
    );
}

#[test]
fn test_fund_item_serialization_1() {
    check_item(FundItem {
        fund_desc: FundDescription::Active,
        user_id: 123,
        balance: 7,
        type_list_next: 15,
        type_list_prev: 16,
        user_list_next: 17,
        user_list_prev: 18,
    });
}

#[test]
fn test_fund_item_serialization_2() {
    check_item(FundItem {
        fund_desc: FundDescription::DeferredPayment { created: 20 },
        user_id: 5,
        balance: 1,
        type_list_next: 10000,
        type_list_prev: 0,
        user_list_next: 0,
        user_list_prev: 3,
    });
}

#[test]
fn list_head_bytes_and_back() {
    let info = FundsListInfo { total_balance: 1234, first: 3, last: 7 };
    let mut out = vec![0xffu8];
    info.dep_encode(&mut out);
    assert_eq!(out, vec![0xff, 0, 0, 0, 2, 4, 210, 0, 0, 0, 3, 0, 0, 0, 7]);
    assert_eq!(FundsListInfo::dep_decode(&out, 1), Ok((info, 15)));
    assert_eq!(FundsListInfo::top_decode(&out[1..].to_vec()), Ok(info));
    // the empty head is stored as nothing, and nothing reads as the empty head
    let empty = FundsListInfo { total_balance: 0, first: 0, last: 0 };
    assert_eq!(empty.top_encode(), Vec::<u8>::new());
    assert_eq!(FundsListInfo::top_decode(&Vec::new()), Ok(empty));
    // one byte too many
    let mut long = out[1..].to_vec();
    long.push(0);
    assert_eq!(FundsListInfo::top_decode(&long), Err(DecodeError::InputTooLong));
    assert_eq!(FundsListInfo::dep_decode(&out, 2), Err(DecodeError::ValueTooLarge));
    assert_eq!(FundsListInfo::dep_decode(&out, 12), Err(DecodeError::InputTooShort));
}
