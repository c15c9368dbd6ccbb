use sc_delegation::codec::DecodeError;
use sc_delegation::pool::fund::{FundInfo, FundItem, FundList, FundType};
use sc_delegation::pool::stake_ledger::UnbondQueueItem;
use sc_delegation::pool::stake_sale::StakeSalePayment;
use sc_delegation::pool::states::{NodeState, StakeState, UserStakeState};

fn item(user_id: usize, fund_type: FundType, balance: u128) -> FundItem {
    FundItem { info: FundInfo { user_id, fund_type }, balance }
}

#[test]
fn fund_item_bytes_and_back() {
    let it = item(5, FundType::Active, 300);
    let mut out = Vec::new();
    it.dep_encode_to(&mut out);
    assert_eq!(out, vec![0, 0, 0, 5, 3, 0, 0, 0, 2, 1, 44]);
    assert_eq!(FundItem::dep_decode(&out, 0), Ok((it, 11)));

    let it2 = item(1, FundType::UnBondPeriod { created: 7, requested_unstake: true }, 0);
    let mut out2 = vec![9u8];
    it2.dep_encode_to(&mut out2);
    assert_eq!(out2, vec![9, 0, 0, 0, 1, 6, 0, 0, 0, 0, 0, 0, 0, 7, 1, 0, 0, 0, 0]);
    assert_eq!(FundItem::dep_decode(&out2, 1), Ok((it2, 19)));
}

#[test]
fn fund_item_decode_errors() {
    assert_eq!(FundItem::dep_decode(&vec![0, 0, 0], 0), Err(DecodeError::InputTooShort));
    // type byte 9 does not exist
    assert_eq!(FundItem::dep_decode(&vec![0, 0, 0, 1, 9, 0, 0, 0, 0], 0), Err(DecodeError::InvalidValue));
    // balance announced on 2 bytes, only 1 there
    assert_eq!(FundItem::dep_decode(&vec![0, 0, 0, 1, 3, 0, 0, 0, 2, 1], 0), Err(DecodeError::InputTooShort));
}

#[test]
fn fund_list_skips_empty_funds() {
    let list = FundList(vec![
        item(1, FundType::Active, 10),
        item(2, FundType::Free { requested_unstake: false }, 0),
        item(3, FundType::DeferredPayment { created: 2 }, 256),
    ]);
    let bytes = list.top_encode();
    let mut expected = Vec::new();
    item(1, FundType::Active, 10).dep_encode_to(&mut expected);
    item(3, FundType::DeferredPayment { created: 2 }, 256).dep_encode_to(&mut expected);
    assert_eq!(bytes, expected);
    let back = FundList::top_decode(&bytes).unwrap();
    assert_eq!(back.0, vec![item(1, FundType::Active, 10), item(3, FundType::DeferredPayment { created: 2 }, 256)]);
    assert_eq!(FundList::top_decode(&Vec::new()).unwrap().0, Vec::<FundItem>::new());
    let mut truncated = bytes.clone();
    truncated.pop();
    assert!(FundList::top_decode(&truncated).is_err());
}

#[test]
fn unbond_queue_item_bytes_and_back() {
    let q = UnbondQueueItem { user_id: 2, amount: 1 };
    let mut out = Vec::new();
    q.dep_encode_to(&mut out);
    assert_eq!(out, vec![0, 0, 0, 2, 0, 0, 0, 1, 1]);
    assert_eq!(UnbondQueueItem::dep_decode(&out, 0), Ok((q, 9)));
    let zero = UnbondQueueItem { user_id: 3, amount: 0 };
    let mut out0 = Vec::new();
    zero.dep_encode_to(&mut out0);
    assert_eq!(out0, vec![0, 0, 0, 3, 0, 0, 0, 0]);
    assert_eq!(UnbondQueueItem::dep_decode(&out0, 0), Ok((zero, 8)));
    assert_eq!(UnbondQueueItem::dep_decode(&out0, 1), Err(DecodeError::InputTooShort));
}

#[test]
fn stake_sale_payment_bytes_and_back() {
    let sp = StakeSalePayment { user_id: 4, amount: 65535, claim_after_nonce: 100 };
    let mut out = Vec::new();
    sp.dep_encode_to(&mut out);
    assert_eq!(out, vec![0, 0, 0, 4, 0, 0, 0, 2, 255, 255, 0, 0, 0, 0, 0, 0, 0, 100]);
    assert_eq!(StakeSalePayment::dep_decode(&out, 0), Ok((sp, 18)));
    out.pop();
    assert_eq!(StakeSalePayment::dep_decode(&out, 0), Err(DecodeError::InputTooShort));
}

#[test]
fn state_codes_one_byte_each() {
    let mut out = Vec::new();
    NodeState::PendingUnBond.dep_encode_to(&mut out);
    UserStakeState::Active.dep_encode_to(&mut out);
    StakeState::UnBondPeriod.dep_encode_to(&mut out);
    assert_eq!(out, vec![5, 2, 2]);
    assert_eq!(NodeState::dep_decode(&out, 0), Ok((NodeState::PendingUnBond, 1)));
    assert_eq!(UserStakeState::dep_decode(&out, 1), Ok((UserStakeState::Active, 2)));
    assert_eq!(StakeState::dep_decode(&out, 2), Ok((StakeState::UnBondPeriod, 3)));
    assert_eq!(StakeState::dep_decode(&out, 3), Err(DecodeError::InputTooShort));
    assert_eq!(NodeState::dep_decode(&vec![8u8], 0), Err(DecodeError::InvalidValue));
    assert_eq!(UserStakeState::dep_decode(&vec![10u8], 0), Err(DecodeError::InvalidValue));
}
