use vstd::prelude::*;
use crate::codec::{
    DecodeError, be_value, u32_of_at, biguint_at, bool_bytes, u64_bytes, u64_of, biguint_bytes, lemma_u64_bytes_roundtrip, push_biguint, read_biguint, push_u64,
    read_u64,
};
use crate::pool::stake_ledger::UnbondQueueItem;
use crate::pool::stake_sale::StakeSalePayment;
use crate::serialization::{
    bytes_at, id_bytes, push_id, read_id, lemma_bytes_at_split, lemma_id_read, lemma_biguint_read,
};
use crate::pool::fund::{FundType, FundInfo, FundItem, FundList, type_bytes, type_at};

verus! {

/// The first byte of the bytes of a fund type: which variant it is.
pub open spec fn type_code(t: FundType) -> u8 {
    match t {
        FundType::Free { .. } => 0,
        FundType::PendingActivation => 1,
        FundType::ActivationFailed => 2,
        FundType::Active => 3,
        FundType::ActiveForSale { .. } => 4,
        FundType::PendingDeactivation { .. } => 5,
        FundType::UnBondPeriod { .. } => 6,
        FundType::PendingUnBond { .. } => 7,
        FundType::DeferredPayment { .. } => 8,
    }
}

proof fn lemma_type_code(t: FundType)
    ensures
        type_bytes(t)[0] == type_code(t),
        type_bytes(t).len() >= 1,
{
    match t {
        FundType::Free { requested_unstake } => assert((seq![0u8] + bool_bytes(requested_unstake))[0] == 0u8),
        FundType::PendingActivation => {},
        FundType::ActivationFailed => {},
        FundType::Active => {},
        FundType::ActiveForSale { created } => assert((seq![4u8] + u64_bytes(created))[0] == 4u8),
        FundType::PendingDeactivation { requested_unstake } => assert((seq![5u8] + bool_bytes(requested_unstake))[0] == 5u8),
        FundType::UnBondPeriod { created, requested_unstake } => assert((seq![6u8] + u64_bytes(created) + bool_bytes(
            requested_unstake,
        ))[0] == 6u8),
        FundType::PendingUnBond { unbond_created, requested_unstake } => assert((seq![7u8] + u64_bytes(unbond_created)
            + bool_bytes(requested_unstake))[0] == 7u8),
        FundType::DeferredPayment { created } => assert((seq![8u8] + u64_bytes(created))[0] == 8u8),
    }
}

/// Two fund types whose bytes start at the same place are equal.
pub proof fn lemma_type_at_unique(s: Seq<u8>, pos: int, t1: FundType, t2: FundType)
    requires
        type_at(s, pos, t1),
        type_at(s, pos, t2),
    ensures
        t1 == t2,
{
    let b1 = type_bytes(t1);
    let b2 = type_bytes(t2);
    assert(s[pos] == s.subrange(pos, pos + b1.len())[0]);
    assert(s[pos] == s.subrange(pos, pos + b2.len())[0]);
    assert(b1[0] == b2[0]);
    lemma_type_code(t1);
    lemma_type_code(t2);
    assert(type_code(t1) == type_code(t2));
    assert(b1.len() == b2.len());
    assert forall|i: int| 0 <= i < b1.len() implies b1[i] == b2[i] by {
        assert(s[pos + i] == s.subrange(pos, pos + b1.len())[i]);
        assert(s[pos + i] == s.subrange(pos, pos + b2.len())[i]);
    }
    assert(b1 =~= b2);
    match t1 {
        FundType::Free { requested_unstake: f1 } => {
            if let FundType::Free { requested_unstake: f2 } = t2 {
                assert(b1[1] == bool_bytes(f1)[0] && b2[1] == bool_bytes(f2)[0]);
            }
        },
        FundType::PendingDeactivation { requested_unstake: f1 } => {
            if let FundType::PendingDeactivation { requested_unstake: f2 } = t2 {
                assert(b1[1] == bool_bytes(f1)[0] && b2[1] == bool_bytes(f2)[0]);
            }
        },
        FundType::ActiveForSale { created: c1 } => {
            if let FundType::ActiveForSale { created: c2 } = t2 {
                assert(b1.subrange(1, 9) =~= u64_bytes(c1) && b2.subrange(1, 9) =~= u64_bytes(c2));
                lemma_created_equal(b1, b2, c1, c2);
            }
        },
        FundType::DeferredPayment { created: c1 } => {
            if let FundType::DeferredPayment { created: c2 } = t2 {
                assert(b1.subrange(1, 9) =~= u64_bytes(c1) && b2.subrange(1, 9) =~= u64_bytes(c2));
                lemma_created_equal(b1, b2, c1, c2);
            }
        },
        FundType::UnBondPeriod { created: c1, requested_unstake: f1 } => {
            if let FundType::UnBondPeriod { created: c2, requested_unstake: f2 } = t2 {
                assert(b1.subrange(1, 9) =~= u64_bytes(c1) && b2.subrange(1, 9) =~= u64_bytes(c2));
                lemma_created_equal(b1, b2, c1, c2);
                assert(b1[9] == bool_bytes(f1)[0] && b2[9] == bool_bytes(f2)[0]);
            }
        },
        FundType::PendingUnBond { unbond_created: c1, requested_unstake: f1 } => {
            if let FundType::PendingUnBond { unbond_created: c2, requested_unstake: f2 } = t2 {
                assert(b1.subrange(1, 9) =~= u64_bytes(c1) && b2.subrange(1, 9) =~= u64_bytes(c2));
                lemma_created_equal(b1, b2, c1, c2);
                assert(b1[9] == bool_bytes(f1)[0] && b2[9] == bool_bytes(f2)[0]);
            }
        },
        _ => {},
    }
}

/// Equal type bytes carry the same block number after their first byte.
proof fn lemma_created_equal(b1: Seq<u8>, b2: Seq<u8>, c1: u64, c2: u64)
    requires
        b1 == b2,
        b1.len() >= 9,
        b1.subrange(1, 9) == u64_bytes(c1),
        b2.subrange(1, 9) == u64_bytes(c2),
    ensures
        c1 == c2,
{
    lemma_u64_bytes_roundtrip(c1);
    lemma_u64_bytes_roundtrip(c2);
}

/// The embedded bytes of a fund: owner on 4 bytes, type, then balance as a big number.
pub open spec fn fund_item_bytes(it: FundItem) -> Seq<u8> {
    id_bytes(it.info.user_id) + type_bytes(it.info.fund_type) + biguint_bytes(it.balance)
}

/// The fund type whose bytes start at `pos` of `s`, when there is one (there is at most one).
pub open spec fn type_from(s: Seq<u8>, pos: int) -> Option<FundType> {
    if exists|t: FundType| #[trigger] type_at(s, pos, t) {
        Some(choose|t: FundType| #[trigger] type_at(s, pos, t))
    } else {
        None
    }
}

/// The fund that the bytes at `pos` of `s` read as, and the position after them, when they
/// read as one.
pub open spec fn fund_item_from(s: Seq<u8>, pos: int) -> Option<(FundItem, int)> {
    if 0 <= pos && pos + 4 <= s.len() {
        match type_from(s, pos + 4) {
            Some(t) => match biguint_at(s, pos + 4 + type_bytes(t).len()) {
                Some((b, e)) => Some(
                    (FundItem { info: FundInfo { user_id: u32_of_at(s, pos) as usize, fund_type: t }, balance: b }, e),
                ),
                None => None,
            },
            None => None,
        }
    } else {
        None
    }
}

impl FundItem {
    /// Appends the embedded bytes of this fund.
    pub fn dep_encode_to(&self, dest: &mut Vec<u8>)
        ensures
            final(dest)@ == old(dest)@ + fund_item_bytes(*self),
    {
        push_id(dest, self.info.user_id);
        self.info.fund_type.dep_encode_to(dest);
        push_biguint(dest, self.balance);
        assert(final(dest)@ =~= old(dest)@ + fund_item_bytes(*self));
    }

    /// Reads a fund at `pos`; what was written for a fund whose owner fits in 4 bytes reads
    /// back as that fund.
    pub fn dep_decode(input: &Vec<u8>, pos: usize) -> (r: Result<(FundItem, usize), DecodeError>)
        ensures
            r is Ok <==> fund_item_from(input@, pos as int) is Some,
            r matches Ok((it, p)) ==> fund_item_from(input@, pos as int) == Some((it, p as int)),
            r matches Ok((it, p)) ==> pos < p <= input@.len() && it.info.user_id <= u32::MAX,
            forall|it: FundItem|
                it.info.user_id <= u32::MAX && #[trigger] bytes_at(input@, pos as int, fund_item_bytes(it)) ==> r == Ok::<
                    (FundItem, usize),
                    DecodeError,
                >((it, (pos + fund_item_bytes(it).len()) as usize)),
    {
        let n = input.len();
        let (user_id, p1) = match read_id(input, pos) {
            Ok(x) => x,
            Err(e) => {
                proof {
                    assert(fund_item_from(input@, pos as int) is None);
                    assert forall|it: FundItem| it.info.user_id <= u32::MAX && #[trigger] bytes_at(
                        input@,
                        pos as int,
                        fund_item_bytes(it),
                    ) implies false by {
                        Self::lemma_parts(input@, pos as int, it);
                    }
                }
                return Err(e);
            },
        };
        let (fund_type, p2) = match FundType::dep_decode(input, p1) {
            Ok(x) => x,
            Err(e) => {
                proof {
                    assert(type_from(input@, p1 as int) is None);
                    assert(fund_item_from(input@, pos as int) is None);
                    assert forall|it: FundItem| it.info.user_id <= u32::MAX && #[trigger] bytes_at(
                        input@,
                        pos as int,
                        fund_item_bytes(it),
                    ) implies false by {
                        Self::lemma_parts(input@, pos as int, it);
                    }
                }
                return Err(e);
            },
        };
        proof {
            Self::lemma_type_from(input@, p1 as int, fund_type);
        }
        let (balance, p3) = match read_biguint(input, p2) {
            Ok(x) => x,
            Err(e) => {
                proof {
                    assert(biguint_at(input@, p2 as int) is None);
                    assert(fund_item_from(input@, pos as int) is None);
                    assert forall|it: FundItem| it.info.user_id <= u32::MAX && #[trigger] bytes_at(
                        input@,
                        pos as int,
                        fund_item_bytes(it),
                    ) implies false by {
                        Self::lemma_parts(input@, pos as int, it);
                        lemma_type_at_unique(input@, p1 as int, fund_type, it.info.fund_type);
                    }
                }
                return Err(e);
            },
        };
        let it = FundItem { info: FundInfo { user_id, fund_type }, balance };
        proof {
            assert(biguint_at(input@, p2 as int) == Some((balance, p3 as int)));
            assert(fund_item_from(input@, pos as int) == Some((it, p3 as int)));
            assert forall|it2: FundItem| it2.info.user_id <= u32::MAX && #[trigger] bytes_at(
                input@,
                pos as int,
                fund_item_bytes(it2),
            ) implies it2 == it && p3 == pos + fund_item_bytes(it2).len() by {
                Self::lemma_parts(input@, pos as int, it2);
                lemma_type_at_unique(input@, p1 as int, fund_type, it2.info.fund_type);
            }
        }
        Ok((it, p3))
    }

    /// The fund type read at `pos` is the one whose bytes start there.
    proof fn lemma_type_from(s: Seq<u8>, pos: int, t: FundType)
        requires
            type_at(s, pos, t),
        ensures
            type_from(s, pos) == Some(t),
    {
        let t2 = choose|t2: FundType| #[trigger] type_at(s, pos, t2);
        lemma_type_at_unique(s, pos, t, t2);
    }

    /// Where the parts of a fund's bytes lie, and what reading them gives.
    proof fn lemma_parts(s: Seq<u8>, pos: int, it: FundItem)
        requires
            it.info.user_id <= u32::MAX,
            bytes_at(s, pos, fund_item_bytes(it)),
        ensures
            u32_of_at(s, pos) as usize == it.info.user_id,
            type_at(s, pos + 4, it.info.fund_type),
            bytes_at(s, pos + 4 + type_bytes(it.info.fund_type).len(), biguint_bytes(it.balance)),
            ({
                let q = pos + 4 + type_bytes(it.info.fund_type).len();
                &&& u32_of_at(s, q) == crate::codec::min_be(it.balance as nat).len()
                &&& crate::codec::min_be(it.balance as nat).len() <= 16
                &&& crate::codec::be_value(s.subrange(q + 4, q + 4 + crate::codec::min_be(it.balance as nat).len()))
                    == it.balance
                &&& fund_item_bytes(it).len() == 4 + type_bytes(it.info.fund_type).len() + 4 + crate::codec::min_be(
                    it.balance as nat,
                ).len()
            }),
    {
        let u = id_bytes(it.info.user_id);
        let t = type_bytes(it.info.fund_type);
        let b = biguint_bytes(it.balance);
        lemma_bytes_at_split(s, pos, u + t, b);
        lemma_bytes_at_split(s, pos, u, t);
        lemma_id_read(s, pos, it.info.user_id);
        lemma_biguint_read(s, pos + 4 + t.len(), it.balance);
    }
}

/// The funds of `items` that are stored: those with a balance, in order.
pub open spec fn stored_funds(items: Seq<FundItem>) -> Seq<FundItem>
    decreases items.len(),
{
    if items.len() == 0 {
        items
    } else if items.last().balance > 0 {
        stored_funds(items.drop_last()).push(items.last())
    } else {
        stored_funds(items.drop_last())
    }
}

/// The embedded bytes of `items`, one after the other.
pub open spec fn funds_bytes(items: Seq<FundItem>) -> Seq<u8>
    decreases items.len(),
{
    if items.len() == 0 {
        Seq::empty()
    } else {
        funds_bytes(items.drop_last()) + fund_item_bytes(items.last())
    }
}

/// Every owner of `items` fits in 4 bytes.
pub open spec fn owners_fit(items: Seq<FundItem>) -> bool {
    forall|i: int| 0 <= i < items.len() ==> #[trigger] items[i].info.user_id <= u32::MAX
}

proof fn lemma_fund_item_bytes_len(it: FundItem)
    ensures
        fund_item_bytes(it).len() >= 9,
{
    lemma_type_code(it.info.fund_type);
}

/// The bytes of the first `k` funds start the bytes of all of them, and each further fund
/// adds its own bytes.
proof fn lemma_funds_bytes_prefix(items: Seq<FundItem>, k: int)
    requires
        0 <= k <= items.len(),
    ensures
        funds_bytes(items.take(k)).len() <= funds_bytes(items).len(),
        funds_bytes(items).subrange(0, funds_bytes(items.take(k)).len() as int) == funds_bytes(items.take(k)),
        k < items.len() ==> funds_bytes(items.take(k + 1)) == funds_bytes(items.take(k)) + fund_item_bytes(items[k]),
        k < items.len() ==> funds_bytes(items.take(k)).len() < funds_bytes(items).len(),
    decreases items.len(),
{
    if k < items.len() {
        assert(items.take(k + 1).drop_last() =~= items.take(k));
        assert(items.take(k + 1).last() == items[k]);
        let d = items.drop_last();
        lemma_funds_bytes_prefix(d, k);
        assert(d.take(k) =~= items.take(k));
        lemma_fund_item_bytes_len(items.last());
        let a = funds_bytes(d);
        let b = fund_item_bytes(items.last());
        assert(funds_bytes(items) == a + b);
        assert((a + b).subrange(0, funds_bytes(items.take(k)).len() as int) =~= a.subrange(
            0,
            funds_bytes(items.take(k)).len() as int,
        ));
    } else {
        assert(items.take(k) =~= items);
        assert(funds_bytes(items).subrange(0, funds_bytes(items).len() as int) =~= funds_bytes(items));
    }
}

/// The bytes of fund `k` of `items` lie right after those of the funds before it.
proof fn lemma_fund_at(items: Seq<FundItem>, k: int)
    requires
        0 <= k < items.len(),
    ensures
        bytes_at(funds_bytes(items), funds_bytes(items.take(k)).len() as int, fund_item_bytes(items[k])),
{
    lemma_funds_bytes_prefix(items, k);
    lemma_funds_bytes_prefix(items, k + 1);
    let s = funds_bytes(items);
    let a = funds_bytes(items.take(k));
    let b = fund_item_bytes(items[k]);
    assert(s.subrange(0, (a + b).len() as int) == a + b);
    assert(s.subrange(a.len() as int, (a.len() + b.len()) as int) =~= (a + b).subrange(a.len() as int, (a + b).len() as int));
    assert((a + b).subrange(a.len() as int, (a + b).len() as int) =~= b);
}

/// The funds that the bytes of `s` from `pos` on read as, one after the other up to the end,
/// when they all read as funds.
pub open spec fn funds_from(s: Seq<u8>, pos: int) -> Option<Seq<FundItem>>
    decreases s.len() - pos,
{
    if pos >= s.len() {
        Some(Seq::empty())
    } else {
        match fund_item_from(s, pos) {
            Some((it, e)) => if e > pos {
                match funds_from(s, e) {
                    Some(rest) => Some(seq![it] + rest),
                    None => None,
                }
            } else {
                None
            },
            None => None,
        }
    }
}

/// `o` with `a` put in front, when there is one.
pub open spec fn prepended(a: Seq<FundItem>, o: Option<Seq<FundItem>>) -> Option<Seq<FundItem>> {
    match o {
        Some(rest) => Some(a + rest),
        None => None,
    }
}

impl FundList {
    /// The stored bytes of the list: the embedded bytes of each fund with a balance.
    pub fn top_encode(&self) -> (r: Vec<u8>)
        ensures
            r@ == funds_bytes(stored_funds(self.0@)),
    {
        let mut out: Vec<u8> = Vec::new();
        let mut i: usize = 0;
        let n = self.0.len();
        while i < n
            invariant
                n == self.0@.len(),
                i <= n,
                out@ == funds_bytes(stored_funds(self.0@.take(i as int))),
            decreases n - i,
        {
            let ghost before = self.0@.take(i as int);
            proof {
                assert(self.0@.take(i + 1).drop_last() =~= before);
            }
            if self.0[i].balance > 0 {
                self.0[i].dep_encode_to(&mut out);
                proof {
                    let sf = stored_funds(before);
                    assert(stored_funds(self.0@.take(i + 1)) == sf.push(self.0@[i as int]));
                    assert(sf.push(self.0@[i as int]).drop_last() =~= sf);
                }
            }
            i = i + 1;
        }
        proof {
            assert(self.0@.take(n as int) =~= self.0@);
        }
        out
    }

    /// Reads a stored list: funds one after the other up to the end of the input. The bytes
    /// of funds whose owners fit in 4 bytes read back as those funds.
    pub fn top_decode(input: &Vec<u8>) -> (r: Result<FundList, DecodeError>)
        ensures
            r is Ok <==> funds_from(input@, 0) is Some,
            r matches Ok(l) ==> funds_from(input@, 0) == Some(l.0@),
            r matches Ok(l) ==> owners_fit(l.0@),
            forall|items: Seq<FundItem>|
                owners_fit(items) && input@ == #[trigger] funds_bytes(items) ==> (r matches Ok(l) && l.0@ == items),
    {
        let mut out: Vec<FundItem> = Vec::new();
        let mut pos: usize = 0;
        let n = input.len();
        while pos < n
            invariant
                n == input@.len(),
                pos <= n,
                owners_fit(out@),
                prepended(out@, funds_from(input@, pos as int)) == funds_from(input@, 0),
                forall|items: Seq<FundItem>|
                    owners_fit(items) && input@ == #[trigger] funds_bytes(items) ==> out@.len() <= items.len() && out@
                        == items.take(out@.len() as int) && pos == funds_bytes(items.take(out@.len() as int)).len(),
            decreases n - pos,
        {
            match FundItem::dep_decode(input, pos) {
                Ok((it, p)) => {
                    let ghost k = out@.len() as int;
                    proof {
                        assert forall|items: Seq<FundItem>|
                            owners_fit(items) && input@ == #[trigger] funds_bytes(items) implies k < items.len() && it
                            == items[k] && p == funds_bytes(items.take(k + 1)).len() by {
                            if k == items.len() {
                                assert(items.take(k) =~= items);
                            }
                            lemma_fund_at(items, k);
                            lemma_funds_bytes_prefix(items, k);
                            assert(items[k].info.user_id <= u32::MAX);
                        }
                    }
                    let ghost prev = out@;
                    let ghost pos0 = pos as int;
                    out.push(it);
                    pos = p;
                    proof {
                        assert(funds_from(input@, pos0) == prepended(seq![it], funds_from(input@, p as int)));
                        match funds_from(input@, p as int) {
                            Some(rest) => {
                                assert(prev + (seq![it] + rest) =~= out@ + rest);
                            },
                            None => {},
                        }
                        assert forall|items: Seq<FundItem>|
                            owners_fit(items) && input@ == #[trigger] funds_bytes(items) implies out@ == items.take(out@.len() as int) by {
                            assert(out@ =~= items.take(k + 1));
                        }
                        assert forall|i: int| 0 <= i < out@.len() implies #[trigger] out@[i].info.user_id <= u32::MAX by {
                            if i < k {
                                assert(out@[i] == prev[i]);
                            }
                        }
                    }
                },
                Err(e) => {
                    proof {
                        assert(funds_from(input@, pos as int) is None);
                        assert forall|items: Seq<FundItem>|
                            owners_fit(items) && input@ == #[trigger] funds_bytes(items) implies false by {
                            let k = out@.len() as int;
                            if k == items.len() {
                                assert(items.take(k) =~= items);
                            }
                            lemma_fund_at(items, k);
                            assert(items[k].info.user_id <= u32::MAX);
                        }
                    }
                    return Err(e);
                },
            }
        }
        proof {
            assert(funds_from(input@, pos as int) == Some(Seq::<FundItem>::empty()));
            assert(out@ + Seq::<FundItem>::empty() =~= out@);
            assert forall|items: Seq<FundItem>| owners_fit(items) && input@ == #[trigger] funds_bytes(items) implies out@
                == items by {
                let k = out@.len() as int;
                lemma_funds_bytes_prefix(items, k);
                assert(out@ =~= items.take(k));
                assert(items.take(k) =~= items);
            }
        }
        Ok(FundList(out))
    }
}

/// The embedded bytes of an unbond queue entry: user id on 4 bytes, then the amount.
pub open spec fn queue_item_bytes(q: UnbondQueueItem) -> Seq<u8> {
    id_bytes(q.user_id) + biguint_bytes(q.amount)
}

/// The embedded bytes of a stake sale payment: seller id on 4 bytes, amount, then the block
/// after which it can be claimed on 8 bytes.
pub open spec fn sale_payment_bytes(p: StakeSalePayment) -> Seq<u8> {
    id_bytes(p.user_id) + biguint_bytes(p.amount) + u64_bytes(p.claim_after_nonce)
}

/// Reads 8 bytes at `pos` that were written for `v`.
proof fn lemma_u64_read(s: Seq<u8>, pos: int, v: u64)
    requires
        bytes_at(s, pos, u64_bytes(v)),
    ensures
        u64_of(s[pos], s[pos + 1], s[pos + 2], s[pos + 3], s[pos + 4], s[pos + 5], s[pos + 6], s[pos + 7]) == v,
{
    let b = u64_bytes(v);
    assert forall|i: int| 0 <= i < 8 implies s[pos + i] == b[i] by {
        assert(s[pos + i] == s.subrange(pos, pos + 8)[i]);
    }
    lemma_u64_bytes_roundtrip(v);
}

/// The id and big number that the bytes at `pos` of `s` read as, and the position after them.
pub open spec fn id_amount_from(s: Seq<u8>, pos: int) -> Option<(usize, u128, int)> {
    if 0 <= pos && pos + 4 <= s.len() {
        match biguint_at(s, pos + 4) {
            Some((a, e)) => Some((u32_of_at(s, pos) as usize, a, e)),
            None => None,
        }
    } else {
        None
    }
}

/// The unbond queue entry that the bytes at `pos` of `s` read as, and the position after them.
pub open spec fn queue_item_from(s: Seq<u8>, pos: int) -> Option<(UnbondQueueItem, int)> {
    match id_amount_from(s, pos) {
        Some((u, a, e)) => Some((UnbondQueueItem { user_id: u, amount: a }, e)),
        None => None,
    }
}

/// The stake sale payment that the bytes at `pos` of `s` read as, and the position after them.
pub open spec fn sale_payment_from(s: Seq<u8>, pos: int) -> Option<(StakeSalePayment, int)> {
    match id_amount_from(s, pos) {
        Some((u, a, e)) => if e + 8 <= s.len() {
            Some(
                (
                    StakeSalePayment {
                        user_id: u,
                        amount: a,
                        claim_after_nonce: u64_of(s[e], s[e + 1], s[e + 2], s[e + 3], s[e + 4], s[e + 5], s[e + 6], s[e + 7]),
                    },
                    e + 8,
                ),
            )
        } else {
            None
        },
        None => None,
    }
}

/// Reads an id and a big number at `pos`, as written first in several records.
fn read_id_and_amount(input: &Vec<u8>, pos: usize) -> (r: Result<(usize, u128, usize), DecodeError>)
    ensures
        r is Ok <==> id_amount_from(input@, pos as int) is Some,
        r matches Ok((u, a, p)) ==> id_amount_from(input@, pos as int) == Some((u, a, p as int)),
        r matches Ok((u, a, p)) ==> pos < p <= input@.len() && u <= u32::MAX,
        forall|u: usize, a: u128|
            u <= u32::MAX && #[trigger] bytes_at(input@, pos as int, id_bytes(u) + biguint_bytes(a)) ==> r == Ok::<
                (usize, u128, usize),
                DecodeError,
            >((u, a, (pos + 4 + biguint_bytes(a).len()) as usize)),
{
    let n = input.len();
    let (u, p1) = match read_id(input, pos) {
        Ok(x) => x,
        Err(e) => {
            proof {
                assert forall|u2: usize, a2: u128|
                    u2 <= u32::MAX && #[trigger] bytes_at(input@, pos as int, id_bytes(u2) + biguint_bytes(a2)) implies false by {
                    lemma_bytes_at_split(input@, pos as int, id_bytes(u2), biguint_bytes(a2));
                }
            }
            return Err(e);
        },
    };
    match read_biguint(input, p1) {
        Ok((a, p2)) => {
            proof {
                assert(biguint_at(input@, p1 as int) == Some((a, p2 as int)));
                assert forall|u2: usize, a2: u128|
                    u2 <= u32::MAX && #[trigger] bytes_at(input@, pos as int, id_bytes(u2) + biguint_bytes(a2)) implies u2 == u
                    && a2 == a && p2 == pos + 4 + biguint_bytes(a2).len() by {
                    lemma_bytes_at_split(input@, pos as int, id_bytes(u2), biguint_bytes(a2));
                    lemma_id_read(input@, pos as int, u2);
                    lemma_biguint_read(input@, pos + 4, a2);
                }
            }
            Ok((u, a, p2))
        },
        Err(e) => {
            proof {
                assert forall|u2: usize, a2: u128|
                    u2 <= u32::MAX && #[trigger] bytes_at(input@, pos as int, id_bytes(u2) + biguint_bytes(a2)) implies false by {
                    lemma_bytes_at_split(input@, pos as int, id_bytes(u2), biguint_bytes(a2));
                    lemma_biguint_read(input@, pos + 4, a2);
                }
            }
            Err(e)
        },
    }
}

impl UnbondQueueItem {
    /// Appends the embedded bytes of this entry.
    pub fn dep_encode_to(&self, dest: &mut Vec<u8>)
        ensures
            final(dest)@ == old(dest)@ + queue_item_bytes(*self),
    {
        push_id(dest, self.user_id);
        push_biguint(dest, self.amount);
        assert(final(dest)@ =~= old(dest)@ + queue_item_bytes(*self));
    }

    /// Reads an entry at `pos`; what was written for an entry whose user id fits in 4 bytes
    /// reads back as that entry.
    pub fn dep_decode(input: &Vec<u8>, pos: usize) -> (r: Result<(UnbondQueueItem, usize), DecodeError>)
        ensures
            r is Ok <==> queue_item_from(input@, pos as int) is Some,
            r matches Ok((q, p)) ==> queue_item_from(input@, pos as int) == Some((q, p as int)),
            r matches Ok((q, p)) ==> pos < p <= input@.len() && q.user_id <= u32::MAX,
            forall|q: UnbondQueueItem|
                q.user_id <= u32::MAX && #[trigger] bytes_at(input@, pos as int, queue_item_bytes(q)) ==> r == Ok::<
                    (UnbondQueueItem, usize),
                    DecodeError,
                >((q, (pos + queue_item_bytes(q).len()) as usize)),
    {
        let n = input.len();
        let r1 = read_id_and_amount(input, pos);
        let (user_id, amount, p) = match r1 {
            Ok(x) => x,
            Err(e) => {
                proof {
                    assert forall|q: UnbondQueueItem|
                        q.user_id <= u32::MAX && #[trigger] bytes_at(input@, pos as int, queue_item_bytes(q)) implies false by {
                        assert(bytes_at(input@, pos as int, id_bytes(q.user_id) + biguint_bytes(q.amount)));
                    }
                }
                return Err(e);
            },
        };
        proof {
            assert forall|q: UnbondQueueItem|
                q.user_id <= u32::MAX && #[trigger] bytes_at(input@, pos as int, queue_item_bytes(q)) implies q == (
            UnbondQueueItem { user_id, amount }) && p == pos + queue_item_bytes(q).len() by {
                assert(bytes_at(input@, pos as int, id_bytes(q.user_id) + biguint_bytes(q.amount)));
                assert(r1 == Ok::<(usize, u128, usize), DecodeError>((q.user_id, q.amount, (pos + 4 + biguint_bytes(q.amount).len()) as usize)));
            }
        }
        Ok((UnbondQueueItem { user_id, amount }, p))
    }
}

impl StakeSalePayment {
    /// Appends the embedded bytes of this payment.
    pub fn dep_encode_to(&self, dest: &mut Vec<u8>)
        ensures
            final(dest)@ == old(dest)@ + sale_payment_bytes(*self),
    {
        push_id(dest, self.user_id);
        push_biguint(dest, self.amount);
        push_u64(dest, self.claim_after_nonce);
        assert(final(dest)@ =~= old(dest)@ + sale_payment_bytes(*self));
    }

    /// Reads a payment at `pos`; what was written for a payment whose seller id fits in 4
    /// bytes reads back as that payment.
    pub fn dep_decode(input: &Vec<u8>, pos: usize) -> (r: Result<(StakeSalePayment, usize), DecodeError>)
        ensures
            r is Ok <==> sale_payment_from(input@, pos as int) is Some,
            r matches Ok((sp, p)) ==> sale_payment_from(input@, pos as int) == Some((sp, p as int)),
            r matches Ok((sp, p)) ==> pos < p <= input@.len() && sp.user_id <= u32::MAX,
            forall|sp: StakeSalePayment|
                sp.user_id <= u32::MAX && #[trigger] bytes_at(input@, pos as int, sale_payment_bytes(sp)) ==> r == Ok::<
                    (StakeSalePayment, usize),
                    DecodeError,
                >((sp, (pos + sale_payment_bytes(sp).len()) as usize)),
    {
        let n = input.len();
        let r1 = read_id_and_amount(input, pos);
        let (user_id, amount, p1) = match r1 {
            Ok(x) => x,
            Err(e) => {
                proof {
                    assert forall|sp: StakeSalePayment|
                        sp.user_id <= u32::MAX && #[trigger] bytes_at(input@, pos as int, sale_payment_bytes(sp)) implies false by {
                        lemma_bytes_at_split(input@, pos as int, id_bytes(sp.user_id) + biguint_bytes(sp.amount), u64_bytes(sp.claim_after_nonce));
                    }
                }
                return Err(e);
            },
        };
        let r2 = read_u64(input, p1);
        match r2 {
            Ok((claim_after_nonce, p2)) => {
                let sp = StakeSalePayment { user_id, amount, claim_after_nonce };
                proof {
                    assert forall|sp2: StakeSalePayment|
                        sp2.user_id <= u32::MAX && #[trigger] bytes_at(input@, pos as int, sale_payment_bytes(sp2)) implies sp2 == sp
                        && p2 == pos + sale_payment_bytes(sp2).len() by {
                        let head = id_bytes(sp2.user_id) + biguint_bytes(sp2.amount);
                        lemma_bytes_at_split(input@, pos as int, head, u64_bytes(sp2.claim_after_nonce));
                        assert(r1 == Ok::<(usize, u128, usize), DecodeError>((sp2.user_id, sp2.amount, (pos + 4 + biguint_bytes(sp2.amount).len()) as usize)));
                        lemma_u64_read(input@, pos + head.len(), sp2.claim_after_nonce);
                    }
                }
                Ok((sp, p2))
            },
            Err(e) => {
                proof {
                    assert forall|sp: StakeSalePayment|
                        sp.user_id <= u32::MAX && #[trigger] bytes_at(input@, pos as int, sale_payment_bytes(sp)) implies false by {
                        let head = id_bytes(sp.user_id) + biguint_bytes(sp.amount);
                        lemma_bytes_at_split(input@, pos as int, head, u64_bytes(sp.claim_after_nonce));
                    }
                }
                Err(e)
            },
        }
    }
}

/// A stored list reads back as its funds with a balance: when the owners of `items` fit in 4
/// bytes, so do those of `stored_funds(items)`, and `FundList::top_decode` of the bytes that
/// `FundList::top_encode` writes for `items` gives `stored_funds(items)`; every fund read back
/// has a balance.
pub proof fn law_fund_list_roundtrip(items: Seq<FundItem>)
    requires
        owners_fit(items),
    ensures
        owners_fit(stored_funds(items)),
        forall|i: int| 0 <= i < stored_funds(items).len() ==> #[trigger] stored_funds(items)[i].balance > 0,
    decreases items.len(),
{
    if items.len() > 0 {
        let d = items.drop_last();
        assert forall|i: int| 0 <= i < d.len() implies #[trigger] d[i].info.user_id <= u32::MAX by {
            assert(d[i] == items[i]);
        }
        law_fund_list_roundtrip(d);
        let sd = stored_funds(d);
        if items.last().balance > 0 {
            assert forall|i: int| 0 <= i < sd.push(items.last()).len() implies #[trigger] sd.push(items.last())[i].info.user_id
                <= u32::MAX && sd.push(items.last())[i].balance > 0 by {
                if i < sd.len() {
                    assert(sd.push(items.last())[i] == sd[i]);
                }
            }
        }
    }
}


} // verus!
