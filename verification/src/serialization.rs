use vstd::prelude::*;
use crate::codec::{
    DecodeError, u64_bytes, u64_of, u32_bytes, u32_of, biguint_bytes, be_value, min_be, push_u64, push_u32,
    push_biguint, read_u64, read_u32, read_byte, read_biguint, u32_of_at, biguint_at, lemma_u64_bytes_roundtrip, lemma_u32_bytes_roundtrip,
    lemma_min_be, lemma_pow_256_16,
};
use crate::fund_type::{FundDescription, FundType, type_index, type_at, lemma_type_index_inverse};
use crate::fund_item::{FundItem, FundsListInfo, default_item, empty_list_info};

verus! {

/// The bytes of a fund type: its discriminant.
pub open spec fn type_bytes(t: FundType) -> Seq<u8> {
    seq![type_index(t) as u8]
}

/// The bytes of a description: the discriminant of its type, then the creation block of
/// the variants that carry one.
pub open spec fn desc_bytes(d: FundDescription) -> Seq<u8> {
    match d {
        FundDescription::WithdrawOnly => seq![0u8],
        FundDescription::Waiting { created } => seq![1u8] + u64_bytes(created),
        FundDescription::_PendingAct => seq![2u8],
        FundDescription::_ActiveFailed => seq![3u8],
        FundDescription::Active => seq![4u8],
        FundDescription::UnStaked { created } => seq![5u8] + u64_bytes(created),
        FundDescription::DeferredPayment { created } => seq![6u8] + u64_bytes(created),
    }
}

/// The bytes of an id (a `usize`), on 4 bytes as the stored format has it.
pub open spec fn id_bytes(v: usize) -> Seq<u8> {
    u32_bytes(v as u32)
}

/// The embedded bytes of a fund item: description, owner, balance and the four links.
pub open spec fn item_bytes(it: FundItem) -> Seq<u8> {
    desc_bytes(it.fund_desc) + id_bytes(it.user_id) + biguint_bytes(it.balance) + id_bytes(it.type_list_next)
        + id_bytes(it.type_list_prev) + id_bytes(it.user_list_next) + id_bytes(it.user_list_prev)
}

/// The stored bytes of a fund item: nothing for an item that reads as default.
pub open spec fn item_top_bytes(it: FundItem) -> Seq<u8> {
    if it.spec_is_default() {
        Seq::empty()
    } else {
        item_bytes(it)
    }
}

/// The embedded bytes of a list head: sum, first and last id.
pub open spec fn info_bytes(info: FundsListInfo) -> Seq<u8> {
    biguint_bytes(info.total_balance) + id_bytes(info.first) + id_bytes(info.last)
}

/// The stored bytes of a list head: nothing for the empty head.
pub open spec fn info_top_bytes(info: FundsListInfo) -> Seq<u8> {
    if info.spec_is_empty() {
        Seq::empty()
    } else {
        info_bytes(info)
    }
}

/// What a stored item reads back as: itself, or the default item where its storage is empty.
pub open spec fn stored_item(it: FundItem) -> FundItem {
    if it.spec_is_default() {
        default_item()
    } else {
        it
    }
}

/// Ids that fit the stored 4-byte format.
pub open spec fn ids_fit(it: FundItem) -> bool {
    &&& it.user_id <= u32::MAX
    &&& it.type_list_next <= u32::MAX
    &&& it.type_list_prev <= u32::MAX
    &&& it.user_list_next <= u32::MAX
    &&& it.user_list_prev <= u32::MAX
}

pub(crate) fn push_id(out: &mut Vec<u8>, v: usize)
    ensures
        final(out)@ == old(out)@ + id_bytes(v),
{
    push_u32(out, v as u32);
}

pub(crate) fn read_id(input: &Vec<u8>, pos: usize) -> (r: Result<(usize, usize), DecodeError>)
    ensures
        r matches Ok((v, p)) ==> p == pos + 4 && pos + 4 <= input@.len() && v <= u32::MAX,
        pos + 4 > input@.len() ==> r is Err,
        pos + 4 <= input@.len() ==> r == Ok::<(usize, usize), DecodeError>(
            (u32_of(input@[pos as int], input@[pos + 1], input@[pos + 2], input@[pos + 3]) as usize, (pos + 4) as usize),
        ),
{
    let n = input.len();
    match read_u32(input, pos) {
        Ok((v, p)) => Ok((v as usize, p)),
        Err(e) => Err(e),
    }
}

impl FundType {
    /// Appends the discriminant of this type.
    pub fn dep_encode(&self, out: &mut Vec<u8>)
        ensures
            final(out)@ == old(out)@ + type_bytes(*self),
    {
        out.push(self.discriminant());
        assert(final(out)@ =~= old(out)@ + type_bytes(*self));
    }

    /// Reads a fund type at `pos`: one discriminant byte, 0 to 6.
    pub fn dep_decode(input: &Vec<u8>, pos: usize) -> (r: Result<(FundType, usize), DecodeError>)
        ensures
            pos >= input@.len() ==> r == Err::<(FundType, usize), DecodeError>(DecodeError::InputTooShort),
            pos < input@.len() && input@[pos as int] >= 7 ==> r == Err::<(FundType, usize), DecodeError>(
                DecodeError::InvalidValue,
            ),
            pos < input@.len() && input@[pos as int] < 7 ==> r == Ok::<(FundType, usize), DecodeError>(
                (type_at(input@[pos as int] as int), (pos + 1) as usize),
            ),
    {
        let (b, p) = read_byte(input, pos)?;
        match b {
            0 => Ok((FundType::WithdrawOnly, p)),
            1 => Ok((FundType::Waiting, p)),
            2 => Ok((FundType::_PendingAct, p)),
            3 => Ok((FundType::_ActiveFailed, p)),
            4 => Ok((FundType::Active, p)),
            5 => Ok((FundType::UnStaked, p)),
            6 => Ok((FundType::DeferredPayment, p)),
            _ => Err(DecodeError::InvalidValue),
        }
    }
}

/// Reading back the bytes of a fund type gives it back.
pub proof fn lemma_type_roundtrip(t: FundType, prefix: Seq<u8>, rest: Seq<u8>)
    ensures
        (prefix + type_bytes(t) + rest)[prefix.len() as int] < 7,
        type_at((prefix + type_bytes(t) + rest)[prefix.len() as int] as int) == t,
{
    lemma_type_index_inverse(t);
    assert((prefix + type_bytes(t) + rest)[prefix.len() as int] == type_index(t) as u8);
}

impl FundDescription {
    /// Appends the bytes of this description.
    pub fn dep_encode(&self, out: &mut Vec<u8>)
        ensures
            final(out)@ == old(out)@ + desc_bytes(*self),
    {
        match self {
            FundDescription::WithdrawOnly => {
                out.push(0u8);
            },
            FundDescription::Waiting { created } => {
                out.push(1u8);
                push_u64(out, *created);
            },
            FundDescription::_PendingAct => {
                out.push(2u8);
            },
            FundDescription::_ActiveFailed => {
                out.push(3u8);
            },
            FundDescription::Active => {
                out.push(4u8);
            },
            FundDescription::UnStaked { created } => {
                out.push(5u8);
                push_u64(out, *created);
            },
            FundDescription::DeferredPayment { created } => {
                out.push(6u8);
                push_u64(out, *created);
            },
        }
        assert(final(out)@ =~= old(out)@ + desc_bytes(*self));
    }

    /// Reads a description at `pos`.
    pub fn dep_decode(input: &Vec<u8>, pos: usize) -> (r: Result<(FundDescription, usize), DecodeError>)
        ensures
            r matches Ok((d, p)) ==> pos <= p <= input@.len() && input@.subrange(pos as int, p as int) == desc_bytes(d),
            pos >= input@.len() ==> r == Err::<(FundDescription, usize), DecodeError>(DecodeError::InputTooShort),
            pos < input@.len() && input@[pos as int] >= 7 ==> r == Err::<(FundDescription, usize), DecodeError>(
                DecodeError::InvalidValue,
            ),
            (exists|d: FundDescription| #[trigger] desc_at(input@, pos as int, d)) ==> r is Ok,
    {
        if pos >= input.len() {
            proof {
                assert forall|d: FundDescription| !#[trigger] desc_at(input@, pos as int, d) by {}
            }
            return Err(DecodeError::InputTooShort);
        }
        let b = input[pos];
        let p = pos + 1;
        proof {
            assert forall|d: FundDescription| #[trigger] desc_at(input@, pos as int, d) implies input@[pos as int]
                == desc_bytes(d)[0] by {
                assert(input@[pos as int] == input@.subrange(pos as int, pos + desc_bytes(d).len())[0]);
            }
        }
        if b == 0 || b == 2 || b == 3 || b == 4 {
            let d = if b == 0 {
                FundDescription::WithdrawOnly
            } else if b == 2 {
                FundDescription::_PendingAct
            } else if b == 3 {
                FundDescription::_ActiveFailed
            } else {
                FundDescription::Active
            };
            assert(input@.subrange(pos as int, p as int) =~= desc_bytes(d));
            Ok((d, p))
        } else if b == 1 || b == 5 || b == 6 {
            match read_u64(input, p) {
                Ok((created, p2)) => {
                    let d = if b == 1 {
                        FundDescription::Waiting { created }
                    } else if b == 5 {
                        FundDescription::UnStaked { created }
                    } else {
                        FundDescription::DeferredPayment { created }
                    };
                    proof {
                        lemma_u64_of_bytes(input@, p as int, created);
                        assert(input@.subrange(pos as int, p2 as int) =~= seq![b] + input@.subrange(p as int, p2 as int));
                    }
                    Ok((d, p2))
                },
                Err(e) => {
                    proof {
                        assert forall|d: FundDescription| !#[trigger] desc_at(input@, pos as int, d) by {
                            if desc_at(input@, pos as int, d) {
                                assert(desc_bytes(d)[0] == b);
                                assert(desc_bytes(d).len() == 9);
                            }
                        }
                    }
                    Err(e)
                },
            }
        } else {
            proof {
                assert forall|d: FundDescription| !#[trigger] desc_at(input@, pos as int, d) by {
                    if desc_at(input@, pos as int, d) {
                        assert(desc_bytes(d)[0] == b);
                    }
                }
            }
            Err(DecodeError::InvalidValue)
        }
    }
}

/// The bytes of `d` start at `pos` in `s`.
pub open spec fn desc_at(s: Seq<u8>, pos: int, d: FundDescription) -> bool {
    0 <= pos && pos + desc_bytes(d).len() <= s.len() && s.subrange(pos, pos + desc_bytes(d).len()) == desc_bytes(d)
}

/// The 8 bytes at `p` are those of the number read from them.
pub(crate) proof fn lemma_u64_of_bytes(s: Seq<u8>, p: int, v: u64)
    requires
        0 <= p,
        p + 8 <= s.len(),
        v == u64_of(s[p], s[p + 1], s[p + 2], s[p + 3], s[p + 4], s[p + 5], s[p + 6], s[p + 7]),
    ensures
        s.subrange(p, p + 8) == u64_bytes(v),
{
    crate::codec::lemma_u64_of_roundtrip(s[p], s[p + 1], s[p + 2], s[p + 3], s[p + 4], s[p + 5], s[p + 6], s[p + 7]);
    assert(s.subrange(p, p + 8) =~= seq![s[p], s[p + 1], s[p + 2], s[p + 3], s[p + 4], s[p + 5], s[p + 6], s[p + 7]]);
}

/// Two descriptions whose bytes start at the same place are equal.
pub proof fn lemma_desc_unique(s: Seq<u8>, pos: int, d1: FundDescription, d2: FundDescription)
    requires
        desc_at(s, pos, d1),
        desc_at(s, pos, d2),
    ensures
        d1 == d2,
{
    let b1 = desc_bytes(d1);
    let b2 = desc_bytes(d2);
    assert(s[pos] == s.subrange(pos, pos + b1.len())[0]);
    assert(s[pos] == s.subrange(pos, pos + b2.len())[0]);
    assert(b1[0] == b2[0]);
    if b1.len() == 9 {
        assert(b2.len() == 9);
        assert(s.subrange(pos + 1, pos + 9) =~= b1.subrange(1, 9));
        assert(s.subrange(pos + 1, pos + 9) =~= b2.subrange(1, 9));
        match d1 {
            FundDescription::Waiting { created: c1 } => {
                assert(b1.subrange(1, 9) =~= u64_bytes(c1));
                match d2 {
                    FundDescription::Waiting { created: c2 } => {
                        assert(b2.subrange(1, 9) =~= u64_bytes(c2));
                        lemma_u64_bytes_roundtrip(c1);
                        lemma_u64_bytes_roundtrip(c2);
                    },
                    _ => {},
                }
            },
            FundDescription::UnStaked { created: c1 } => {
                assert(b1.subrange(1, 9) =~= u64_bytes(c1));
                match d2 {
                    FundDescription::UnStaked { created: c2 } => {
                        assert(b2.subrange(1, 9) =~= u64_bytes(c2));
                        lemma_u64_bytes_roundtrip(c1);
                        lemma_u64_bytes_roundtrip(c2);
                    },
                    _ => {},
                }
            },
            FundDescription::DeferredPayment { created: c1 } => {
                assert(b1.subrange(1, 9) =~= u64_bytes(c1));
                match d2 {
                    FundDescription::DeferredPayment { created: c2 } => {
                        assert(b2.subrange(1, 9) =~= u64_bytes(c2));
                        lemma_u64_bytes_roundtrip(c1);
                        lemma_u64_bytes_roundtrip(c2);
                    },
                    _ => {},
                }
            },
            _ => {},
        }
    }
}

/// The description read at `pos` is the one whose bytes start there.
pub proof fn lemma_desc_from(s: Seq<u8>, pos: int, d: FundDescription)
    requires
        desc_at(s, pos, d),
    ensures
        desc_from(s, pos) == Some(d),
{
    let d2 = choose|d2: FundDescription| #[trigger] desc_at(s, pos, d2);
    lemma_desc_unique(s, pos, d, d2);
}

/// Reading back the bytes of a description gives it back.
pub proof fn lemma_desc_roundtrip(s: Seq<u8>, pos: int, d: FundDescription, r: Result<(FundDescription, usize), DecodeError>)
    requires
        desc_at(s, pos, d),
        r matches Ok((d2, p)) ==> pos <= p <= s.len() && s.subrange(pos, p as int) == desc_bytes(d2),
        r is Ok,
    ensures
        r == Ok::<(FundDescription, usize), DecodeError>((d, (pos + desc_bytes(d).len()) as usize)),
{
    let (d2, p) = r.unwrap();
    assert(desc_at(s, pos, d2));
    lemma_desc_unique(s, pos, d, d2);
}

/// The description whose bytes start at `pos` of `s`, when there is one (there is at most one).
pub open spec fn desc_from(s: Seq<u8>, pos: int) -> Option<FundDescription> {
    if exists|d: FundDescription| #[trigger] desc_at(s, pos, d) {
        Some(choose|d: FundDescription| #[trigger] desc_at(s, pos, d))
    } else {
        None
    }
}

/// The item that the embedded bytes at `pos` of `s` read as, and the position after them,
/// when they read as one.
pub open spec fn item_from(s: Seq<u8>, pos: int) -> Option<(FundItem, int)> {
    match desc_from(s, pos) {
        Some(d) => {
            let p1 = pos + desc_bytes(d).len();
            if p1 + 4 <= s.len() {
                match biguint_at(s, p1 + 4) {
                    Some((b, p3)) => if p3 + 16 <= s.len() {
                        Some(
                            (
                                FundItem {
                                    fund_desc: d,
                                    user_id: u32_of_at(s, p1) as usize,
                                    balance: b,
                                    type_list_next: u32_of_at(s, p3) as usize,
                                    type_list_prev: u32_of_at(s, p3 + 4) as usize,
                                    user_list_next: u32_of_at(s, p3 + 8) as usize,
                                    user_list_prev: u32_of_at(s, p3 + 12) as usize,
                                },
                                p3 + 16,
                            ),
                        )
                    } else {
                        None
                    },
                    None => None,
                }
            } else {
                None
            }
        },
        None => None,
    }
}

/// What stored bytes read as: empty storage as the default item, otherwise exactly one item.
pub open spec fn item_top_from(s: Seq<u8>) -> Option<FundItem> {
    if s.len() == 0 {
        Some(default_item())
    } else {
        match item_from(s, 0) {
            Some((it, p)) => if p == s.len() {
                Some(it)
            } else {
                None
            },
            None => None,
        }
    }
}

/// The list head that the embedded bytes at `pos` of `s` read as, and the position after them.
pub open spec fn info_from(s: Seq<u8>, pos: int) -> Option<(FundsListInfo, int)> {
    match biguint_at(s, pos) {
        Some((b, p1)) => if p1 + 8 <= s.len() {
            Some(
                (
                    FundsListInfo { total_balance: b, first: u32_of_at(s, p1) as usize, last: u32_of_at(s, p1 + 4) as usize },
                    p1 + 8,
                ),
            )
        } else {
            None
        },
        None => None,
    }
}

/// What stored bytes of a list head read as: empty storage as the empty head, otherwise
/// exactly one head.
pub open spec fn info_top_from(s: Seq<u8>) -> Option<FundsListInfo> {
    if s.len() == 0 {
        Some(empty_list_info())
    } else {
        match biguint_at(s, 0) {
            Some((b, p1)) => if p1 + 8 == s.len() {
                Some(
                    FundsListInfo { total_balance: b, first: u32_of_at(s, p1) as usize, last: u32_of_at(s, p1 + 4) as usize },
                )
            } else {
                None
            },
            None => None,
        }
    }
}

/// `s` holds the bytes `b` at `pos`.
pub open spec fn bytes_at(s: Seq<u8>, pos: int, b: Seq<u8>) -> bool {
    0 <= pos && pos + b.len() <= s.len() && s.subrange(pos, pos + b.len()) == b
}

pub(crate) proof fn lemma_bytes_at_split(s: Seq<u8>, pos: int, a: Seq<u8>, b: Seq<u8>)
    requires
        bytes_at(s, pos, a + b),
    ensures
        bytes_at(s, pos, a),
        bytes_at(s, pos + a.len(), b),
{
    assert(s.subrange(pos, pos + a.len()) =~= (a + b).subrange(0, a.len() as int));
    assert((a + b).subrange(0, a.len() as int) =~= a);
    assert(s.subrange(pos + a.len(), pos + a.len() + b.len()) =~= (a + b).subrange(a.len() as int, (a + b).len() as int));
    assert((a + b).subrange(a.len() as int, (a + b).len() as int) =~= b);
}

/// Reads an id at `pos` that was written as `v`.
pub(crate) proof fn lemma_id_read(s: Seq<u8>, pos: int, v: usize)
    requires
        bytes_at(s, pos, id_bytes(v)),
        v <= u32::MAX,
    ensures
        u32_of(s[pos], s[pos + 1], s[pos + 2], s[pos + 3]) as usize == v,
{
    let b = id_bytes(v);
    assert(s[pos] == b[0] && s[pos + 1] == b[1] && s[pos + 2] == b[2] && s[pos + 3] == b[3]) by {
        assert(s[pos] == s.subrange(pos, pos + 4)[0]);
        assert(s[pos + 1] == s.subrange(pos, pos + 4)[1]);
        assert(s[pos + 2] == s.subrange(pos, pos + 4)[2]);
        assert(s[pos + 3] == s.subrange(pos, pos + 4)[3]);
    }
    lemma_u32_bytes_roundtrip(v as u32);
}

/// Reads a big number at `pos` that was written as `v`.
pub(crate) proof fn lemma_biguint_read(s: Seq<u8>, pos: int, v: u128)
    requires
        bytes_at(s, pos, biguint_bytes(v)),
    ensures
        u32_of(s[pos], s[pos + 1], s[pos + 2], s[pos + 3]) == min_be(v as nat).len(),
        min_be(v as nat).len() <= 16,
        be_value(s.subrange(pos + 4, pos + 4 + min_be(v as nat).len())) == v,
{
    let m = min_be(v as nat);
    lemma_min_be(v as nat);
    lemma_pow_256_16();
    lemma_bytes_at_split(s, pos, u32_bytes(m.len() as u32), m);
    lemma_id_read(s, pos, m.len() as usize);
}

impl FundItem {
    /// Where the parts of an item's bytes lie, and what reading them gives.
    proof fn lemma_item_parts(s: Seq<u8>, pos: int, it: FundItem)
        requires
            ids_fit(it),
            bytes_at(s, pos, item_bytes(it)),
        ensures
            ({
                let ld = desc_bytes(it.fund_desc).len() as int;
                let lb = biguint_bytes(it.balance).len() as int;
                &&& desc_at(s, pos, it.fund_desc)
                &&& pos + ld + 4 <= s.len()
                &&& u32_of(s[pos + ld], s[pos + ld + 1], s[pos + ld + 2], s[pos + ld + 3]) as usize == it.user_id
                &&& bytes_at(s, pos + ld + 4, biguint_bytes(it.balance))
                &&& lb == 4 + min_be(it.balance as nat).len()
                &&& pos + ld + 4 + lb + 16 <= s.len()
                &&& u32_of(s[pos + ld + 4 + lb], s[pos + ld + 4 + lb + 1], s[pos + ld + 4 + lb + 2], s[pos + ld + 4 + lb + 3]) as usize
                    == it.type_list_next
                &&& u32_of(s[pos + ld + 8 + lb], s[pos + ld + 8 + lb + 1], s[pos + ld + 8 + lb + 2], s[pos + ld + 8 + lb + 3]) as usize
                    == it.type_list_prev
                &&& u32_of(s[pos + ld + 12 + lb], s[pos + ld + 12 + lb + 1], s[pos + ld + 12 + lb + 2], s[pos + ld + 12 + lb + 3]) as usize
                    == it.user_list_next
                &&& u32_of(s[pos + ld + 16 + lb], s[pos + ld + 16 + lb + 1], s[pos + ld + 16 + lb + 2], s[pos + ld + 16 + lb + 3]) as usize
                    == it.user_list_prev
                &&& pos + item_bytes(it).len() == pos + ld + 4 + lb + 16
            }),
    {
        let d = desc_bytes(it.fund_desc);
        let u = id_bytes(it.user_id);
        let b = biguint_bytes(it.balance);
        let t1 = id_bytes(it.type_list_next);
        let t2 = id_bytes(it.type_list_prev);
        let u1 = id_bytes(it.user_list_next);
        let u2 = id_bytes(it.user_list_prev);
        let ld = d.len() as int;
        let lb = b.len() as int;
        lemma_bytes_at_split(s, pos, d + u + b + t1 + t2 + u1, u2);
        lemma_bytes_at_split(s, pos, d + u + b + t1 + t2, u1);
        lemma_bytes_at_split(s, pos, d + u + b + t1, t2);
        lemma_bytes_at_split(s, pos, d + u + b, t1);
        lemma_bytes_at_split(s, pos, d + u, b);
        lemma_bytes_at_split(s, pos, d, u);
        lemma_id_read(s, pos + ld, it.user_id);
        lemma_id_read(s, pos + ld + 4 + lb, it.type_list_next);
        lemma_id_read(s, pos + ld + 8 + lb, it.type_list_prev);
        lemma_id_read(s, pos + ld + 12 + lb, it.user_list_next);
        lemma_id_read(s, pos + ld + 16 + lb, it.user_list_prev);
    }

    /// Appends the embedded bytes of this item.
    pub fn dep_encode(&self, out: &mut Vec<u8>)
        ensures
            final(out)@ == old(out)@ + item_bytes(*self),
    {
        self.fund_desc.dep_encode(out);
        push_id(out, self.user_id);
        push_biguint(out, self.balance);
        push_id(out, self.type_list_next);
        push_id(out, self.type_list_prev);
        push_id(out, self.user_list_next);
        push_id(out, self.user_list_prev);
        assert(final(out)@ =~= old(out)@ + item_bytes(*self));
    }

    /// The stored bytes of this item: nothing when it reads as default.
    pub fn top_encode(&self) -> (r: Vec<u8>)
        ensures
            r@ == item_top_bytes(*self),
    {
        let mut out: Vec<u8> = Vec::new();
        if !self.is_default() {
            self.dep_encode(&mut out);
            assert(out@ =~= item_bytes(*self));
        }
        out
    }

    /// Reads an item at `pos`.
    #[verifier::spinoff_prover]
    #[verifier::rlimit(40)]
    pub fn dep_decode(input: &Vec<u8>, pos: usize) -> (r: Result<(FundItem, usize), DecodeError>)
        ensures
            r is Ok <==> item_from(input@, pos as int) is Some,
            r matches Ok((it, p)) ==> item_from(input@, pos as int) == Some((it, p as int)),
            r matches Ok((it, p)) ==> pos <= p <= input@.len() && ids_fit(it),
            forall|it: FundItem| ids_fit(it) && #[trigger] bytes_at(input@, pos as int, item_bytes(it)) ==> r == Ok::<
                (FundItem, usize),
                DecodeError,
            >((it, (pos + item_bytes(it).len()) as usize)),
    {
        let n = input.len();
        let (fund_desc, p1) = match FundDescription::dep_decode(input, pos) {
            Ok(x) => x,
            Err(e) => {
                proof {
                    assert(desc_from(input@, pos as int) is None);
                    assert forall|it: FundItem| ids_fit(it) && #[trigger] bytes_at(input@, pos as int, item_bytes(it)) implies false by {
                        Self::lemma_item_parts(input@, pos as int, it);
                    }
                }
                return Err(e);
            },
        };
        proof {
            lemma_desc_from(input@, pos as int, fund_desc);
        }
        let (user_id, p2) = match read_id(input, p1) {
            Ok(x) => x,
            Err(e) => {
                proof {
                    assert forall|it: FundItem| ids_fit(it) && #[trigger] bytes_at(input@, pos as int, item_bytes(it)) implies false by {
                        Self::lemma_item_parts(input@, pos as int, it);
                        lemma_desc_roundtrip(input@, pos as int, it.fund_desc, Ok((fund_desc, p1)));
                    }
                }
                return Err(e);
            },
        };
        let (balance, p3) = match read_biguint(input, p2) {
            Ok(x) => x,
            Err(e) => {
                proof {
                    assert(biguint_at(input@, p2 as int) is None);
                    assert forall|it: FundItem| ids_fit(it) && #[trigger] bytes_at(input@, pos as int, item_bytes(it)) implies false by {
                        Self::lemma_item_parts(input@, pos as int, it);
                        lemma_desc_roundtrip(input@, pos as int, it.fund_desc, Ok((fund_desc, p1)));
                        lemma_biguint_read(input@, p2 as int, it.balance);
                    }
                }
                return Err(e);
            },
        };
        if p3 > n || n - p3 < 16 {
            proof {
                assert forall|it: FundItem| ids_fit(it) && #[trigger] bytes_at(input@, pos as int, item_bytes(it)) implies false by {
                    Self::lemma_item_parts(input@, pos as int, it);
                    lemma_desc_roundtrip(input@, pos as int, it.fund_desc, Ok((fund_desc, p1)));
                    lemma_biguint_read(input@, p2 as int, it.balance);
                }
            }
            return Err(DecodeError::InputTooShort);
        }
        let a = Self::read_link(input, p3);
        let b = Self::read_link(input, p3 + 4);
        let c = Self::read_link(input, p3 + 8);
        let d = Self::read_link(input, p3 + 12);
        let p7 = p3 + 16;
        let it = FundItem {
            fund_desc,
            user_id,
            balance,
            type_list_next: a,
            type_list_prev: b,
            user_list_next: c,
            user_list_prev: d,
        };
        proof {
            assert(biguint_at(input@, p2 as int) == Some((balance, p3 as int)));
            assert(item_from(input@, pos as int) == Some((it, p7 as int)));
            assert forall|it2: FundItem| ids_fit(it2) && #[trigger] bytes_at(input@, pos as int, item_bytes(it2)) implies it2 == it
                && p7 == pos + item_bytes(it2).len() by {
                Self::lemma_item_parts(input@, pos as int, it2);
                lemma_desc_roundtrip(input@, pos as int, it2.fund_desc, Ok((fund_desc, p1)));
                lemma_biguint_read(input@, p2 as int, it2.balance);
            }
        }
        Ok((it, p7))
    }

    /// The id on the 4 bytes at `pos`, which lie within the input.
    fn read_link(input: &Vec<u8>, pos: usize) -> (r: usize)
        requires
            pos + 4 <= input@.len(),
        ensures
            r == u32_of_at(input@, pos as int) as usize,
            r <= u32::MAX,
    {
        match read_id(input, pos) {
            Ok((v, _)) => v,
            Err(_) => 0,
        }
    }
}

impl FundItem {
    /// Reads a stored item: empty storage reads as the default item; otherwise the bytes must
    /// hold exactly one item.
    pub fn top_decode(input: &Vec<u8>) -> (r: Result<FundItem, DecodeError>)
        ensures
            r is Ok <==> item_top_from(input@) is Some,
            r matches Ok(it) ==> item_top_from(input@) == Some(it),
            input@.len() == 0 ==> r == Ok::<FundItem, DecodeError>(default_item()),
            forall|it: FundItem| ids_fit(it) && input@ == #[trigger] item_top_bytes(it) ==> r == Ok::<FundItem, DecodeError>(
                stored_item(it),
            ),
    {
        if input.len() == 0 {
            return Ok(FundItem::default());
        }
        match FundItem::dep_decode(input, 0) {
            Ok((it, p)) => {
                if p < input.len() {
                    proof {
                        assert forall|it2: FundItem| ids_fit(it2) && input@ == #[trigger] item_top_bytes(it2) implies false by {
                            if !it2.spec_is_default() {
                                assert(input@.subrange(0, item_bytes(it2).len() as int) =~= input@);
                                assert(bytes_at(input@, 0, item_bytes(it2)));
                            }
                        }
                    }
                    Err(DecodeError::InputTooLong)
                } else {
                    proof {
                        assert forall|it2: FundItem| ids_fit(it2) && input@ == #[trigger] item_top_bytes(it2) implies it
                            == stored_item(it2) by {
                            if !it2.spec_is_default() {
                                assert(input@.subrange(0, item_bytes(it2).len() as int) =~= input@);
                                assert(bytes_at(input@, 0, item_bytes(it2)));
                            }
                        }
                    }
                    Ok(it)
                }
            },
            Err(e) => {
                proof {
                    assert forall|it2: FundItem| ids_fit(it2) && input@ == #[trigger] item_top_bytes(it2) implies false by {
                        if !it2.spec_is_default() {
                            assert(input@.subrange(0, item_bytes(it2).len() as int) =~= input@);
                            assert(bytes_at(input@, 0, item_bytes(it2)));
                        }
                    }
                }
                Err(e)
            },
        }
    }
}

impl FundsListInfo {
    /// Appends the embedded bytes of this list head.
    pub fn dep_encode(&self, out: &mut Vec<u8>)
        ensures
            final(out)@ == old(out)@ + info_bytes(*self),
    {
        push_biguint(out, self.total_balance);
        push_id(out, self.first);
        push_id(out, self.last);
        assert(final(out)@ =~= old(out)@ + info_bytes(*self));
    }

    /// The stored bytes of this head: nothing for the empty head.
    pub fn top_encode(&self) -> (r: Vec<u8>)
        ensures
            r@ == info_top_bytes(*self),
    {
        let mut out: Vec<u8> = Vec::new();
        if !self.is_empty() {
            self.dep_encode(&mut out);
            assert(out@ =~= info_bytes(*self));
        }
        out
    }

    /// Reads a list head at `pos`: sum, first and last id.
    pub fn dep_decode(input: &Vec<u8>, pos: usize) -> (r: Result<(FundsListInfo, usize), DecodeError>)
        ensures
            r is Ok <==> info_from(input@, pos as int) is Some,
            r matches Ok((info, p)) ==> info_from(input@, pos as int) == Some((info, p as int)),
            forall|info: FundsListInfo|
                info.first <= u32::MAX && info.last <= u32::MAX && #[trigger] bytes_at(input@, pos as int, info_bytes(info))
                    ==> r == Ok::<(FundsListInfo, usize), DecodeError>((info, (pos + info_bytes(info).len()) as usize)),
    {
        let n = input.len();
        let r = match read_biguint(input, pos) {
            Ok((total_balance, p1)) => {
                match read_id(input, p1) {
                    Ok((first, p2)) => {
                        match read_id(input, p2) {
                            Ok((last, p3)) => Ok((FundsListInfo { total_balance, first, last }, p3)),
                            Err(e) => Err(e),
                        }
                    },
                    Err(e) => Err(e),
                }
            },
            Err(e) => Err(e),
        };
        proof {
            assert forall|info: FundsListInfo|
                info.first <= u32::MAX && info.last <= u32::MAX && #[trigger] bytes_at(input@, pos as int, info_bytes(info))
                    implies r == Ok::<(FundsListInfo, usize), DecodeError>((info, (pos + info_bytes(info).len()) as usize)) by {
                let b = biguint_bytes(info.total_balance);
                lemma_bytes_at_split(input@, pos as int, b + id_bytes(info.first), id_bytes(info.last));
                lemma_bytes_at_split(input@, pos as int, b, id_bytes(info.first));
                lemma_biguint_read(input@, pos as int, info.total_balance);
                lemma_id_read(input@, pos + b.len(), info.first);
                lemma_id_read(input@, pos + b.len() + 4, info.last);
            }
        }
        r
    }

    /// Reads a stored list head: empty storage reads as the empty head; otherwise the bytes
    /// must hold exactly one head.
    #[verifier::spinoff_prover]
    #[verifier::rlimit(40)]
    pub fn top_decode(input: &Vec<u8>) -> (r: Result<FundsListInfo, DecodeError>)
        ensures
            r is Ok <==> info_top_from(input@) is Some,
            r matches Ok(info) ==> info_top_from(input@) == Some(info),
            input@.len() == 0 ==> r == Ok::<FundsListInfo, DecodeError>(empty_list_info()),
            forall|info: FundsListInfo| info.first <= u32::MAX && info.last <= u32::MAX && input@ == #[trigger] info_top_bytes(info)
                ==> r == Ok::<FundsListInfo, DecodeError>(if info.spec_is_empty() { empty_list_info() } else { info }),
    {
        if input.len() == 0 {
            return Ok(FundsListInfo::zero_value());
        }
        let n = input.len();
        let r = match read_biguint(input, 0) {
            Ok((total_balance, p1)) => {
                match read_id(input, p1) {
                    Ok((first, p2)) => {
                        match read_id(input, p2) {
                            Ok((last, p3)) => {
                                if p3 < n {
                                    Err(DecodeError::InputTooLong)
                                } else {
                                    Ok(FundsListInfo { total_balance, first, last })
                                }
                            },
                            Err(e) => Err(e),
                        }
                    },
                    Err(e) => Err(e),
                }
            },
            Err(e) => Err(e),
        };
        proof {
            assert forall|info: FundsListInfo| info.first <= u32::MAX && info.last <= u32::MAX && input@ == #[trigger] info_top_bytes(
                info,
            ) implies r == Ok::<FundsListInfo, DecodeError>(if info.spec_is_empty() { empty_list_info() } else { info }) by {
                if !info.spec_is_empty() {
                    let b = biguint_bytes(info.total_balance);
                    assert(input@.subrange(0, info_bytes(info).len() as int) =~= input@);
                    lemma_bytes_at_split(input@, 0, b + id_bytes(info.first), id_bytes(info.last));
                    lemma_bytes_at_split(input@, 0, b, id_bytes(info.first));
                    lemma_biguint_read(input@, 0, info.total_balance);
                    lemma_id_read(input@, b.len() as int, info.first);
                    lemma_id_read(input@, b.len() as int + 4, info.last);
                }
            }
        }
        r
    }
}

impl FundType {
    /// The stored bytes of this type.
    pub fn top_encode(&self) -> (r: Vec<u8>)
        ensures
            r@ == type_bytes(*self),
    {
        let mut out: Vec<u8> = Vec::new();
        self.dep_encode(&mut out);
        assert(out@ =~= type_bytes(*self));
        out
    }

    /// Reads a stored type: exactly one discriminant byte.
    pub fn top_decode(input: &Vec<u8>) -> (r: Result<FundType, DecodeError>)
        ensures
            input@.len() == 1 && input@[0] < 7 ==> r == Ok::<FundType, DecodeError>(type_at(input@[0] as int)),
            !(input@.len() == 1 && input@[0] < 7) ==> r is Err,
            forall|t: FundType| input@ == #[trigger] type_bytes(t) ==> r == Ok::<FundType, DecodeError>(t),
    {
        proof {
            assert forall|t: FundType| input@ == #[trigger] type_bytes(t) implies input@.len() == 1 && input@[0] < 7 && type_at(
                input@[0] as int,
            ) == t by {
                lemma_type_index_inverse(t);
            }
        }
        match FundType::dep_decode(input, 0) {
            Ok((t, p)) => {
                if p < input.len() {
                    Err(DecodeError::InputTooLong)
                } else {
                    Ok(t)
                }
            },
            Err(e) => Err(e),
        }
    }
}

impl FundDescription {
    /// The stored bytes of this description.
    pub fn top_encode(&self) -> (r: Vec<u8>)
        ensures
            r@ == desc_bytes(*self),
    {
        let mut out: Vec<u8> = Vec::new();
        self.dep_encode(&mut out);
        assert(out@ =~= desc_bytes(*self));
        out
    }

    /// Reads a stored description: the bytes must hold exactly one description.
    pub fn top_decode(input: &Vec<u8>) -> (r: Result<FundDescription, DecodeError>)
        ensures
            r matches Ok(d) ==> input@ == desc_bytes(d),
            forall|d: FundDescription| input@ == #[trigger] desc_bytes(d) ==> r == Ok::<FundDescription, DecodeError>(d),
    {
        match FundDescription::dep_decode(input, 0) {
            Ok((d, p)) => {
                if p < input.len() {
                    proof {
                        assert forall|d2: FundDescription| input@ == #[trigger] desc_bytes(d2) implies false by {
                            assert(input@.subrange(0, desc_bytes(d2).len() as int) =~= input@);
                            assert(desc_at(input@, 0, d2));
                            lemma_desc_roundtrip(input@, 0, d2, Ok((d, p)));
                        }
                    }
                    Err(DecodeError::InputTooLong)
                } else {
                    proof {
                        assert(input@.subrange(0, p as int) =~= input@);
                        assert forall|d2: FundDescription| input@ == #[trigger] desc_bytes(d2) implies d == d2 by {
                            assert(input@.subrange(0, desc_bytes(d2).len() as int) =~= input@);
                            assert(desc_at(input@, 0, d2));
                            lemma_desc_roundtrip(input@, 0, d2, Ok((d, p)));
                        }
                    }
                    Ok(d)
                }
            },
            Err(e) => {
                proof {
                    assert forall|d2: FundDescription| input@ == #[trigger] desc_bytes(d2) implies false by {
                        assert(input@.subrange(0, desc_bytes(d2).len() as int) =~= input@);
                        assert(desc_at(input@, 0, d2));
                    }
                }
                Err(e)
            },
        }
    }
}

} // verus!
