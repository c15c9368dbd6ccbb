use vstd::prelude::*;
use crate::settings::OWNER_USER_ID;

verus! {

/// Fixed-point denominator of the service fee: 10000 is 100%.
pub const SERVICE_FEE_DENOMINATOR: u128 = 10000;

/// Reward data kept per delegator.
#[derive(PartialEq, Eq, Structural, Clone, Copy, Debug)]
pub struct UserRewardData {
    /// The total cumulated rewards of the contract when this user's rewards were last computed.
    pub reward_checkpoint: u128,
    /// Rewards computed but not yet sent to the delegator.
    pub unclaimed_rewards: u128,
}

/// Share of `tot_rewards` that goes to the node operator at `service_fee` per 10000.
pub open spec fn spec_service_fee_reward(tot_rewards: int, service_fee: int) -> int {
    tot_rewards * service_fee / (SERVICE_FEE_DENOMINATOR as int)
}

/// The new rewards of one user since its checkpoint, given the contract totals.
pub open spec fn new_user_rewards(
    user_id: usize,
    tot_new: int,
    service_fee: int,
    total_active: int,
    total_for_sale: int,
    user_active: int,
) -> int {
    let fee = spec_service_fee_reward(tot_new, service_fee);
    let total_stake = total_active + total_for_sale;
    let owner_part = if user_id == OWNER_USER_ID {
        fee + if total_for_sale > 0 {
            (tot_new - fee) * total_for_sale / total_stake
        } else {
            0
        }
    } else {
        0
    };
    let stake_part = if user_active > 0 {
        (tot_new - fee) * user_active / total_stake
    } else {
        0
    };
    owner_part + stake_part
}

/// `data` brought up to date with the total cumulated rewards `tot_cumul_rewards`.
pub open spec fn updated_rewards(
    data: UserRewardData,
    user_id: usize,
    tot_cumul_rewards: u128,
    service_fee: u128,
    total_active: u128,
    total_for_sale: u128,
    user_active: u128,
) -> UserRewardData {
    let tot_new = tot_cumul_rewards - data.reward_checkpoint;
    if tot_new == 0 {
        data
    } else {
        UserRewardData {
            reward_checkpoint: tot_cumul_rewards,
            unclaimed_rewards: (data.unclaimed_rewards + new_user_rewards(
                user_id,
                tot_new,
                service_fee as int,
                total_active as int,
                total_for_sale as int,
                user_active as int,
            )) as u128,
        }
    }
}

/// Two shares of `r` in proportions that add up to at most 1, rounded down, add up to at most `r`.
proof fn lemma_two_shares(r: int, a: int, b: int, s: int)
    requires
        0 <= r,
        0 <= a,
        0 <= b,
        a + b <= s,
        0 < s,
    ensures
        r * a / s + r * b / s <= r,
{
    let q1 = r * a / s;
    let q2 = r * b / s;
    vstd::arithmetic::div_mod::lemma_fundamental_div_mod(r * a, s);
    vstd::arithmetic::div_mod::lemma_fundamental_div_mod(r * b, s);
    vstd::arithmetic::div_mod::lemma_mod_pos_bound(r * a, s);
    vstd::arithmetic::div_mod::lemma_mod_pos_bound(r * b, s);
    assert(q1 * s <= r * a);
    assert(q2 * s <= r * b);
    assert((q1 + q2) * s <= r * (a + b)) by (nonlinear_arith)
        requires
            q1 * s <= r * a,
            q2 * s <= r * b,
    ;
    assert(r * (a + b) <= r * s) by (nonlinear_arith)
        requires
            0 <= r,
            a + b <= s,
    ;
    assert(q1 + q2 <= r) by (nonlinear_arith)
        requires
            (q1 + q2) * s <= r * s,
            0 < s,
    ;
}

/// One step of `mul_div`: with `q * c + rem == p * b` before, doubling `p` and adding `bit`
/// keeps the relation for the new quotient and remainder.
proof fn lemma_mul_div_step(p: int, b: int, c: int, q: int, rem: int, bit: int, e1: int, e2: int)
    requires
        0 < c,
        0 <= b <= c,
        0 <= p,
        0 <= q,
        0 <= rem < c,
        q * c + rem == p * b,
        bit == 0 || bit == 1,
        e1 == (if 2 * rem >= c { 1int } else { 0int }),
        e2 == (if 2 * rem - e1 * c + bit * b >= c { 1int } else { 0int }),
    ensures
        (2 * q + e1 + e2) * c + (2 * rem - e1 * c + bit * b - e2 * c) == (2 * p + bit) * b,
        0 <= 2 * rem - e1 * c < c,
        0 <= 2 * rem - e1 * c + bit * b - e2 * c < c,
        2 * q + e1 <= 2 * p,
        2 * q + e1 + e2 <= 2 * p + bit,
{
    let r1 = 2 * rem - e1 * c;
    let q1 = 2 * q + e1;
    assert(q1 * c + r1 == 2 * (p * b)) by (nonlinear_arith)
        requires
            q1 == 2 * q + e1,
            r1 == 2 * rem - e1 * c,
            q * c + rem == p * b,
    ;
    assert(q1 <= 2 * p) by (nonlinear_arith)
        requires
            q1 * c + r1 == 2 * (p * b),
            0 <= r1,
            0 < c,
            0 <= b <= c,
            0 <= p,
    ;
    let r2 = r1 + bit * b - e2 * c;
    let q2 = q1 + e2;
    assert(q2 * c + r2 == (2 * p + bit) * b) by (nonlinear_arith)
        requires
            q2 == q1 + e2,
            r2 == r1 + bit * b - e2 * c,
            q1 * c + r1 == 2 * (p * b),
    ;
    assert(0 <= r2 < c) by (nonlinear_arith)
        requires
            r2 == r1 + bit * b - e2 * c,
            0 <= r1 < c,
            0 <= bit * b <= c,
            e2 == (if r1 + bit * b >= c { 1int } else { 0int }),
    ;
    assert(q2 <= 2 * p + bit) by (nonlinear_arith)
        requires
            q2 * c + r2 == (2 * p + bit) * b,
            0 <= r2,
            0 < c,
            0 <= b <= c,
            0 <= 2 * p + bit,
    ;
}

/// `a * b / c`, rounded down, computed without an intermediate product: the bits of `a` are
/// taken from the most significant one, keeping a quotient and a remainder below `c`.
pub fn mul_div(a: u128, b: u128, c: u128) -> (r: u128)
    requires
        0 < c,
        b <= c,
    ensures
        r == (a as int) * (b as int) / (c as int),
{
    let mut q: u128 = 0;
    let mut rem: u128 = 0;
    let mut i: u32 = 128;
    let ghost mut p: int = 0;
    while i > 0
        invariant
            0 <= i <= 128,
            0 < c,
            b <= c,
            i == 128 ==> p == 0,
            i < 128 ==> p == (a >> i) as int,
            rem < c,
            q <= p,
            q * c + rem == p * b,
        decreases i,
    {
        i = i - 1;
        let bit: u128 = (a >> i) & 1;
        let ghost np = (a >> i) as int;
        proof {
            let ii = i;
            assert(bit == 0 || bit == 1) by (bit_vector)
                requires
                    bit == (a >> ii) & 1,
            ;
            if ii == 127 {
                assert((a >> ii) == ((a >> ii) & 1)) by (bit_vector)
                    requires
                        ii == 127,
                ;
                assert(np == 2 * p + bit);
            } else {
                let pi = (ii + 1) as u32;
                assert((a >> ii) == (a >> pi) * 2 + ((a >> ii) & 1)) by (bit_vector)
                    requires
                        ii < 127,
                        pi == ii + 1,
                ;
                assert(np == 2 * p + bit);
            }
            assert((a >> ii) <= a) by (bit_vector);
        }
        let e1: bool = rem >= c - rem;
        let ghost e2i: int = if 2 * rem - (if e1 { c as int } else { 0int }) + bit * b >= c { 1 } else { 0 };
        proof {
            lemma_mul_div_step(p, b as int, c as int, q as int, rem as int, bit as int, if e1 { 1int } else { 0int }, e2i);
        }
        if e1 {
            rem = rem - (c - rem);
            q = 2 * q + 1;
        } else {
            rem = rem + rem;
            q = 2 * q;
        }
        if bit == 1 {
            if rem >= c - b {
                rem = rem - (c - b);
                q = q + 1;
            } else {
                rem = rem + b;
            }
        }
        proof {
            p = np;
        }
    }
    proof {
        assert((a >> 0u32) == a) by (bit_vector);
        vstd::arithmetic::div_mod::lemma_fundamental_div_mod_converse(
            (a as int) * (b as int),
            c as int,
            q as int,
            rem as int,
        );
    }
    q
}

/// The share of `tot_rewards` that goes to the node operator.
pub fn service_fee_reward(tot_rewards: u128, service_fee: u128) -> (r: u128)
    requires
        service_fee <= SERVICE_FEE_DENOMINATOR,
    ensures
        r == spec_service_fee_reward(tot_rewards as int, service_fee as int),
{
    mul_div(tot_rewards, service_fee, SERVICE_FEE_DENOMINATOR)
}

/// The reward data of `user_id` brought up to date, without storing it. The rewards that
/// arrived since the user's checkpoint are split: the service fee goes to the owner, who also
/// gets the share of the stake offered for sale; every user gets the share of its active
/// stake in the total active stake (active and for sale).
pub fn load_updated_user_rewards(
    data: UserRewardData,
    user_id: usize,
    tot_cumul_rewards: u128,
    service_fee: u128,
    total_active: u128,
    total_for_sale: u128,
    user_active: u128,
) -> (r: UserRewardData)
    requires
        data.reward_checkpoint <= tot_cumul_rewards,
        service_fee <= SERVICE_FEE_DENOMINATOR,
        user_active <= total_active,
        total_active + total_for_sale <= u128::MAX,
        data.unclaimed_rewards + (tot_cumul_rewards - data.reward_checkpoint) <= u128::MAX,
    ensures
        r == updated_rewards(data, user_id, tot_cumul_rewards, service_fee, total_active, total_for_sale, user_active),
{
    let mut user_data = data;
    let tot_new_rewards = tot_cumul_rewards - data.reward_checkpoint;
    if tot_new_rewards == 0 {
        return user_data;
    }
    proof {
        let t = tot_new_rewards as int;
        assert(t * service_fee / 10000 <= t) by (nonlinear_arith)
            requires
                0 <= t,
                0 <= service_fee <= 10000,
        ;
    }
    let service_fee_amount = service_fee_reward(tot_new_rewards, service_fee);
    let total_active_stake = total_active + total_for_sale;
    let rest = tot_new_rewards - service_fee_amount;
    let ghost mut added: int = 0;
    proof {
        let t = tot_new_rewards as int;
        let s = total_active_stake as int;
        if s > 0 {
            assert(rest * total_for_sale / s <= rest) by (nonlinear_arith)
                requires
                    0 <= rest,
                    0 <= total_for_sale <= s,
                    s > 0,
            ;
            assert(rest * user_active / s <= rest) by (nonlinear_arith)
                requires
                    0 <= rest,
                    0 <= user_active <= s,
                    s > 0,
            ;
            assert(rest * total_for_sale / s + rest * user_active / s <= rest) by (nonlinear_arith)
                requires
                    0 <= rest,
                    0 <= total_for_sale,
                    0 <= user_active,
                    total_for_sale + user_active <= s,
                    s > 0,
            {
                lemma_two_shares(rest as int, total_for_sale as int, user_active as int, s);
            }
        }
    }
    if user_id == OWNER_USER_ID {
        user_data.unclaimed_rewards = user_data.unclaimed_rewards + service_fee_amount;
        if total_for_sale > 0 {
            let for_sale_rewards = mul_div(rest, total_for_sale, total_active_stake);
            user_data.unclaimed_rewards = user_data.unclaimed_rewards + for_sale_rewards;
        }
    }
    if user_active > 0 {
        let delegator_rewards = mul_div(rest, user_active, total_active_stake);
        user_data.unclaimed_rewards = user_data.unclaimed_rewards + delegator_rewards;
    }
    user_data.reward_checkpoint = tot_cumul_rewards;
    user_data
}

/// How rewards are shared. Of the `n` rewards that arrived since the checkpoint, the service
/// fee `f = n * service_fee / 10000` goes to the owner; the rest, `n - f`, is shared in
/// proportion to active stake: every user, the owner included and whatever its id, gets
/// `(n - f) * user_active / (total_active + total_for_sale)`, and the owner also gets the share
/// of the stake offered for sale. The checkpoint moves to `tot_cumul_rewards`.
pub proof fn law_rewards_follow_active_stake(
    data: UserRewardData,
    user_id: usize,
    tot_cumul_rewards: u128,
    service_fee: u128,
    total_active: u128,
    total_for_sale: u128,
    user_active: u128,
)
    requires
        data.reward_checkpoint < tot_cumul_rewards,
        service_fee <= SERVICE_FEE_DENOMINATOR,
        user_active <= total_active,
        data.unclaimed_rewards + (tot_cumul_rewards - data.reward_checkpoint) <= u128::MAX,
    ensures
        ({
            let r = updated_rewards(data, user_id, tot_cumul_rewards, service_fee, total_active, total_for_sale, user_active);
            let n = tot_cumul_rewards - data.reward_checkpoint;
            let f = n * service_fee / 10000;
            let s = total_active + total_for_sale;
            let share = if user_active > 0 { (n - f) * user_active / s } else { 0 };
            let extra = if user_id == OWNER_USER_ID {
                f + if total_for_sale > 0 { (n - f) * total_for_sale / s } else { 0 }
            } else {
                0
            };
            &&& r.reward_checkpoint == tot_cumul_rewards
            &&& r.unclaimed_rewards == data.unclaimed_rewards + share + extra
            &&& share <= n - f
            &&& 0 <= f <= n
        }),
{
    let n = (tot_cumul_rewards - data.reward_checkpoint) as int;
    let fee = service_fee as int;
    let f = n * fee / 10000;
    assert(0 <= f <= n) by (nonlinear_arith)
        requires
            0 <= n,
            0 <= fee <= 10000,
            f == n * fee / 10000,
    ;
    let s = total_active + total_for_sale;
    let rest = n - f;
    if s > 0 {
        lemma_two_shares(rest, total_for_sale as int, user_active as int, s);
        assert(rest * user_active / s <= rest) by (nonlinear_arith)
            requires
                0 <= rest,
                0 <= user_active <= s,
                s > 0,
        ;
        assert(0 <= rest * user_active / s) by (nonlinear_arith)
            requires
                0 <= rest,
                0 <= user_active,
                s > 0,
        ;
        assert(0 <= rest * total_for_sale / s) by (nonlinear_arith)
            requires
                0 <= rest,
                0 <= total_for_sale,
                s > 0,
        ;
    }
}

/// Two users with the same active stake get the same rewards, whatever their ids, except that
/// the owner gets the service fee and the share of the stake for sale on top of its own share.
pub proof fn law_owner_earns_as_a_delegator(
    data: UserRewardData,
    other_id: usize,
    tot_cumul_rewards: u128,
    service_fee: u128,
    total_active: u128,
    total_for_sale: u128,
    user_active: u128,
)
    requires
        other_id != OWNER_USER_ID,
        data.reward_checkpoint < tot_cumul_rewards,
        service_fee <= SERVICE_FEE_DENOMINATOR,
        user_active <= total_active,
        data.unclaimed_rewards + (tot_cumul_rewards - data.reward_checkpoint) <= u128::MAX,
    ensures
        ({
            let owner = updated_rewards(data, OWNER_USER_ID, tot_cumul_rewards, service_fee, total_active, total_for_sale, user_active);
            let other = updated_rewards(data, other_id, tot_cumul_rewards, service_fee, total_active, total_for_sale, user_active);
            let n = tot_cumul_rewards - data.reward_checkpoint;
            let f = n * service_fee / 10000;
            let s = total_active + total_for_sale;
            &&& owner.reward_checkpoint == other.reward_checkpoint
            &&& owner.unclaimed_rewards == other.unclaimed_rewards + f + if total_for_sale > 0 {
                (n - f) * total_for_sale / s
            } else {
                0
            }
        }),
{
    law_rewards_follow_active_stake(data, OWNER_USER_ID, tot_cumul_rewards, service_fee, total_active, total_for_sale, user_active);
    law_rewards_follow_active_stake(data, other_id, tot_cumul_rewards, service_fee, total_active, total_for_sale, user_active);
}

/// Bringing reward data up to date twice with the same total changes nothing the second time.
pub proof fn law_updated_rewards_idempotent(
    data: UserRewardData,
    user_id: usize,
    tot_cumul_rewards: u128,
    service_fee: u128,
    total_active: u128,
    total_for_sale: u128,
    user_active: u128,
)
    requires
        data.reward_checkpoint <= tot_cumul_rewards,
    ensures
        ({
            let once = updated_rewards(data, user_id, tot_cumul_rewards, service_fee, total_active, total_for_sale, user_active);
            updated_rewards(once, user_id, tot_cumul_rewards, service_fee, total_active, total_for_sale, user_active) == once
        }),
{
}

} // verus!
