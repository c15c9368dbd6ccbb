use vstd::prelude::*;
use crate::pool::states::{UserStakeState, user_stake_state_code};
use crate::pool::fund_view::StakeByState;
use crate::user_data::{UserDataModule, id_of};

verus! {

/// Number of user stake states, and so the width of a stake row.
pub const NUM_STAKE_STATES: usize = 10;

/// Sum of a row of stake, over all states.
pub open spec fn row_sum(r: Seq<u128>) -> int {
    r[0] + r[1] + r[2] + r[3] + r[4] + r[5] + r[6] + r[7] + r[8] + r[9]
}

/// Sum of column `c` over the user rows `1 .. k`.
pub open spec fn col_sum(rows: Seq<Seq<u128>>, c: int, k: int) -> int
    decreases k,
{
    if k <= 1 {
        0
    } else {
        col_sum(rows, c, k - 1) + rows[k - 1][c]
    }
}

/// Row `r` with `m` moved from column `oc` to column `nc`.
pub open spec fn shifted(r: Seq<u128>, oc: int, nc: int, m: int) -> Seq<u128> {
    r.update(oc, (r[oc] - m) as u128).update(nc, (r[nc] + m) as u128)
}

/// Rows after moving `m` of user `u` from column `oc` to column `nc`, in its row and in the
/// totals; unchanged for an unknown user.
pub open spec fn conv_rows(rows: Seq<Seq<u128>>, u: int, oc: int, nc: int, m: int) -> Seq<Seq<u128>> {
    if 1 <= u < rows.len() {
        rows.update(u, shifted(rows[u], oc, nc, m)).update(0, shifted(rows[0], oc, nc, m))
    } else {
        rows
    }
}

/// Stake of user `u` in column `c` of `rows`; nothing for an unknown user.
pub open spec fn entry(rows: Seq<Seq<u128>>, u: int, c: int) -> int {
    if 0 <= u < rows.len() {
        rows[u][c] as int
    } else {
        0
    }
}

/// The smaller of two amounts.
pub open spec fn min_of(a: int, b: int) -> int {
    if a <= b {
        a
    } else {
        b
    }
}

/// `x` clamped into `0 ..= hi`.
pub open spec fn clamp(x: int, hi: int) -> int {
    if x <= 0 {
        0
    } else if x <= hi {
        x
    } else {
        hi
    }
}

/// What user `u` gives up when `supply` is taken from column `oc`, users in increasing id order.
pub open spec fn asc_share(rows: Seq<Seq<u128>>, oc: int, supply: int, u: int) -> int {
    clamp(supply - col_sum(rows, oc, u), rows[u][oc] as int)
}

/// What user `u` gives up when `supply` is taken from column `oc`, users in decreasing id order.
pub open spec fn desc_share(rows: Seq<Seq<u128>>, oc: int, supply: int, u: int) -> int {
    clamp(supply - (col_sum(rows, oc, rows.len() as int) - col_sum(rows, oc, u + 1)), rows[u][oc] as int)
}

/// Entry of the queue of users waiting for their stake to be unbonded.
#[derive(PartialEq, Eq, Structural, Clone, Copy, Debug)]
pub struct UnbondQueueItem {
    pub user_id: usize,
    pub amount: u128,
}

/// Stake of every delegator, in each user stake state. Row 0 holds the totals over all users,
/// row `u` the stake of user `u`; a user's total stake is kept beside its row.
pub struct StakeLedger {
    pub rows: Vec<[u128; 10]>,
    pub user_totals: Vec<u128>,
    pub unbond_queue: Vec<UnbondQueueItem>,
}

impl StakeLedger {
    /// The rows, as sequences indexed by state code.
    pub open spec fn rows_view(&self) -> Seq<Seq<u128>> {
        self.rows@.map_values(|r: [u128; 10]| r@)
    }

    /// Number of registered users.
    pub open spec fn num_users(&self) -> int {
        self.rows@.len() - 1
    }

    /// Stake of user `u` (of all users for id 0) in `state`; nothing for an unknown user.
    pub open spec fn stake_of(&self, u: int, state: UserStakeState) -> int {
        if 0 <= u < self.rows@.len() {
            self.rows_view()[u][user_stake_state_code(state) as int] as int
        } else {
            0
        }
    }

    /// Total stake of user `u`; nothing for an unknown user.
    pub open spec fn total_of(&self, u: int) -> int {
        if 0 <= u < self.user_totals@.len() {
            self.user_totals@[u] as int
        } else {
            0
        }
    }

    /// The totals row is the sum of the user rows, and each user's total is the sum of its row.
    pub open spec fn wf(&self) -> bool {
        let rv = self.rows_view();
        &&& rv.len() >= 1
        &&& forall|u: int| 0 <= u < rv.len() ==> (#[trigger] rv[u]).len() == NUM_STAKE_STATES
        &&& self.user_totals@.len() == rv.len()
        &&& forall|c: int| 0 <= c < NUM_STAKE_STATES ==> #[trigger] rv[0][c] == col_sum(rv, c, rv.len() as int)
        &&& forall|u: int| 1 <= u < rv.len() ==> #[trigger] self.user_totals@[u] == row_sum(rv[u])
        &&& self.user_totals@[0] == 0
        &&& row_sum(rv[0]) <= u128::MAX
    }
}

/// Column sums over a row sequence grow with the number of rows counted.
pub proof fn lemma_col_sum_mono(rows: Seq<Seq<u128>>, c: int, j: int, k: int)
    requires
        j <= k <= rows.len(),
    ensures
        col_sum(rows, c, j) <= col_sum(rows, c, k),
    decreases k - j,
{
    if j < k {
        lemma_col_sum_mono(rows, c, j, k - 1);
        if k > 1 {
            assert(col_sum(rows, c, k) == col_sum(rows, c, k - 1) + rows[k - 1][c]);
        }
    }
}

/// A user's entry is at most the column sum that counts it.
pub proof fn lemma_entry_le_col_sum(rows: Seq<Seq<u128>>, c: int, u: int, k: int)
    requires
        1 <= u < k <= rows.len(),
    ensures
        rows[u][c] <= col_sum(rows, c, k),
{
    lemma_col_sum_mono(rows, c, u + 1, k);
    lemma_col_sum_mono(rows, c, 0, u);
}

/// Replacing user row `u` changes the column sums that count it by the difference.
pub proof fn lemma_col_sum_update(rows: Seq<Seq<u128>>, u: int, nr: Seq<u128>, c: int, k: int)
    requires
        1 <= u < rows.len(),
        k <= rows.len(),
    ensures
        col_sum(rows.update(u, nr), c, k) == col_sum(rows, c, k) + (if u < k { nr[c] - rows[u][c] } else { 0 }),
    decreases k,
{
    if k > 1 {
        lemma_col_sum_update(rows, u, nr, c, k - 1);
    }
}

/// Replacing the totals row does not change the column sums.
pub proof fn lemma_col_sum_update_totals(rows: Seq<Seq<u128>>, nr: Seq<u128>, c: int, k: int)
    requires
        1 <= rows.len(),
        k <= rows.len(),
    ensures
        col_sum(rows.update(0, nr), c, k) == col_sum(rows, c, k),
    decreases k,
{
    if k > 1 {
        lemma_col_sum_update_totals(rows, nr, c, k - 1);
    }
}

/// Appending a row leaves the sums over the earlier rows unchanged.
pub proof fn lemma_col_sum_push(rows: Seq<Seq<u128>>, r: Seq<u128>, c: int, k: int)
    requires
        k <= rows.len(),
    ensures
        col_sum(rows.push(r), c, k) == col_sum(rows, c, k),
    decreases k,
{
    if k > 1 {
        lemma_col_sum_push(rows, r, c, k - 1);
    }
}

/// A row with no stake in any state.
fn zero_row() -> (r: [u128; 10])
    ensures
        r@.len() == NUM_STAKE_STATES,
        forall|c: int| 0 <= c < NUM_STAKE_STATES ==> #[trigger] r@[c] == 0,
{
    let r: [u128; 10] = [0, 0, 0, 0, 0, 0, 0, 0, 0, 0];
    assert(r@ =~= seq![0u128, 0, 0, 0, 0, 0, 0, 0, 0, 0]);
    r
}

/// Code of a state, as an index into a stake row.
fn state_index(state: UserStakeState) -> (r: usize)
    ensures
        r == user_stake_state_code(state),
        r < NUM_STAKE_STATES,
{
    state.to_u8() as usize
}

impl StakeLedger {
    /// A ledger with no users and no stake.
    pub fn new() -> (r: StakeLedger)
        ensures
            r.wf(),
            r.num_users() == 0,
            forall|u: int, s: UserStakeState| r.stake_of(u, s) == 0,
            forall|u: int| r.total_of(u) == 0,
            r.unbond_queue@.len() == 0,
    {
        let mut rows: Vec<[u128; 10]> = Vec::new();
        rows.push(zero_row());
        let mut user_totals: Vec<u128> = Vec::new();
        user_totals.push(0);
        let r = StakeLedger { rows, user_totals, unbond_queue: Vec::new() };
        assert(r.rows_view().len() == 1);
        assert(r.rows_view()[0] == r.rows@[0]@);
        r
    }

    /// Registers one more user, with no stake; yields its id.
    pub fn add_user(&mut self) -> (r: usize)
        requires
            old(self).wf(),
            old(self).rows@.len() < usize::MAX,
        ensures
            final(self).wf(),
            r == old(self).num_users() + 1,
            final(self).num_users() == r,
            forall|u: int, s: UserStakeState| #[trigger] final(self).stake_of(u, s) == if u == r { 0 } else { old(self).stake_of(u, s) },
            forall|u: int| #[trigger] final(self).total_of(u) == if u == r { 0 } else { old(self).total_of(u) },
            final(self).unbond_queue@ == old(self).unbond_queue@,
    {
        let ghost rv = self.rows_view();
        let z = zero_row();
        self.rows.push(z);
        self.user_totals.push(0);
        proof {
            let nv = self.rows_view();
            assert(nv =~= rv.push(z@));
            assert forall|c: int| 0 <= c < NUM_STAKE_STATES implies #[trigger] nv[0][c] == col_sum(nv, c, nv.len() as int) by {
                lemma_col_sum_push(rv, z@, c, rv.len() as int);
                assert(col_sum(nv, c, nv.len() as int) == col_sum(nv, c, rv.len() as int) + nv[rv.len() as int][c]);
            }
            assert(row_sum(z@) == 0);
        }
        self.rows.len() - 1
    }

    /// Stake of user `user_id` (of all users for id 0) in `state`.
    pub fn get_user_stake_of_type(&self, user_id: usize, state: UserStakeState) -> (r: u128)
        requires
            self.wf(),
        ensures
            r == self.stake_of(user_id as int, state),
    {
        if user_id < self.rows.len() {
            let c = state_index(state);
            let row = self.rows[user_id];
            assert(self.rows_view()[user_id as int] == row@);
            row[c]
        } else {
            0
        }
    }

    /// Total stake of user `user_id`.
    pub fn get_user_total_stake(&self, user_id: usize) -> (r: u128)
        requires
            self.wf(),
        ensures
            r == self.total_of(user_id as int),
    {
        if user_id < self.user_totals.len() {
            self.user_totals[user_id]
        } else {
            0
        }
    }
}

/// How a conversion of `m` from `old_state` to `new_state` changes the stake in `s`.
pub open spec fn moved_delta(s: UserStakeState, old_state: UserStakeState, new_state: UserStakeState, m: int) -> int {
    if s == old_state {
        -m
    } else if s == new_state {
        m
    } else {
        0
    }
}

impl StakeLedger {
    /// In a well-formed ledger each user's stake in a state is at most the total in that
    /// state, and each user's total is at most the grand total.
    proof fn lemma_user_bounded(&self, u: int)
        requires
            self.wf(),
            1 <= u < self.rows@.len(),
        ensures
            forall|c: int| 0 <= c < NUM_STAKE_STATES ==> #[trigger] self.rows_view()[u][c] <= self.rows_view()[0][c],
            row_sum(self.rows_view()[u]) <= row_sum(self.rows_view()[0]),
    {
        let rv = self.rows_view();
        assert forall|c: int| 0 <= c < NUM_STAKE_STATES implies #[trigger] rv[u][c] <= rv[0][c] by {
            lemma_entry_le_col_sum(rv, c, u, rv.len() as int);
        }
        assert(rv[u][0] <= rv[0][0] && rv[u][1] <= rv[0][1] && rv[u][2] <= rv[0][2] && rv[u][3] <= rv[0][3]);
        assert(rv[u][4] <= rv[0][4] && rv[u][5] <= rv[0][5] && rv[u][6] <= rv[0][6] && rv[u][7] <= rv[0][7]);
        assert(rv[u][8] <= rv[0][8] && rv[u][9] <= rv[0][9]);
    }

    /// Replaces user row `u` and the totals row, keeping the invariant when the totals change
    /// exactly as the user row does and the user's total follows its row.
    proof fn lemma_rows_replaced(old_l: &StakeLedger, new_l: &StakeLedger, u: int, nr: Seq<u128>, nt: Seq<u128>)
        requires
            old_l.wf(),
            1 <= u < old_l.rows@.len(),
            nr.len() == NUM_STAKE_STATES,
            nt.len() == NUM_STAKE_STATES,
            new_l.rows_view() == old_l.rows_view().update(u, nr).update(0, nt),
            forall|c: int| 0 <= c < NUM_STAKE_STATES ==> #[trigger] nt[c] - old_l.rows_view()[0][c] == nr[c] - old_l.rows_view()[u][c],
            new_l.user_totals@ == old_l.user_totals@.update(u, new_l.user_totals@[u]),
            new_l.user_totals@[u] == row_sum(nr),
            row_sum(nt) <= u128::MAX,
        ensures
            new_l.wf(),
    {
        let rv = old_l.rows_view();
        let nv = new_l.rows_view();
        assert forall|c: int| 0 <= c < NUM_STAKE_STATES implies #[trigger] nv[0][c] == col_sum(nv, c, nv.len() as int) by {
            lemma_col_sum_update_totals(rv.update(u, nr), nt, c, rv.len() as int);
            lemma_col_sum_update(rv, u, nr, c, rv.len() as int);
        }
        assert forall|v: int| 0 <= v < nv.len() implies (#[trigger] nv[v]).len() == NUM_STAKE_STATES by {}
        assert forall|v: int| 1 <= v < nv.len() implies #[trigger] new_l.user_totals@[v] == row_sum(nv[v]) by {
            if v != u {
                assert(nv[v] == rv[v]);
            }
        }
    }

    /// Adds `amount` to the stake of user `user_id` in `state`, and to the totals.
    pub fn increase_user_stake_of_type(&mut self, user_id: usize, state: UserStakeState, amount: u128)
        requires
            old(self).wf(),
            1 <= user_id <= old(self).num_users(),
            row_sum(old(self).rows_view()[0]) + amount <= u128::MAX,
        ensures
            final(self).wf(),
            final(self).rows@.len() == old(self).rows@.len(),
            forall|u: int, s: UserStakeState| #[trigger] final(self).stake_of(u, s) == old(self).stake_of(u, s) + if (u
                == user_id || u == 0) && s == state {
                amount as int
            } else {
                0
            },
            forall|u: int| #[trigger] final(self).total_of(u) == old(self).total_of(u) + if u == user_id {
                amount as int
            } else {
                0
            },
            final(self).unbond_queue@ == old(self).unbond_queue@,
    {
        let ghost old_l = *self;
        proof {
            self.lemma_user_bounded(user_id as int);
        }
        let c = state_index(state);
        let mut row = self.rows[user_id];
        let mut tot = self.rows[0];
        assert(row@ == old_l.rows_view()[user_id as int]);
        assert(tot@ == old_l.rows_view()[0]);
        row[c] = row[c] + amount;
        tot[c] = tot[c] + amount;
        let t = self.user_totals[user_id] + amount;
        self.rows.set(user_id, row);
        self.rows.set(0, tot);
        self.user_totals.set(user_id, t);
        proof {
            assert(self.rows_view() =~= old_l.rows_view().update(user_id as int, row@).update(0, tot@));
            assert(self.user_totals@ =~= old_l.user_totals@.update(user_id as int, t));
            Self::lemma_rows_replaced(&old_l, self, user_id as int, row@, tot@);
        }
    }

    /// Takes `amount` from the stake of user `user_id` in `state`, and from the totals; yields
    /// false, changing nothing, when the user has less than that in `state`.
    pub fn decrease_user_stake_of_type(&mut self, user_id: usize, state: UserStakeState, amount: u128) -> (r: bool)
        requires
            old(self).wf(),
            1 <= user_id,
        ensures
            final(self).wf(),
            final(self).rows@.len() == old(self).rows@.len(),
            r == (amount <= old(self).stake_of(user_id as int, state)),
            forall|u: int, s: UserStakeState| #[trigger] final(self).stake_of(u, s) == old(self).stake_of(u, s) - if r && (u
                == user_id || u == 0) && s == state {
                amount as int
            } else {
                0
            },
            forall|u: int| #[trigger] final(self).total_of(u) == old(self).total_of(u) - if r && u == user_id {
                amount as int
            } else {
                0
            },
            final(self).unbond_queue@ == old(self).unbond_queue@,
            row_sum(final(self).rows_view()[0]) == row_sum(old(self).rows_view()[0]) - if r { amount as int } else { 0 },
    {
        if user_id >= self.rows.len() {
            return amount == 0;
        }
        let ghost old_l = *self;
        proof {
            self.lemma_user_bounded(user_id as int);
        }
        let c = state_index(state);
        let mut row = self.rows[user_id];
        let mut tot = self.rows[0];
        assert(row@ == old_l.rows_view()[user_id as int]);
        assert(tot@ == old_l.rows_view()[0]);
        if amount > row[c] {
            return false;
        }
        row[c] = row[c] - amount;
        tot[c] = tot[c] - amount;
        let t = self.user_totals[user_id] - amount;
        self.rows.set(user_id, row);
        self.rows.set(0, tot);
        self.user_totals.set(user_id, t);
        proof {
            assert(self.rows_view() =~= old_l.rows_view().update(user_id as int, row@).update(0, tot@));
            assert(self.user_totals@ =~= old_l.user_totals@.update(user_id as int, t));
            Self::lemma_rows_replaced(&old_l, self, user_id as int, row@, tot@);
            lemma_row_sum_update(old_l.rows_view()[0], c as int, tot@[c as int]);
            assert(tot@ =~= old_l.rows_view()[0].update(c as int, tot@[c as int]));
        }
        true
    }
}

/// Moving stake between two states of a row keeps its sum.
pub proof fn lemma_shifted_sum(r: Seq<u128>, oc: int, nc: int, m: int)
    requires
        r.len() == NUM_STAKE_STATES,
        0 <= oc < NUM_STAKE_STATES,
        0 <= nc < NUM_STAKE_STATES,
        oc != nc,
        0 <= m <= r[oc],
        r[nc] + m <= u128::MAX,
    ensures
        shifted(r, oc, nc, m).len() == NUM_STAKE_STATES,
        row_sum(shifted(r, oc, nc, m)) == row_sum(r),
        forall|c: int| 0 <= c < NUM_STAKE_STATES ==> #[trigger] shifted(r, oc, nc, m)[c] == r[c] + if c == oc {
            -m
        } else if c == nc {
            m
        } else {
            0
        },
{
    let t = shifted(r, oc, nc, m);
    assert forall|c: int| 0 <= c < NUM_STAKE_STATES implies #[trigger] t[c] == r[c] + if c == oc {
        -m
    } else if c == nc {
        m
    } else {
        0
    } by {}
    let d = |c: int| if c == oc { -m } else if c == nc { m } else { 0int };
    assert(t[0] == r[0] + d(0) && t[1] == r[1] + d(1) && t[2] == r[2] + d(2) && t[3] == r[3] + d(3));
    assert(t[4] == r[4] + d(4) && t[5] == r[5] + d(5) && t[6] == r[6] + d(6) && t[7] == r[7] + d(7));
    assert(t[8] == r[8] + d(8) && t[9] == r[9] + d(9));
}

impl StakeLedger {
    /// The ledger after moving `m` of user `u` from one state to another, in its row and in
    /// the totals, is well formed and differs from the old one by exactly that move.
    #[verifier::spinoff_prover]
    proof fn lemma_converted(
        old_l: &StakeLedger,
        new_l: &StakeLedger,
        u: int,
        old_state: UserStakeState,
        new_state: UserStakeState,
        m: int,
    )
        requires
            old_l.wf(),
            1 <= u < old_l.rows@.len(),
            old_state != new_state,
            0 <= m <= old_l.stake_of(u, old_state),
            new_l.rows_view() == old_l.rows_view().update(
                u,
                shifted(old_l.rows_view()[u], user_stake_state_code(old_state) as int, user_stake_state_code(new_state) as int, m),
            ).update(
                0,
                shifted(old_l.rows_view()[0], user_stake_state_code(old_state) as int, user_stake_state_code(new_state) as int, m),
            ),
            new_l.user_totals@ == old_l.user_totals@,
        ensures
            new_l.wf(),
            forall|v: int, s: UserStakeState| #[trigger] new_l.stake_of(v, s) == old_l.stake_of(v, s) + if v == u || v == 0 {
                moved_delta(s, old_state, new_state, m)
            } else {
                0
            },
    {
        let rv = old_l.rows_view();
        let oc = user_stake_state_code(old_state) as int;
        let nc = user_stake_state_code(new_state) as int;
        let nr = shifted(rv[u], oc, nc, m);
        let nt = shifted(rv[0], oc, nc, m);
        assert(oc != nc && rv[u].len() == NUM_STAKE_STATES && rv[0].len() == NUM_STAKE_STATES && m <= rv[u][oc] && m <= rv[0][oc]
            && rv[u][nc] + m <= u128::MAX && rv[0][nc] + m <= u128::MAX) by {
            crate::pool::states::lemma_user_stake_state_code_injective(old_state, new_state);
            old_l.lemma_user_bounded(u);
            assert(old_l.user_totals@[u] == row_sum(rv[u]));
            assert(rv[u][oc] + rv[u][nc] <= row_sum(rv[u]));
            assert(rv[0][oc] + rv[0][nc] <= row_sum(rv[0]));
        }
        assert(nr.len() == NUM_STAKE_STATES && nt.len() == NUM_STAKE_STATES && row_sum(nr) == row_sum(rv[u]) && row_sum(nt)
            == row_sum(rv[0]) && forall|c: int| 0 <= c < NUM_STAKE_STATES ==> #[trigger] nt[c] - rv[0][c] == nr[c] - rv[u][c]) by {
            lemma_shifted_sum(rv[u], oc, nc, m);
            lemma_shifted_sum(rv[0], oc, nc, m);
        }
        assert(new_l.wf()) by {
            assert(new_l.user_totals@ =~= old_l.user_totals@.update(u, new_l.user_totals@[u]));
            assert(old_l.user_totals@[u] == row_sum(rv[u]));
            Self::lemma_rows_replaced(old_l, new_l, u, nr, nt);
        }
        Self::lemma_converted_stakes(old_l, new_l, u, old_state, new_state, m);
    }

    proof fn lemma_converted_stakes(
        old_l: &StakeLedger,
        new_l: &StakeLedger,
        u: int,
        old_state: UserStakeState,
        new_state: UserStakeState,
        m: int,
    )
        requires
            old_l.rows_view().len() >= 1,
            forall|v: int| 0 <= v < old_l.rows_view().len() ==> (#[trigger] old_l.rows_view()[v]).len() == NUM_STAKE_STATES,
            1 <= u < old_l.rows@.len(),
            old_state != new_state,
            0 <= m <= old_l.stake_of(u, old_state),
            0 <= m <= old_l.stake_of(0, old_state),
            old_l.stake_of(u, new_state) + m <= u128::MAX,
            old_l.stake_of(0, new_state) + m <= u128::MAX,
            new_l.rows_view() == old_l.rows_view().update(
                u,
                shifted(old_l.rows_view()[u], user_stake_state_code(old_state) as int, user_stake_state_code(new_state) as int, m),
            ).update(
                0,
                shifted(old_l.rows_view()[0], user_stake_state_code(old_state) as int, user_stake_state_code(new_state) as int, m),
            ),
        ensures
            forall|v: int, s: UserStakeState| #[trigger] new_l.stake_of(v, s) == old_l.stake_of(v, s) + if v == u || v == 0 {
                moved_delta(s, old_state, new_state, m)
            } else {
                0
            },
    {
        let rv = old_l.rows_view();
        assert(new_l.rows@.len() == new_l.rows_view().len());
        assert forall|v: int, s: UserStakeState| #[trigger] new_l.stake_of(v, s) == old_l.stake_of(v, s) + if v == u || v == 0 {
            moved_delta(s, old_state, new_state, m)
        } else {
            0
        } by {
            crate::pool::states::lemma_user_stake_state_code_injective(s, old_state);
            crate::pool::states::lemma_user_stake_state_code_injective(s, new_state);
            crate::pool::states::lemma_user_stake_state_code_injective(old_state, new_state);
            if 0 <= v < rv.len() && v != u && v != 0 {
                assert(new_l.rows_view()[v] == rv[v]);
            }
        }
    }

    /// Moves stake of user `user_id` from `old_state` to `new_state`, as much as the user has
    /// there but no more than `supply`, which decreases by what was moved. The totals follow.
    #[verifier::spinoff_prover]
    pub fn convert_user_stake(&mut self, user_id: usize, old_state: UserStakeState, new_state: UserStakeState, supply: &mut u128)
        requires
            old(self).wf(),
            1 <= user_id,
            old_state != new_state,
        ensures
            final(self).wf(),
            final(self).rows@.len() == old(self).rows@.len(),
            ({
                let m = min_of(*old(supply) as int, old(self).stake_of(user_id as int, old_state));
                &&& *final(supply) == *old(supply) - m
                &&& forall|u: int, s: UserStakeState| #[trigger] final(self).stake_of(u, s) == old(self).stake_of(u, s) + if u
                    == user_id || u == 0 {
                    moved_delta(s, old_state, new_state, m)
                } else {
                    0
                }
            }),
            final(self).rows_view() == conv_rows(
                old(self).rows_view(),
                user_id as int,
                user_stake_state_code(old_state) as int,
                user_stake_state_code(new_state) as int,
                min_of(*old(supply) as int, old(self).stake_of(user_id as int, old_state)),
            ),
            final(self).user_totals@ == old(self).user_totals@,
            final(self).unbond_queue@ == old(self).unbond_queue@,
    {
        if user_id >= self.rows.len() {
            return;
        }
        let ghost old_l = *self;
        let ghost rv = self.rows_view();
        proof {
            self.lemma_user_bounded(user_id as int);
            crate::pool::states::lemma_user_stake_state_code_injective(old_state, new_state);
        }
        let oc = state_index(old_state);
        let nc = state_index(new_state);
        let mut row = self.rows[user_id];
        let mut tot = self.rows[0];
        assert(row@ == rv[user_id as int]);
        assert(tot@ == rv[0]);
        let m = if *supply > row[oc] {
            row[oc]
        } else {
            *supply
        };
        assert(row@[oc as int] + row@[nc as int] <= row_sum(row@));
        assert(tot@[oc as int] + tot@[nc as int] <= row_sum(tot@));
        row[oc] = row[oc] - m;
        row[nc] = row[nc] + m;
        tot[oc] = tot[oc] - m;
        tot[nc] = tot[nc] + m;
        *supply = *supply - m;
        self.rows.set(user_id, row);
        self.rows.set(0, tot);
        proof {
            assert(row@ =~= shifted(rv[user_id as int], oc as int, nc as int, m as int));
            assert(tot@ =~= shifted(rv[0], oc as int, nc as int, m as int));
            assert(self.rows_view() =~= rv.update(user_id as int, row@).update(0, tot@));
            Self::lemma_converted(&old_l, self, user_id as int, old_state, new_state, m as int);
        }
    }
}

impl StakeLedger {
    /// Moves stake from `old_state` to `new_state` for as many users as it takes, at most
    /// `supply` in all, which decreases by what was moved. Users are taken in increasing id
    /// order, so older users go first: user `u` gives up what `supply` still asks after the
    /// users before it, up to all it has in `old_state`.
    pub fn convert_user_stake_asc(&mut self, old_state: UserStakeState, new_state: UserStakeState, supply: &mut u128)
        requires
            old(self).wf(),
            old_state != new_state,
        ensures
            final(self).wf(),
            final(self).rows@.len() == old(self).rows@.len(),
            *final(supply) == *old(supply) - min_of(*old(supply) as int, old(self).stake_of(0, old_state)),
            forall|u: int, s: UserStakeState| 1 <= u ==> #[trigger] final(self).stake_of(u, s) == old(self).stake_of(u, s) + if u
                < old(self).rows@.len() {
                moved_delta(
                    s,
                    old_state,
                    new_state,
                    asc_share(old(self).rows_view(), user_stake_state_code(old_state) as int, *old(supply) as int, u),
                )
            } else {
                0
            },
            forall|s: UserStakeState| #[trigger] final(self).stake_of(0, s) == old(self).stake_of(0, s) + moved_delta(
                s,
                old_state,
                new_state,
                min_of(*old(supply) as int, old(self).stake_of(0, old_state)),
            ),
            final(self).rows_view() == asc_rows(
                old(self).rows_view(),
                user_stake_state_code(old_state) as int,
                user_stake_state_code(new_state) as int,
                *old(supply) as int,
            ),
            final(self).user_totals@ == old(self).user_totals@,
            final(self).unbond_queue@ == old(self).unbond_queue@,
    {
        let ghost old_l = *self;
        let ghost rv = self.rows_view();
        let ghost oc = user_stake_state_code(old_state) as int;
        let ghost s0 = *supply as int;
        let n = self.rows.len();
        let mut i: usize = 1;
        while i < n && *supply > 0
            invariant
                self.wf(),
                self.rows@.len() == n,
                n == rv.len(),
                old_state != new_state,
                1 <= i <= n,
                rv == old_l.rows_view(),
                oc == user_stake_state_code(old_state) as int,
                *supply as int == s0 - min_of(s0, col_sum(rv, oc, i as int)),
                forall|u: int, s: UserStakeState| 1 <= u < i ==> #[trigger] self.stake_of(u, s) == old_l.stake_of(u, s) + moved_delta(
                    s,
                    old_state,
                    new_state,
                    asc_share(rv, oc, s0, u),
                ),
                forall|u: int, s: UserStakeState| i <= u ==> #[trigger] self.stake_of(u, s) == old_l.stake_of(u, s),
                forall|s: UserStakeState| #[trigger] self.stake_of(0, s) == old_l.stake_of(0, s) + moved_delta(
                    s,
                    old_state,
                    new_state,
                    min_of(s0, col_sum(rv, oc, i as int)),
                ),
                self.user_totals@ == old_l.user_totals@,
                self.unbond_queue@ == old_l.unbond_queue@,
            decreases n - i,
        {
            let ghost before = *self;
            self.convert_user_stake(i, old_state, new_state, supply);
            proof {
                assert(before.stake_of(i as int, old_state) == rv[i as int][oc]);
                assert(col_sum(rv, oc, i + 1) == col_sum(rv, oc, i as int) + rv[i as int][oc]);
            }
            i = i + 1;
        }
        proof {
            if i < n {
                assert(*supply == 0);
                assert forall|u: int| i <= u < n implies #[trigger] asc_share(rv, oc, s0, u) == 0 by {
                    lemma_col_sum_mono(rv, oc, i as int, u);
                }
                lemma_col_sum_mono(rv, oc, i as int, n as int);
            }
            assert(old_l.stake_of(0, old_state) == col_sum(rv, oc, n as int));
            let mv = |u: int| if u == 0 { min_of(s0, old_l.stake_of(0, old_state)) } else { asc_share(rv, oc, s0, u) };
            assert forall|u: int, s: UserStakeState| 0 <= u < old_l.rows@.len() implies #[trigger] self.stake_of(u, s)
                == old_l.stake_of(u, s) + moved_delta(s, old_state, new_state, mv(u)) by {
                if u >= 1 {
                    assert(self.stake_of(u, s) == old_l.stake_of(u, s) + moved_delta(s, old_state, new_state, asc_share(rv, oc, s0, u)));
                }
            }
            Self::lemma_columns(&old_l, self, old_state, new_state, mv);
            assert(self.rows_view() =~= asc_rows(rv, oc, user_stake_state_code(new_state) as int, s0));
        }
    }
}

impl StakeLedger {
    /// Moves stake from `old_state` to `new_state` for as many users as it takes, at most
    /// `supply` in all, which decreases by what was moved. Users are taken in decreasing id
    /// order, so newer users go first: user `u` gives up what `supply` still asks after the
    /// users after it, up to all it has in `old_state`.
    pub fn convert_user_stake_desc(&mut self, old_state: UserStakeState, new_state: UserStakeState, supply: &mut u128)
        requires
            old(self).wf(),
            old_state != new_state,
        ensures
            final(self).wf(),
            final(self).rows@.len() == old(self).rows@.len(),
            *final(supply) == *old(supply) - min_of(*old(supply) as int, old(self).stake_of(0, old_state)),
            forall|u: int, s: UserStakeState| 1 <= u ==> #[trigger] final(self).stake_of(u, s) == old(self).stake_of(u, s) + if u
                < old(self).rows@.len() {
                moved_delta(
                    s,
                    old_state,
                    new_state,
                    desc_share(old(self).rows_view(), user_stake_state_code(old_state) as int, *old(supply) as int, u),
                )
            } else {
                0
            },
            forall|s: UserStakeState| #[trigger] final(self).stake_of(0, s) == old(self).stake_of(0, s) + moved_delta(
                s,
                old_state,
                new_state,
                min_of(*old(supply) as int, old(self).stake_of(0, old_state)),
            ),
            final(self).rows_view() == desc_rows(
                old(self).rows_view(),
                user_stake_state_code(old_state) as int,
                user_stake_state_code(new_state) as int,
                *old(supply) as int,
            ),
            final(self).user_totals@ == old(self).user_totals@,
            final(self).unbond_queue@ == old(self).unbond_queue@,
    {
        let ghost old_l = *self;
        let ghost rv = self.rows_view();
        let ghost oc = user_stake_state_code(old_state) as int;
        let ghost s0 = *supply as int;
        let n = self.rows.len();
        let mut i: usize = n - 1;
        while i > 0 && *supply > 0
            invariant
                self.wf(),
                self.rows@.len() == n,
                n == rv.len(),
                old_state != new_state,
                i < n,
                rv == old_l.rows_view(),
                oc == user_stake_state_code(old_state) as int,
                *supply as int == s0 - min_of(s0, col_sum(rv, oc, n as int) - col_sum(rv, oc, i + 1)),
                forall|u: int, s: UserStakeState| i < u < n ==> #[trigger] self.stake_of(u, s) == old_l.stake_of(u, s) + moved_delta(
                    s,
                    old_state,
                    new_state,
                    desc_share(rv, oc, s0, u),
                ),
                forall|u: int, s: UserStakeState| (1 <= u <= i || n <= u) ==> #[trigger] self.stake_of(u, s) == old_l.stake_of(u, s),
                forall|s: UserStakeState| #[trigger] self.stake_of(0, s) == old_l.stake_of(0, s) + moved_delta(
                    s,
                    old_state,
                    new_state,
                    min_of(s0, col_sum(rv, oc, n as int) - col_sum(rv, oc, i + 1)),
                ),
                self.user_totals@ == old_l.user_totals@,
                self.unbond_queue@ == old_l.unbond_queue@,
            decreases i,
        {
            let ghost before = *self;
            self.convert_user_stake(i, old_state, new_state, supply);
            proof {
                assert(before.stake_of(i as int, old_state) == rv[i as int][oc]);
                assert(col_sum(rv, oc, i + 1) == col_sum(rv, oc, i as int) + rv[i as int][oc]);
                lemma_col_sum_mono(rv, oc, i + 1, n as int);
            }
            i = i - 1;
        }
        proof {
            if i > 0 {
                assert(*supply == 0);
                assert forall|u: int| 1 <= u <= i implies #[trigger] desc_share(rv, oc, s0, u) == 0 by {
                    lemma_col_sum_mono(rv, oc, u + 1, i + 1);
                }
            }
            lemma_col_sum_mono(rv, oc, i + 1, n as int);
            lemma_col_sum_mono(rv, oc, 0, i + 1);
            assert(col_sum(rv, oc, 1) == 0);
            assert(col_sum(rv, oc, 0) == 0);
            assert(old_l.stake_of(0, old_state) == col_sum(rv, oc, n as int));
            let mv = |u: int| if u == 0 { min_of(s0, old_l.stake_of(0, old_state)) } else { desc_share(rv, oc, s0, u) };
            assert forall|u: int, s: UserStakeState| 0 <= u < old_l.rows@.len() implies #[trigger] self.stake_of(u, s)
                == old_l.stake_of(u, s) + moved_delta(s, old_state, new_state, mv(u)) by {
                if u >= 1 {
                    assert(self.stake_of(u, s) == old_l.stake_of(u, s) + moved_delta(s, old_state, new_state, desc_share(rv, oc, s0, u)));
                }
            }
            Self::lemma_columns(&old_l, self, old_state, new_state, mv);
            assert(self.rows_view() =~= desc_rows(rv, oc, user_stake_state_code(new_state) as int, s0));
        }
    }
}

impl StakeLedger {
    /// Stake of user `u` (of all users for id 0) in each state.
    pub open spec fn stake_by_state(&self, u: int) -> StakeByState {
        (
            self.stake_of(u, UserStakeState::Inactive) as u128,
            self.stake_of(u, UserStakeState::PendingActivation) as u128,
            self.stake_of(u, UserStakeState::Active) as u128,
            self.stake_of(u, UserStakeState::PendingDeactivation) as u128,
            self.stake_of(u, UserStakeState::UnBondPeriod) as u128,
            self.stake_of(u, UserStakeState::PendingUnBond) as u128,
            self.stake_of(u, UserStakeState::WithdrawOnly) as u128,
            self.stake_of(u, UserStakeState::ActivationFailed) as u128,
            self.stake_of(u, UserStakeState::ActiveForSale) as u128,
            self.stake_of(u, UserStakeState::PendingDeactivationFromSale) as u128,
        )
    }

    /// Every entry of the ledger, and the sum of inactive and withdraw-only stake, fits.
    proof fn lemma_entries_fit(&self, u: int)
        requires
            self.wf(),
        ensures
            0 <= self.stake_of(u, UserStakeState::Inactive) + self.stake_of(u, UserStakeState::WithdrawOnly) <= u128::MAX,
    {
        let rv = self.rows_view();
        if 0 <= u < rv.len() {
            if u == 0 {
                assert(rv[0][0] + rv[0][6] <= row_sum(rv[0]));
            } else {
                assert(self.user_totals@[u] == row_sum(rv[u]));
                assert(rv[u][0] + rv[u][6] <= row_sum(rv[u]));
            }
        }
    }

    /// Stake of user `user_id` (of all users for id 0) in each state.
    pub fn get_user_stake_by_type(&self, user_id: usize) -> (r: StakeByState)
        requires
            self.wf(),
        ensures
            r == self.stake_by_state(user_id as int),
    {
        (
            self.get_user_stake_of_type(user_id, UserStakeState::Inactive),
            self.get_user_stake_of_type(user_id, UserStakeState::PendingActivation),
            self.get_user_stake_of_type(user_id, UserStakeState::Active),
            self.get_user_stake_of_type(user_id, UserStakeState::PendingDeactivation),
            self.get_user_stake_of_type(user_id, UserStakeState::UnBondPeriod),
            self.get_user_stake_of_type(user_id, UserStakeState::PendingUnBond),
            self.get_user_stake_of_type(user_id, UserStakeState::WithdrawOnly),
            self.get_user_stake_of_type(user_id, UserStakeState::ActivationFailed),
            self.get_user_stake_of_type(user_id, UserStakeState::ActiveForSale),
            self.get_user_stake_of_type(user_id, UserStakeState::PendingDeactivationFromSale),
        )
    }

    /// Stake in each state of the user registered for `user_address`; zeros for an unknown address.
    pub fn get_user_stake_by_type_endpoint(&self, users: &UserDataModule, user_address: &Vec<u8>) -> (r: StakeByState)
        requires
            self.wf(),
            users.wf(),
        ensures
            r == self.stake_by_state(id_of(users.view(), user_address@) as int) || id_of(users.view(), user_address@) == 0,
            id_of(users.view(), user_address@) == 0 ==> r == (0u128, 0u128, 0u128, 0u128, 0u128, 0u128, 0u128, 0u128, 0u128, 0u128),
    {
        let user_id = users.get_user_id(user_address);
        if user_id == 0 {
            (0, 0, 0, 0, 0, 0, 0, 0, 0, 0)
        } else {
            self.get_user_stake_by_type(user_id)
        }
    }

    /// Stake of all users in each state.
    pub fn get_total_stake_by_type_endpoint(&self) -> (r: StakeByState)
        requires
            self.wf(),
        ensures
            r == self.stake_by_state(0),
    {
        self.get_user_stake_by_type(0)
    }

    /// Total stake of the user registered for `user_address`; nothing for an unknown address.
    pub fn get_user_total_stake_endpoint(&self, users: &UserDataModule, user_address: &Vec<u8>) -> (r: u128)
        requires
            self.wf(),
            users.wf(),
        ensures
            ({
                let id = id_of(users.view(), user_address@);
                r == if id == 0 { 0 } else { self.total_of(id as int) }
            }),
    {
        let user_id = users.get_user_id(user_address);
        if user_id == 0 {
            0
        } else {
            self.get_user_total_stake(user_id)
        }
    }

    /// Active stake of the user registered for `user_address`; nothing for an unknown address.
    pub fn get_user_active_stake_endpoint(&self, users: &UserDataModule, user_address: &Vec<u8>) -> (r: u128)
        requires
            self.wf(),
            users.wf(),
        ensures
            ({
                let id = id_of(users.view(), user_address@);
                r == if id == 0 { 0 } else { self.stake_of(id as int, UserStakeState::Active) }
            }),
    {
        let user_id = users.get_user_id(user_address);
        if user_id == 0 {
            0
        } else {
            self.get_user_stake_of_type(user_id, UserStakeState::Active)
        }
    }

    /// Inactive and withdraw-only stake of the user registered for `user_address`; nothing for
    /// an unknown address.
    pub fn get_user_inactive_stake_endpoint(&self, users: &UserDataModule, user_address: &Vec<u8>) -> (r: u128)
        requires
            self.wf(),
            users.wf(),
        ensures
            ({
                let id = id_of(users.view(), user_address@);
                r == if id == 0 {
                    0
                } else {
                    self.stake_of(id as int, UserStakeState::Inactive) + self.stake_of(id as int, UserStakeState::WithdrawOnly)
                }
            }),
    {
        let user_id = users.get_user_id(user_address);
        if user_id == 0 {
            0
        } else {
            proof {
                self.lemma_entries_fit(user_id as int);
            }
            self.get_user_stake_of_type(user_id, UserStakeState::Inactive) + self.get_user_stake_of_type(
                user_id,
                UserStakeState::WithdrawOnly,
            )
        }
    }

    /// Active stake of all users.
    pub fn get_total_active_stake(&self) -> (r: u128)
        requires
            self.wf(),
        ensures
            r == self.stake_of(0, UserStakeState::Active),
    {
        self.get_user_stake_of_type(0, UserStakeState::Active)
    }

    /// Inactive and withdraw-only stake of all users.
    pub fn get_total_inactive_stake(&self) -> (r: u128)
        requires
            self.wf(),
        ensures
            r == self.stake_of(0, UserStakeState::Inactive) + self.stake_of(0, UserStakeState::WithdrawOnly),
    {
        proof {
            self.lemma_entries_fit(0);
        }
        self.get_user_stake_of_type(0, UserStakeState::Inactive) + self.get_user_stake_of_type(0, UserStakeState::WithdrawOnly)
    }

    /// Fails when user `user_id` has some stake, but less than `minimum_stake`.
    pub fn validate_total_user_stake(&self, user_id: usize, minimum_stake: u128) -> (r: Result<(), &'static str>)
        requires
            self.wf(),
        ensures
            r is Err <==> (self.total_of(user_id as int) > 0 && self.total_of(user_id as int) < minimum_stake),
            r matches Err(e) ==> e@ == "cannot have less stake than minimum stake"@,
    {
        let user_total = self.get_user_total_stake(user_id);
        if user_total > 0 && user_total < minimum_stake {
            return Err("cannot have less stake than minimum stake");
        }
        Ok(())
    }

    /// The queue of users waiting for their stake to be unbonded.
    pub fn get_unbond_queue(&self) -> (r: Vec<UnbondQueueItem>)
        ensures
            r@ == self.unbond_queue@,
    {
        self.unbond_queue.clone()
    }

    /// Replaces the unbond queue.
    pub fn set_unbond_queue(&mut self, queue: Vec<UnbondQueueItem>)
        ensures
            final(self).unbond_queue@ == queue@,
            final(self).rows@ == old(self).rows@,
            final(self).user_totals@ == old(self).user_totals@,
    {
        self.unbond_queue = queue;
    }
}

/// The totals row holds, in each state, the sum of the stake of all users: every operation
/// on the ledger keeps it so.
pub proof fn law_totals_are_sums(ledger: &StakeLedger, s: UserStakeState)
    requires
        ledger.wf(),
    ensures
        ledger.stake_of(0, s) == col_sum(ledger.rows_view(), user_stake_state_code(s) as int, ledger.rows@.len() as int),
{
}

/// A user's total stake is the sum of its stake over all states.
pub proof fn law_user_total_is_row_sum(ledger: &StakeLedger, u: int)
    requires
        ledger.wf(),
        1 <= u <= ledger.num_users(),
    ensures
        ledger.total_of(u) == ledger.stake_of(u, UserStakeState::Inactive) + ledger.stake_of(u, UserStakeState::PendingActivation)
            + ledger.stake_of(u, UserStakeState::Active) + ledger.stake_of(u, UserStakeState::PendingDeactivation)
            + ledger.stake_of(u, UserStakeState::UnBondPeriod) + ledger.stake_of(u, UserStakeState::PendingUnBond)
            + ledger.stake_of(u, UserStakeState::WithdrawOnly) + ledger.stake_of(u, UserStakeState::ActivationFailed)
            + ledger.stake_of(u, UserStakeState::ActiveForSale) + ledger.stake_of(
            u,
            UserStakeState::PendingDeactivationFromSale,
        ),
{
}

/// Stake moved for the entries of `q` from position `i` on, in queue order: each entry's user
/// gives up what `supply` still asks, at most the entry's amount and what the user has in
/// column `oc`; the walk stops when `supply` is used up. Yields the rows and what is left of
/// `supply`.
pub open spec fn queue_take(rows: Seq<Seq<u128>>, q: Seq<UnbondQueueItem>, oc: int, nc: int, supply: int, i: int) -> (
    Seq<Seq<u128>>,
    int,
)
    decreases q.len() - i,
{
    if i < 0 || i >= q.len() || supply <= 0 {
        (rows, supply)
    } else {
        let e = q[i];
        let m = min_of(min_of(supply, e.amount as int), entry(rows, e.user_id as int, oc));
        queue_take(conv_rows(rows, e.user_id as int, oc, nc, m), q, oc, nc, supply - m, i + 1)
    }
}

/// As `queue_take`, but each entry also gives up what was moved for it: the walk stops at
/// the first entry that is not used up, which stays at the head of the remaining queue.
/// Yields the rows, what is left of `supply`, and the remaining queue.
pub open spec fn queue_pop(rows: Seq<Seq<u128>>, q: Seq<UnbondQueueItem>, oc: int, nc: int, supply: int, i: int) -> (
    Seq<Seq<u128>>,
    int,
    Seq<UnbondQueueItem>,
)
    decreases q.len() - i,
{
    if i < 0 || i >= q.len() || supply <= 0 {
        (rows, supply, q.subrange(i, q.len() as int))
    } else {
        let e = q[i];
        let m = min_of(min_of(supply, e.amount as int), entry(rows, e.user_id as int, oc));
        let rows2 = conv_rows(rows, e.user_id as int, oc, nc, m);
        if e.amount - m > 0 {
            (rows2, supply - m, q.update(i, UnbondQueueItem { amount: (e.amount - m) as u128, ..e }).subrange(i, q.len() as int))
        } else {
            queue_pop(rows2, q, oc, nc, supply - m, i + 1)
        }
    }
}

/// Whether every entry of the queue names a user id.
pub open spec fn queue_users_valid(q: Seq<UnbondQueueItem>) -> bool {
    forall|j: int| 0 <= j < q.len() ==> (#[trigger] q[j]).user_id >= 1
}

impl StakeLedger {
    /// Moves stake from `old_state` to `new_state` for the users of `queue`, in queue order,
    /// each up to the amount of its entry, at most `supply` in all, which decreases by what
    /// was moved, as `queue_take` says.
    pub fn convert_for_queue(&mut self, queue: &Vec<UnbondQueueItem>, old_state: UserStakeState, new_state: UserStakeState, supply: &mut u128)
        requires
            old(self).wf(),
            old_state != new_state,
            queue_users_valid(queue@),
        ensures
            final(self).wf(),
            final(self).rows@.len() == old(self).rows@.len(),
            (final(self).rows_view(), *final(supply) as int) == queue_take(
                old(self).rows_view(),
                queue@,
                user_stake_state_code(old_state) as int,
                user_stake_state_code(new_state) as int,
                *old(supply) as int,
                0,
            ),
            final(self).stake_of(0, old_state) == old(self).stake_of(0, old_state) - (*old(supply) - *final(supply)),
            forall|s: UserStakeState| s != old_state && s != new_state ==> #[trigger] final(self).stake_of(0, s) == old(self).stake_of(0, s),
            final(self).user_totals@ == old(self).user_totals@,
            final(self).unbond_queue@ == old(self).unbond_queue@,
    {
        let ghost rv0 = self.rows_view();
        let ghost oc = user_stake_state_code(old_state) as int;
        let ghost nc = user_stake_state_code(new_state) as int;
        let ghost s0 = *supply as int;
        let ghost t0 = self.stake_of(0, old_state);
        let ghost l0 = *self;
        let mut i: usize = 0;
        while i < queue.len() && *supply > 0
            invariant
                self.wf(),
                self.rows@.len() == l0.rows@.len(),
                old_state != new_state,
                queue_users_valid(queue@),
                oc == user_stake_state_code(old_state) as int,
                nc == user_stake_state_code(new_state) as int,
                i <= queue@.len(),
                queue_take(rv0, queue@, oc, nc, s0, 0) == queue_take(self.rows_view(), queue@, oc, nc, *supply as int, i as int),
                forall|s: UserStakeState| s != old_state && s != new_state ==> #[trigger] self.stake_of(0, s) == l0.stake_of(0, s),
                self.stake_of(0, old_state) == t0 - (s0 - *supply),
                self.user_totals@ == l0.user_totals@,
                self.unbond_queue@ == l0.unbond_queue@,
            decreases queue@.len() - i,
        {
            let e = queue[i];
            assert(e.user_id >= 1);
            let cap = if *supply > e.amount {
                e.amount
            } else {
                *supply
            };
            let mut rest = cap;
            let ghost before = *self;
            self.convert_user_stake(e.user_id, old_state, new_state, &mut rest);
            proof {
                assert(before.stake_of(e.user_id as int, old_state) == entry(before.rows_view(), e.user_id as int, oc));
            }
            let delta = cap - rest;
            *supply = *supply - delta;
            i = i + 1;
        }
    }

    /// Moves stake from `old_state` to `new_state` for the users of the unbond queue, in queue
    /// order, at most `supply` in all, which decreases by what was moved. Each entry gives up
    /// what was moved for it; entries used up leave the queue, as `queue_pop` says.
    pub fn convert_and_pop_queue(&mut self, old_state: UserStakeState, new_state: UserStakeState, supply: &mut u128)
        requires
            old(self).wf(),
            old_state != new_state,
            queue_users_valid(old(self).unbond_queue@),
        ensures
            final(self).wf(),
            final(self).rows@.len() == old(self).rows@.len(),
            (final(self).rows_view(), *final(supply) as int, final(self).unbond_queue@) == queue_pop(
                old(self).rows_view(),
                old(self).unbond_queue@,
                user_stake_state_code(old_state) as int,
                user_stake_state_code(new_state) as int,
                *old(supply) as int,
                0,
            ),
            queue_users_valid(final(self).unbond_queue@),
            final(self).stake_of(0, old_state) == old(self).stake_of(0, old_state) - (*old(supply) - *final(supply)),
            forall|s: UserStakeState| s != old_state && s != new_state ==> #[trigger] final(self).stake_of(0, s) == old(self).stake_of(0, s),
            final(self).user_totals@ == old(self).user_totals@,
    {
        let ghost rv0 = self.rows_view();
        let ghost q0 = self.unbond_queue@;
        let ghost oc = user_stake_state_code(old_state) as int;
        let ghost nc = user_stake_state_code(new_state) as int;
        let ghost s0 = *supply as int;
        let ghost t0 = self.stake_of(0, old_state);
        let ghost l0 = *self;
        let n = self.unbond_queue.len();
        let mut i: usize = 0;
        let mut stop = false;
        while i < n && *supply > 0 && !stop
            invariant
                self.wf(),
                self.rows@.len() == l0.rows@.len(),
                old_state != new_state,
                queue_users_valid(q0),
                n == q0.len(),
                oc == user_stake_state_code(old_state) as int,
                nc == user_stake_state_code(new_state) as int,
                i <= n,
                !stop ==> self.unbond_queue@ == q0,
                !stop ==> queue_pop(rv0, q0, oc, nc, s0, 0) == queue_pop(self.rows_view(), q0, oc, nc, *supply as int, i as int),
                stop ==> i < n && self.unbond_queue@.len() == n && queue_pop(rv0, q0, oc, nc, s0, 0) == (
                    self.rows_view(),
                    *supply as int,
                    self.unbond_queue@.subrange(i as int, n as int),
                ),
                stop ==> queue_users_valid(self.unbond_queue@),
                forall|s: UserStakeState| s != old_state && s != new_state ==> #[trigger] self.stake_of(0, s) == l0.stake_of(0, s),
                self.stake_of(0, old_state) == t0 - (s0 - *supply),
                self.user_totals@ == l0.user_totals@,
            decreases n - i + (if stop { 0int } else { 1int }),
        {
            let e = self.unbond_queue[i];
            assert(e.user_id >= 1);
            let cap = if *supply > e.amount {
                e.amount
            } else {
                *supply
            };
            let mut rest = cap;
            let ghost before = *self;
            self.convert_user_stake(e.user_id, old_state, new_state, &mut rest);
            proof {
                assert(before.stake_of(e.user_id as int, old_state) == entry(before.rows_view(), e.user_id as int, oc));
                assert(self.stake_of(0, old_state) == before.stake_of(0, old_state) - (cap - rest));
                assert forall|s: UserStakeState| s != old_state && s != new_state implies #[trigger] self.stake_of(0, s)
                    == before.stake_of(0, s) by {}
            }
            let ghost mid = *self;
            let delta = cap - rest;
            *supply = *supply - delta;
            let left = e.amount - delta;
            if left > 0 {
                self.unbond_queue.set(i, UnbondQueueItem { user_id: e.user_id, amount: left });
                assert forall|s: UserStakeState| #[trigger] self.stake_of(0, s) == mid.stake_of(0, s) by {}
                stop = true;
            } else {
                i = i + 1;
            }
        }
        let mut tail: Vec<UnbondQueueItem> = Vec::new();
        let mut j = i;
        while j < n
            invariant
                i <= j <= n,
                n == self.unbond_queue@.len(),
                tail@ == self.unbond_queue@.subrange(i as int, j as int),
            decreases n - j,
        {
            tail.push(self.unbond_queue[j]);
            j = j + 1;
            assert(tail@ =~= self.unbond_queue@.subrange(i as int, j as int));
        }
        let ghost fin = *self;
        self.unbond_queue = tail;
        assert forall|s: UserStakeState| #[trigger] self.stake_of(0, s) == fin.stake_of(0, s) by {}
    }
}

/// The state with code `c`.
pub open spec fn state_of_code(c: int) -> UserStakeState {
    if c == 0 {
        UserStakeState::Inactive
    } else if c == 1 {
        UserStakeState::PendingActivation
    } else if c == 2 {
        UserStakeState::Active
    } else if c == 3 {
        UserStakeState::PendingDeactivation
    } else if c == 4 {
        UserStakeState::UnBondPeriod
    } else if c == 5 {
        UserStakeState::PendingUnBond
    } else if c == 6 {
        UserStakeState::WithdrawOnly
    } else if c == 7 {
        UserStakeState::ActivationFailed
    } else if c == 8 {
        UserStakeState::ActiveForSale
    } else {
        UserStakeState::PendingDeactivationFromSale
    }
}

/// Every column of a row is the column of some state.
pub proof fn lemma_state_of_code(c: int)
    requires
        0 <= c < NUM_STAKE_STATES,
    ensures
        user_stake_state_code(state_of_code(c)) == c,
{
}

/// Rows after taking `supply` from column `oc` into column `nc`, users in increasing id order.
pub open spec fn asc_rows(rows: Seq<Seq<u128>>, oc: int, nc: int, supply: int) -> Seq<Seq<u128>> {
    Seq::new(
        rows.len(),
        |u: int|
            if u == 0 {
                shifted(rows[0], oc, nc, min_of(supply, rows[0][oc] as int))
            } else {
                shifted(rows[u], oc, nc, asc_share(rows, oc, supply, u))
            },
    )
}

/// Rows after taking `supply` from column `oc` into column `nc`, users in decreasing id order.
pub open spec fn desc_rows(rows: Seq<Seq<u128>>, oc: int, nc: int, supply: int) -> Seq<Seq<u128>> {
    Seq::new(
        rows.len(),
        |u: int|
            if u == 0 {
                shifted(rows[0], oc, nc, min_of(supply, rows[0][oc] as int))
            } else {
                shifted(rows[u], oc, nc, desc_share(rows, oc, supply, u))
            },
    )
}

/// Rows that differ from `rv` by moving `mv(u)` from column `oc` to column `nc` in each row
/// `u` are `rv` with each row shifted so.
pub proof fn lemma_rows_shifted(rv: Seq<Seq<u128>>, nv: Seq<Seq<u128>>, oc: int, nc: int, mv: spec_fn(int) -> int)
    requires
        rv.len() == nv.len(),
        0 <= oc < NUM_STAKE_STATES,
        0 <= nc < NUM_STAKE_STATES,
        oc != nc,
        forall|u: int| 0 <= u < rv.len() ==> (#[trigger] rv[u]).len() == NUM_STAKE_STATES,
        forall|u: int| 0 <= u < nv.len() ==> (#[trigger] nv[u]).len() == NUM_STAKE_STATES,
        forall|u: int, c: int|
            0 <= u < rv.len() && 0 <= c < NUM_STAKE_STATES ==> #[trigger] nv[u][c] == rv[u][c] + if c == oc {
                -mv(u)
            } else if c == nc {
                mv(u)
            } else {
                0
            },
    ensures
        nv == Seq::new(rv.len(), |u: int| shifted(rv[u], oc, nc, mv(u))),
{
    let target = Seq::new(rv.len(), |u: int| shifted(rv[u], oc, nc, mv(u)));
    assert forall|u: int| 0 <= u < rv.len() implies #[trigger] nv[u] == target[u] by {
        assert(nv[u][oc] == rv[u][oc] - mv(u));
        assert(nv[u][nc] == rv[u][nc] + mv(u));
        assert(nv[u] =~= shifted(rv[u], oc, nc, mv(u)));
    }
    assert(nv =~= target);
}

impl StakeLedger {
    /// The stake of two ledgers, state by state, as columns of their rows.
    proof fn lemma_columns(old_l: &StakeLedger, new_l: &StakeLedger, old_state: UserStakeState, new_state: UserStakeState, mv: spec_fn(int) -> int)
        requires
            old_l.wf(),
            new_l.wf(),
            old_state != new_state,
            new_l.rows@.len() == old_l.rows@.len(),
            forall|u: int, s: UserStakeState| 0 <= u < old_l.rows@.len() ==> #[trigger] new_l.stake_of(u, s) == old_l.stake_of(u, s)
                + moved_delta(s, old_state, new_state, mv(u)),
        ensures
            new_l.rows_view() == Seq::new(
                old_l.rows_view().len(),
                |u: int|
                    shifted(
                        old_l.rows_view()[u],
                        user_stake_state_code(old_state) as int,
                        user_stake_state_code(new_state) as int,
                        mv(u),
                    ),
            ),
    {
        let rv = old_l.rows_view();
        let nv = new_l.rows_view();
        let oc = user_stake_state_code(old_state) as int;
        let nc = user_stake_state_code(new_state) as int;
        crate::pool::states::lemma_user_stake_state_code_injective(old_state, new_state);
        assert forall|u: int, c: int| 0 <= u < rv.len() && 0 <= c < NUM_STAKE_STATES implies #[trigger] nv[u][c] == rv[u][c] + if c
            == oc {
            -mv(u)
        } else if c == nc {
            mv(u)
        } else {
            0
        } by {
            let s = state_of_code(c);
            lemma_state_of_code(c);
            crate::pool::states::lemma_user_stake_state_code_injective(s, old_state);
            crate::pool::states::lemma_user_stake_state_code_injective(s, new_state);
            assert(new_l.stake_of(u, s) == old_l.stake_of(u, s) + moved_delta(s, old_state, new_state, mv(u)));
        }
        lemma_rows_shifted(rv, nv, oc, nc, mv);
    }
}

impl StakeLedger {
    /// The totals of two different states together fit.
    pub proof fn lemma_row_fits_two(&self, a: UserStakeState, b: UserStakeState)
        requires
            self.wf(),
            a != b,
        ensures
            self.stake_of(0, a) + self.stake_of(0, b) <= u128::MAX,
    {
        let r = self.rows_view()[0];
        crate::pool::states::lemma_user_stake_state_code_injective(a, b);
        let ca = user_stake_state_code(a) as int;
        let cb = user_stake_state_code(b) as int;
        assert(r[ca] + r[cb] <= row_sum(r));
    }
}

impl StakeLedger {
    /// A user's active stake is at most the total active stake.
    pub proof fn lemma_user_active_le_total(&self, u: int)
        requires
            self.wf(),
        ensures
            self.stake_of(u, UserStakeState::Active) <= self.stake_of(0, UserStakeState::Active),
    {
        if 1 <= u < self.rows@.len() {
            self.lemma_user_bounded(u);
            assert(self.rows_view()[u][2] <= self.rows_view()[0][2]);
        }
    }
}

/// Two different users' entries together are at most the column sum that counts both.
pub proof fn lemma_two_entries_le_col_sum(rows: Seq<Seq<u128>>, c: int, u: int, v: int, k: int)
    requires
        1 <= u < k <= rows.len(),
        1 <= v < k,
        u != v,
    ensures
        rows[u][c] + rows[v][c] <= col_sum(rows, c, k),
    decreases k,
{
    if k - 1 == u {
        lemma_entry_le_col_sum(rows, c, v, k - 1);
    } else if k - 1 == v {
        lemma_entry_le_col_sum(rows, c, u, k - 1);
    } else {
        lemma_two_entries_le_col_sum(rows, c, u, v, k - 1);
    }
}

impl StakeLedger {
    /// Two different users' totals together fit.
    pub proof fn lemma_two_users_fit(&self, u: int, v: int)
        requires
            self.wf(),
            1 <= u <= self.num_users(),
            1 <= v <= self.num_users(),
            u != v,
        ensures
            self.total_of(u) + self.total_of(v) <= u128::MAX,
    {
        let rv = self.rows_view();
        assert forall|c: int| 0 <= c < NUM_STAKE_STATES implies #[trigger] rv[u][c] + rv[v][c] <= rv[0][c] by {
            lemma_two_entries_le_col_sum(rv, c, u, v, rv.len() as int);
        }
        assert(self.user_totals@[u] == row_sum(rv[u]));
        assert(self.user_totals@[v] == row_sum(rv[v]));
        assert(rv[u][0] + rv[v][0] <= rv[0][0] && rv[u][1] + rv[v][1] <= rv[0][1] && rv[u][2] + rv[v][2] <= rv[0][2]);
        assert(rv[u][3] + rv[v][3] <= rv[0][3] && rv[u][4] + rv[v][4] <= rv[0][4] && rv[u][5] + rv[v][5] <= rv[0][5]);
        assert(rv[u][6] + rv[v][6] <= rv[0][6] && rv[u][7] + rv[v][7] <= rv[0][7] && rv[u][8] + rv[v][8] <= rv[0][8]);
        assert(rv[u][9] + rv[v][9] <= rv[0][9]);
    }

    /// A user's stake in any state is at most its total.
    pub proof fn lemma_stake_le_total(&self, u: int, s: UserStakeState)
        requires
            self.wf(),
            1 <= u <= self.num_users(),
        ensures
            self.stake_of(u, s) <= self.total_of(u),
    {
        let rv = self.rows_view();
        assert(self.user_totals@[u] == row_sum(rv[u]));
        let c = user_stake_state_code(s) as int;
        assert(rv[u][c] <= row_sum(rv[u]));
    }
}

/// Changing one entry of a row changes its sum by the difference.
pub proof fn lemma_row_sum_update(r: Seq<u128>, c: int, v: u128)
    requires
        r.len() == NUM_STAKE_STATES,
        0 <= c < NUM_STAKE_STATES,
    ensures
        row_sum(r.update(c, v)) == row_sum(r) - r[c] + v,
{
    let t = r.update(c, v);
    assert(t[0] == (if c == 0 { v } else { r[0] }) && t[1] == (if c == 1 { v } else { r[1] }));
    assert(t[2] == (if c == 2 { v } else { r[2] }) && t[3] == (if c == 3 { v } else { r[3] }));
    assert(t[4] == (if c == 4 { v } else { r[4] }) && t[5] == (if c == 5 { v } else { r[5] }));
    assert(t[6] == (if c == 6 { v } else { r[6] }) && t[7] == (if c == 7 { v } else { r[7] }));
    assert(t[8] == (if c == 8 { v } else { r[8] }) && t[9] == (if c == 9 { v } else { r[9] }));
}

} // verus!
