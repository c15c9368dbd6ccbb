use vstd::prelude::*;
use crate::fund_item::{
    FundItem, FundsListInfo, default_item, empty_list_info, next_link, prev_link, same_but_links, no_dup,
    links_wf, sum_balances, agree_on, lemma_sum_nonneg, lemma_list_frame, lemma_sum_remove, lemma_sum_push,
    lemma_sum_subset, lemma_sum_update, lemma_sum_frame, lemma_remove_index, lemma_links_frame, link_append, link_remove,
    next_of, prev_of,
};
use crate::fund_type::{FundDescription, FundType, type_index, type_at, spec_fund_type, spec_allow_coalesce,
    lemma_type_index_inverse, NUM_FUND_TYPES,
};

verus! {

/// Direction in which a fund list is walked.
#[derive(PartialEq, Eq, Structural, Clone, Copy, Debug)]
pub enum SwapDirection {
    Forwards,
    Backwards,
}

/// Head of the list of the funds of one type owned by one user.
#[derive(Clone, Copy, Debug)]
pub struct UserListEntry {
    pub user_id: usize,
    pub fund_type: FundType,
    pub info: FundsListInfo,
}

/// Storage of the fund items of all delegators.
/// Every item with a positive balance is linked into the list of its fund type
/// and into the list of its user and fund type; both lists keep the sum of their balances.
pub struct FundModule {
    items: Vec<FundItem>,
    type_lists: Vec<FundsListInfo>,
    user_lists: Vec<UserListEntry>,
    type_ids: Ghost<Seq<Seq<usize>>>,
    user_ids: Ghost<Map<(usize, FundType), Seq<usize>>>,
}

/// What a walk over a fund list did, step by step: the states before and after each
/// visited fund, the intermediate states, the visited ids, what the transformation returned,
/// the optional maximum before and after each step, and the amounts converted.
pub struct ConvertTrace {
    pub states: Seq<FundModule>,
    pub mids: Seq<FundModule>,
    pub cursors: Seq<usize>,
    pub results: Seq<Option<FundDescription>>,
    pub maxes: Seq<Option<u128>>,
    pub extracted: Seq<u128>,
}

/// The results that the transformation `f` may give for a description, as a relation.
pub open spec fn user_results<F: Fn(FundDescription) -> Option<FundDescription>>(f: F) -> spec_fn(
    FundDescription,
    Option<FundDescription>,
) -> bool {
    |d: FundDescription, o: Option<FundDescription>| f.ensures((d,), o)
}

/// The results that the transformation `f` may give for an owner and a description, as a relation.
pub open spec fn type_results<F: Fn(usize, FundDescription) -> Option<FundDescription>>(f: F) -> spec_fn(
    usize,
    FundDescription,
    Option<FundDescription>,
) -> bool {
    |u: usize, d: FundDescription, o: Option<FundDescription>| f.ensures((u, d), o)
}

/// First id visited when walking the list `s` in direction `dir` (0 when empty).
pub open spec fn walk_start(s: Seq<usize>, dir: SwapDirection) -> usize {
    if s.len() == 0 {
        0
    } else if dir == SwapDirection::Forwards {
        s[0]
    } else {
        s[s.len() - 1]
    }
}

/// Id visited after `id` when walking the list `s` in direction `dir` (0 at the end).
pub open spec fn walk_next(s: Seq<usize>, id: usize, dir: SwapDirection) -> usize {
    let k = s.index_of(id);
    if dir == SwapDirection::Forwards {
        if k + 1 < s.len() {
            s[k + 1]
        } else {
            0
        }
    } else {
        if k > 0 {
            s[k - 1]
        } else {
            0
        }
    }
}

/// Number of ids from `id` to the end of the walk, `id` included.
pub open spec fn walk_remaining(s: Seq<usize>, id: usize, dir: SwapDirection) -> int {
    if id == 0 || !s.contains(id) {
        0
    } else if dir == SwapDirection::Forwards {
        s.len() - s.index_of(id)
    } else {
        s.index_of(id) + 1
    }
}

pub open spec fn seq_sum(s: Seq<u128>) -> int
    decreases s.len(),
{
    if s.len() == 0 {
        0
    } else {
        seq_sum(s.drop_last()) + s.last()
    }
}

pub proof fn lemma_index_of_unique(s: Seq<usize>, i: int)
    requires
        no_dup(s),
        0 <= i < s.len(),
    ensures
        s.index_of(s[i]) == i,
{
    let k = s.index_of(s[i]);
    assert(s.contains(s[i]));
}

pub open spec fn with_balance(it: FundItem, b: u128) -> FundItem {
    FundItem { balance: b, ..it }
}

pub open spec fn with_total(info: FundsListInfo, v: int) -> FundsListInfo {
    FundsListInfo { total_balance: v as u128, ..info }
}

pub open spec fn key_of(e: UserListEntry) -> (usize, FundType) {
    (e.user_id, e.fund_type)
}

/// Description, owner and balance agree; links may differ.
pub open spec fn same_fund(a: FundItem, b: FundItem) -> bool {
    a.fund_desc == b.fund_desc && a.user_id == b.user_id && a.balance == b.balance
}

impl FundModule {
    // ---------------------------------------------------------------- model

    /// The highest fund id handed out so far.
    pub closed spec fn max_id(&self) -> int {
        self.items@.len() - 1
    }

    /// The stored item under `id` (the default item where nothing is stored).
    pub closed spec fn fund(&self, id: int) -> FundItem {
        self.items@[id]
    }

    /// Ids in the list of all funds of type `t`, from first to last.
    pub closed spec fn type_list(&self, t: FundType) -> Seq<usize> {
        self.type_ids@[type_index(t)]
    }

    /// Ids in the list of the funds of type `t` owned by user `u`, from first to last.
    pub closed spec fn user_list(&self, u: usize, t: FundType) -> Seq<usize> {
        if self.user_ids@.contains_key((u, t)) {
            self.user_ids@[(u, t)]
        } else {
            Seq::empty()
        }
    }

    pub closed spec fn items_seq(&self) -> Seq<FundItem> {
        self.items@
    }

    /// Sum of the balances of all funds of type `t`.
    pub open spec fn type_total(&self, t: FundType) -> int {
        sum_balances(self.items_seq(), self.type_list(t))
    }

    /// Sum of the balances of the funds of type `t` owned by user `u`.
    pub open spec fn user_total(&self, u: usize, t: FundType) -> int {
        sum_balances(self.items_seq(), self.user_list(u, t))
    }

    /// Sum of all balances held in the storage.
    pub open spec fn total_all(&self) -> int {
        self.type_total(FundType::WithdrawOnly) + self.type_total(FundType::Waiting) + self.type_total(
            FundType::_PendingAct,
        ) + self.type_total(FundType::_ActiveFailed) + self.type_total(FundType::Active) + self.type_total(
            FundType::UnStaked,
        ) + self.type_total(FundType::DeferredPayment)
    }

    // ----------------------------------------------------------- invariant

    closed spec fn type_list_ok(&self, t: int) -> bool {
        let s = self.type_ids@[t];
        &&& links_wf(self.items@, self.type_lists@[t], s, true)
        &&& self.type_lists@[t].total_balance == sum_balances(self.items@, s)
        &&& forall|k: int|
            0 <= k < s.len() ==> {
                &&& type_index(spec_fund_type(self.items@[#[trigger] s[k] as int].fund_desc)) == t
                &&& self.items@[s[k] as int].balance > 0
            }
    }

    closed spec fn user_list_ok(&self, e: UserListEntry) -> bool {
        let s = self.user_ids@[key_of(e)];
        &&& self.user_ids@.contains_key(key_of(e))
        &&& links_wf(self.items@, e.info, s, false)
        &&& e.info.total_balance == sum_balances(self.items@, s)
        &&& forall|k: int|
            0 <= k < s.len() ==> {
                &&& self.items@[#[trigger] s[k] as int].user_id == e.user_id
                &&& spec_fund_type(self.items@[s[k] as int].fund_desc) == e.fund_type
                &&& self.items@[s[k] as int].balance > 0
            }
    }

    closed spec fn wf_lists(&self) -> bool {
        &&& 1 <= self.items@.len() <= usize::MAX
        &&& self.items@[0] == default_item()
        &&& self.type_lists@.len() == NUM_FUND_TYPES
        &&& self.type_ids@.len() == NUM_FUND_TYPES
        &&& forall|t: int| 0 <= t < NUM_FUND_TYPES ==> #[trigger] self.type_list_ok(t)
        &&& forall|k: int| 0 <= k < self.user_lists@.len() ==> self.user_list_ok(#[trigger] self.user_lists@[k])
        &&& forall|i: int, j: int|
            0 <= i < j < self.user_lists@.len() ==> key_of(#[trigger] self.user_lists@[i]) != key_of(
                #[trigger] self.user_lists@[j],
            )
        &&& forall|key: (usize, FundType)|
            #[trigger] self.user_ids@.contains_key(key) ==> exists|k: int|
                0 <= k < self.user_lists@.len() && key_of(self.user_lists@[k]) == key
    }

    closed spec fn live_ok(&self, id: int) -> bool {
        let it = self.items@[id];
        if it.balance > 0 {
            &&& self.type_list(spec_fund_type(it.fund_desc)).contains(id as usize)
            &&& self.user_list(it.user_id, spec_fund_type(it.fund_desc)).contains(id as usize)
        } else {
            it == default_item()
        }
    }

    closed spec fn wf_live(&self) -> bool {
        forall|id: int| 1 <= id < self.items@.len() ==> #[trigger] self.live_ok(id)
    }

    /// The storage invariant: every list is a well-linked sequence of distinct live items with
    /// the right sum; every item with a positive balance is in its two lists; every other item
    /// is the default item; and the sum of all balances fits in a `u128`.
    pub closed spec fn wf(&self) -> bool {
        &&& self.wf_lists()
        &&& self.wf_live()
        &&& self.total_all() <= u128::MAX
    }

    // ------------------------------------------------------------ creation

    /// Empty storage.
    pub fn new() -> (r: FundModule)
        ensures
            r.wf(),
            r.max_id() == 0,
            forall|t: FundType| r.type_list(t) == Seq::<usize>::empty(),
            forall|u: usize, t: FundType| r.user_list(u, t) == Seq::<usize>::empty(),
    {
        let mut items: Vec<FundItem> = Vec::new();
        items.push(FundItem::default());
        let mut type_lists: Vec<FundsListInfo> = Vec::new();
        let mut i: usize = 0;
        while i < NUM_FUND_TYPES
            invariant
                i <= NUM_FUND_TYPES,
                type_lists@.len() == i,
                forall|j: int| 0 <= j < i ==> type_lists@[j] == empty_list_info(),
            decreases NUM_FUND_TYPES - i,
        {
            type_lists.push(FundsListInfo::zero_value());
            i = i + 1;
        }
        let r = FundModule {
            items,
            type_lists,
            user_lists: Vec::new(),
            type_ids: Ghost(Seq::new(NUM_FUND_TYPES as nat, |i: int| Seq::<usize>::empty())),
            user_ids: Ghost(Map::empty()),
        };
        assert forall|t: int| 0 <= t < NUM_FUND_TYPES implies #[trigger] r.type_list_ok(t) by {
            assert(r.type_ids@[t] =~= Seq::<usize>::empty());
        }
        assert(r.total_all() == 0);
        r
    }

    /// Index of the head of the list of user `u` and type `t`, if there is one.
    fn find_user_list(&self, u: usize, t: FundType) -> (r: Option<usize>)
        ensures
            r matches Some(k) ==> k < self.user_lists@.len() && key_of(self.user_lists@[k as int]) == (u, t),
            r is None ==> forall|k: int|
                0 <= k < self.user_lists@.len() ==> key_of(#[trigger] self.user_lists@[k]) != (u, t),
    {
        let mut k: usize = 0;
        while k < self.user_lists.len()
            invariant
                k <= self.user_lists@.len(),
                forall|j: int| 0 <= j < k ==> key_of(#[trigger] self.user_lists@[j]) != (u, t),
            decreases self.user_lists@.len() - k,
        {
            let e = &self.user_lists[k];
            if e.user_id == u && e.fund_type == t {
                return Some(k);
            }
            k = k + 1;
        }
        None
    }
}


impl FundModule {
    // --------------------------------------------------------------- lemmas

    proof fn lemma_user_list_shape(&self, u: usize, t: FundType)
        requires
            self.wf_lists(),
        ensures
            no_dup(self.user_list(u, t)),
            forall|k: int|
                0 <= k < self.user_list(u, t).len() ==> {
                    &&& 1 <= #[trigger] self.user_list(u, t)[k] < self.items@.len()
                    &&& self.items@[self.user_list(u, t)[k] as int].user_id == u
                    &&& spec_fund_type(self.items@[self.user_list(u, t)[k] as int].fund_desc) == t
                    &&& self.items@[self.user_list(u, t)[k] as int].balance > 0
                },
    {
        if self.user_ids@.contains_key((u, t)) {
            let k = choose|k: int| 0 <= k < self.user_lists@.len() && key_of(self.user_lists@[k]) == (u, t);
            assert(self.user_list_ok(self.user_lists@[k]));
        }
    }

    proof fn lemma_type_list_shape(&self, t: FundType)
        requires
            self.wf_lists(),
        ensures
            no_dup(self.type_list(t)),
            forall|k: int|
                0 <= k < self.type_list(t).len() ==> {
                    &&& 1 <= #[trigger] self.type_list(t)[k] < self.items@.len()
                    &&& spec_fund_type(self.items@[self.type_list(t)[k] as int].fund_desc) == t
                    &&& self.items@[self.type_list(t)[k] as int].balance > 0
                },
    {
        lemma_type_index_inverse(t);
        assert(self.type_list_ok(type_index(t)));
        assert forall|k: int| 0 <= k < self.type_list(t).len() implies spec_fund_type(
            self.items@[#[trigger] self.type_list(t)[k] as int].fund_desc,
        ) == t by {
            let d = self.items@[self.type_list(t)[k] as int].fund_desc;
            lemma_type_index_inverse(spec_fund_type(d));
        }
    }

    /// The funds of one user and type are among the funds of that type.
    proof fn lemma_user_total_le_type_total(&self, u: usize, t: FundType)
        requires
            self.wf_lists(),
            self.wf_live(),
        ensures
            self.user_total(u, t) <= self.type_total(t),
    {
        self.lemma_user_list_shape(u, t);
        self.lemma_type_list_shape(t);
        let s1 = self.user_list(u, t);
        assert forall|i: int| 0 <= i < s1.len() implies self.type_list(t).contains(#[trigger] s1[i]) by {
            assert(self.live_ok(s1[i] as int));
        }
        lemma_sum_subset(self.items@, s1, self.type_list(t));
    }

    proof fn lemma_type_total_le_all(&self, t: FundType)
        ensures
            0 <= self.type_total(t) <= self.total_all(),
    {
        lemma_sum_nonneg(self.items@, self.type_list(FundType::WithdrawOnly));
        lemma_sum_nonneg(self.items@, self.type_list(FundType::Waiting));
        lemma_sum_nonneg(self.items@, self.type_list(FundType::_PendingAct));
        lemma_sum_nonneg(self.items@, self.type_list(FundType::_ActiveFailed));
        lemma_sum_nonneg(self.items@, self.type_list(FundType::Active));
        lemma_sum_nonneg(self.items@, self.type_list(FundType::UnStaked));
        lemma_sum_nonneg(self.items@, self.type_list(FundType::DeferredPayment));
    }

    /// The two kinds of lists agree: a fund is in the list of its type exactly when it has a
    /// positive balance, and in the list of a user and a type exactly when it is in the list of
    /// that type and that user owns it. Each list's head holds the sum of its balances.
    pub proof fn lemma_lists_consistent(&self, u: usize, t: FundType, id: usize)
        requires
            self.wf(),
            1 <= id <= self.max_id(),
        ensures
            self.type_list(t).contains(id) <==> (self.fund(id as int).balance > 0 && spec_fund_type(
                self.fund(id as int).fund_desc,
            ) == t),
            self.user_list(u, t).contains(id) <==> (self.type_list(t).contains(id) && self.fund(id as int).user_id
                == u),
            !self.type_list(t).contains(0),
            !self.user_list(u, t).contains(0),
    {
        self.lemma_type_list_shape(t);
        self.lemma_user_list_shape(u, t);
        assert(self.live_ok(id as int));
        let ts = self.type_list(t);
        let us = self.user_list(u, t);
        if ts.contains(id) {
            let k = ts.index_of(id);
            assert(ts[k] == id);
        }
        if us.contains(id) {
            let k = us.index_of(id);
            assert(us[k] == id);
        }
        if ts.contains(0) {
            let k = ts.index_of(0);
            assert(ts[k] >= 1);
        }
        if us.contains(0) {
            let k = us.index_of(0);
            assert(us[k] >= 1);
        }
    }

    /// The ids in every list are ids handed out: between 1 and `max_id`, each once.
    pub proof fn lemma_list_ids_in_range(&self, u: usize, t: FundType)
        requires
            self.wf(),
        ensures
            no_dup(self.type_list(t)),
            no_dup(self.user_list(u, t)),
            forall|k: int| 0 <= k < self.type_list(t).len() ==> 1 <= #[trigger] self.type_list(t)[k] <= self.max_id(),
            forall|k: int| 0 <= k < self.user_list(u, t).len() ==> 1 <= #[trigger] self.user_list(u, t)[k] <= self.max_id(),
    {
        self.lemma_type_list_shape(t);
        self.lemma_user_list_shape(u, t);
    }

    /// Sum of the totals of type `t` of users `1 ..= n`.
    pub open spec fn users_total(&self, t: FundType, n: int) -> int
        decreases n,
    {
        if n <= 0 {
            0
        } else {
            self.users_total(t, n - 1) + self.user_total(n as usize, t)
        }
    }

    /// The total of a type is the sum of the totals of that type of all users, when the owners
    /// of its funds are among users `1 ..= n`: so the totals reported under the totals id are
    /// the sums of what is reported for each user.
    pub proof fn law_type_total_is_user_sum(&self, t: FundType, n: usize)
        requires
            self.wf(),
            forall|k: int|
                0 <= k < self.type_list(t).len() ==> 1 <= #[trigger] self.fund(self.type_list(t)[k] as int).user_id <= n,
        ensures
            self.type_total(t) == self.users_total(t, n as int),
    {
        let items = self.items@;
        let s = self.type_list(t);
        self.lemma_type_list_shape(t);
        assert forall|u: int| 1 <= u <= n implies #[trigger] self.user_total(u as usize, t) == sum_balances(
            items,
            owned(items, s, u as usize),
        ) by {
            let us = self.user_list(u as usize, t);
            let os = owned(items, s, u as usize);
            self.lemma_user_list_shape(u as usize, t);
            lemma_owned(items, s, u as usize);
            assert forall|i: int| 0 <= i < us.len() implies os.contains(#[trigger] us[i]) by {
                self.lemma_lists_consistent(u as usize, t, us[i]);
                assert(us.contains(us[i]));
            }
            assert forall|i: int| 0 <= i < os.len() implies us.contains(#[trigger] os[i]) by {
                assert(os.contains(os[i]));
                assert(s.contains(os[i]));
                let k = choose|k: int| 0 <= k < s.len() && s[k] == os[i];
                assert(1 <= s[k] < items.len());
                self.lemma_lists_consistent(u as usize, t, os[i]);
            }
            lemma_sum_subset(items, us, os);
            lemma_sum_subset(items, os, us);
        }
        assert forall|k: int| 0 <= k < s.len() implies 1 <= #[trigger] items[s[k] as int].user_id <= n by {
            assert(1 <= self.fund(s[k] as int).user_id <= n);
        }
        lemma_sum_by_owner(items, s, n as int);
        self.lemma_users_total_owned(t, n as int);
    }

    proof fn lemma_users_total_owned(&self, t: FundType, m: int)
        requires
            forall|u: int| 1 <= u <= m ==> #[trigger] self.user_total(u as usize, t) == sum_balances(
                self.items@,
                owned(self.items@, self.type_list(t), u as usize),
            ),
            m <= usize::MAX,
        ensures
            self.users_total(t, m) == owner_sums(self.items@, self.type_list(t), m),
        decreases m,
    {
        if m > 0 {
            self.lemma_users_total_owned(t, m - 1);
            assert(self.user_total(m as usize, t) == sum_balances(self.items@, owned(self.items@, self.type_list(t), m as usize)));
        }
    }

    /// Every list sum is nonnegative, the sum of a user's list is at most the sum of its
    /// type, and the sum of all balances fits in a `u128`.
    pub proof fn lemma_totals_bounded(&self, u: usize)
        requires
            self.wf(),
        ensures
            forall|t: FundType| 0 <= #[trigger] self.user_total(u, t) <= self.type_total(t),
            forall|t: FundType| 0 <= #[trigger] self.type_total(t),
            self.total_all() <= u128::MAX,
    {
        assert forall|t: FundType| 0 <= #[trigger] self.user_total(u, t) <= self.type_total(t) by {
            self.lemma_user_total_le_type_total(u, t);
            lemma_sum_nonneg(self.items@, self.user_list(u, t));
        }
        assert forall|t: FundType| 0 <= #[trigger] self.type_total(t) by {
            lemma_sum_nonneg(self.items@, self.type_list(t));
        }
    }

    /// A balance in a list is part of the list's sum.
    proof fn lemma_balance_le_sum(items: Seq<FundItem>, s: Seq<usize>, k: int)
        requires
            0 <= k < s.len(),
        ensures
            items[s[k] as int].balance <= sum_balances(items, s),
    {
        lemma_sum_remove(items, s, k);
        lemma_sum_nonneg(items, s.remove(k));
    }

    // ------------------------------------------------------- list linking

    /// Adds fund `id` at the end of the list of its type, and adds its balance to the list's sum.
    #[verifier::spinoff_prover]
    #[verifier::rlimit(60)]
    fn add_fund_to_type_list(&mut self, id: usize)
        requires
            old(self).wf_lists(),
            1 <= id < old(self).items@.len(),
            old(self).items@[id as int].balance > 0,
            !old(self).type_list(spec_fund_type(old(self).items@[id as int].fund_desc)).contains(id),
            old(self).items@[id as int].type_list_next == 0,
            old(self).items@[id as int].type_list_prev == 0,
            old(self).type_total(spec_fund_type(old(self).items@[id as int].fund_desc))
                + old(self).items@[id as int].balance <= u128::MAX,
        ensures
            final(self).wf_lists(),
            final(self).items@.len() == old(self).items@.len(),
            forall|j: int|
                0 <= j < old(self).items@.len() ==> same_but_links(
                    #[trigger] final(self).items@[j],
                    old(self).items@[j],
                    true,
                ),
            forall|j: int|
                0 <= j < old(self).items@.len() && !final(self).type_list(
                    spec_fund_type(old(self).items@[id as int].fund_desc),
                ).contains(j as usize) ==> #[trigger] final(self).items@[j] == old(self).items@[j],
            final(self).type_list(spec_fund_type(old(self).items@[id as int].fund_desc)) == old(self).type_list(
                spec_fund_type(old(self).items@[id as int].fund_desc),
            ).push(id),
            forall|t2: FundType|
                t2 != spec_fund_type(old(self).items@[id as int].fund_desc) ==> final(self).type_list(t2)
                    == old(self).type_list(t2),
            final(self).user_ids@ == old(self).user_ids@,
            final(self).user_lists@ == old(self).user_lists@,
    {
        let ghost old_self = *self;
        let t = self.items[id].fund_desc.fund_type();
        let ti = t.discriminant() as usize;
        proof {
            lemma_type_index_inverse(t);
            old_self.lemma_type_list_shape(t);
            assert(old_self.type_list_ok(ti as int));
        }
        let ghost s = self.type_ids@[ti as int];
        let mut hdr = self.type_lists[ti];
        let bal = self.items[id].balance;
        link_append(&mut self.items, &mut hdr, id, true, Ghost(s));
        proof {
            lemma_sum_frame(old_self.items@, self.items@, s);
            lemma_sum_push(self.items@, s, id);
        }
        hdr.total_balance = hdr.total_balance + bal;
        self.type_lists.set(ti, hdr);
        self.type_ids = Ghost(self.type_ids@.update(ti as int, s.push(id)));
        proof {
            let ns = s.push(id);
            assert forall|k: int| 0 <= k < ns.len() implies {
                &&& type_index(spec_fund_type(self.items@[#[trigger] ns[k] as int].fund_desc)) == ti as int
                &&& self.items@[ns[k] as int].balance > 0
            } by {
                if k < s.len() {
                    assert(ns[k] == s[k]);
                }
            }
            assert(self.type_list_ok(ti as int));
            assert forall|t2: int| 0 <= t2 < NUM_FUND_TYPES implies #[trigger] self.type_list_ok(t2) by {
                if t2 != ti as int {
                    assert(old_self.type_list_ok(t2));
                    let s2 = self.type_ids@[t2];
                    assert(s2 == old_self.type_ids@[t2]);
                    assert forall|k: int| 0 <= k < s2.len() implies #[trigger] self.items@[s2[k] as int]
                        == old_self.items@[s2[k] as int] by {
                        let x = s2[k];
                        assert(type_index(spec_fund_type(old_self.items@[x as int].fund_desc)) == t2);
                        if ns.contains(x) {
                            let m = choose|m: int| 0 <= m < ns.len() && ns[m] == x;
                            assert(type_index(spec_fund_type(self.items@[ns[m] as int].fund_desc)) == ti as int);
                        }
                    }
                    lemma_list_frame(old_self.items@, self.items@, self.type_lists@[t2], s2, true);
                }
            }
            assert forall|k: int| 0 <= k < self.user_lists@.len() implies self.user_list_ok(
                #[trigger] self.user_lists@[k],
            ) by {
                let e = self.user_lists@[k];
                assert(old_self.user_list_ok(e));
                lemma_list_frame(old_self.items@, self.items@, e.info, self.user_ids@[key_of(e)], false);
            }
            assert forall|t2: FundType| t2 != t implies self.type_list(t2) == old_self.type_list(t2) by {
                lemma_type_index_inverse(t2);
            }
        }
    }

    /// Index of the head of the list of user `u` and type `t`; creates an empty one if there is none.
    fn get_or_create_user_list(&mut self, u: usize, t: FundType) -> (k: usize)
        requires
            old(self).wf_lists(),
        ensures
            final(self).wf_lists(),
            k < final(self).user_lists@.len(),
            key_of(final(self).user_lists@[k as int]) == (u, t),
            final(self).items@ == old(self).items@,
            final(self).type_lists@ == old(self).type_lists@,
            final(self).type_ids@ == old(self).type_ids@,
            forall|u2: usize, t2: FundType| final(self).user_list(u2, t2) == old(self).user_list(u2, t2),
    {
        match self.find_user_list(u, t) {
            Some(k) => k,
            None => {
                let ghost old_self = *self;
                proof {
                    if self.user_ids@.contains_key((u, t)) {
                        let k = choose|k: int|
                            0 <= k < self.user_lists@.len() && key_of(self.user_lists@[k]) == (u, t);
                        assert(key_of(self.user_lists@[k]) != (u, t));
                    }
                }
                self.user_lists.push(UserListEntry { user_id: u, fund_type: t, info: FundsListInfo::zero_value() });
                self.user_ids = Ghost(self.user_ids@.insert((u, t), Seq::empty()));
                let k = self.user_lists.len() - 1;
                proof {
                    assert forall|j: int| 0 <= j < self.user_lists@.len() implies self.user_list_ok(
                        #[trigger] self.user_lists@[j],
                    ) by {
                        if j < k {
                            assert(old_self.user_list_ok(old_self.user_lists@[j]));
                            assert(key_of(self.user_lists@[j]) != (u, t));
                        } else {
                            assert(self.user_ids@[(u, t)] =~= Seq::<usize>::empty());
                        }
                    }
                    assert forall|key: (usize, FundType)| #[trigger] self.user_ids@.contains_key(key) implies exists|
                        j: int,
                    | 0 <= j < self.user_lists@.len() && key_of(self.user_lists@[j]) == key by {
                        if key != (u, t) {
                            let j = choose|j: int|
                                0 <= j < old_self.user_lists@.len() && key_of(old_self.user_lists@[j]) == key;
                            assert(key_of(self.user_lists@[j]) == key);
                        } else {
                            assert(key_of(self.user_lists@[k as int]) == key);
                        }
                    }
                    assert forall|i: int, j: int| 0 <= i < j < self.user_lists@.len() implies key_of(
                        #[trigger] self.user_lists@[i],
                    ) != key_of(#[trigger] self.user_lists@[j]) by {
                        assert(self.user_lists@[i] == old_self.user_lists@[i]);
                        if j < k {
                            assert(self.user_lists@[j] == old_self.user_lists@[j]);
                        }
                    }
                    assert forall|t2: int| 0 <= t2 < NUM_FUND_TYPES implies #[trigger] self.type_list_ok(t2) by {
                        assert(old_self.type_list_ok(t2));
                    }
                    assert forall|u2: usize, t2: FundType| self.user_list(u2, t2) == old_self.user_list(u2, t2) by {
                        if (u2, t2) == (u, t) {
                            assert(self.user_list(u2, t2) =~= Seq::<usize>::empty());
                        }
                    }
                }
                k
            },
        }
    }

    /// Adds fund `id` at the end of the list of its user and type, and adds its balance to the list's sum.
    #[verifier::spinoff_prover]
    #[verifier::rlimit(60)]
    fn add_fund_to_user_list(&mut self, id: usize)
        requires
            old(self).wf_lists(),
            1 <= id < old(self).items@.len(),
            old(self).items@[id as int].balance > 0,
            !old(self).user_list(
                old(self).items@[id as int].user_id,
                spec_fund_type(old(self).items@[id as int].fund_desc),
            ).contains(id),
            old(self).items@[id as int].user_list_next == 0,
            old(self).items@[id as int].user_list_prev == 0,
            old(self).user_total(
                old(self).items@[id as int].user_id,
                spec_fund_type(old(self).items@[id as int].fund_desc),
            ) + old(self).items@[id as int].balance <= u128::MAX,
        ensures
            final(self).wf_lists(),
            final(self).items@.len() == old(self).items@.len(),
            forall|j: int|
                0 <= j < old(self).items@.len() ==> same_but_links(
                    #[trigger] final(self).items@[j],
                    old(self).items@[j],
                    false,
                ),
            forall|j: int|
                0 <= j < old(self).items@.len() && !final(self).user_list(
                    old(self).items@[id as int].user_id,
                    spec_fund_type(old(self).items@[id as int].fund_desc),
                ).contains(j as usize) ==> #[trigger] final(self).items@[j] == old(self).items@[j],
            final(self).user_list(
                old(self).items@[id as int].user_id,
                spec_fund_type(old(self).items@[id as int].fund_desc),
            ) == old(self).user_list(
                old(self).items@[id as int].user_id,
                spec_fund_type(old(self).items@[id as int].fund_desc),
            ).push(id),
            forall|u2: usize, t2: FundType|
                (u2, t2) != (old(self).items@[id as int].user_id, spec_fund_type(
                    old(self).items@[id as int].fund_desc,
                )) ==> final(self).user_list(u2, t2) == old(self).user_list(u2, t2),
            final(self).type_ids@ == old(self).type_ids@,
            final(self).type_lists@ == old(self).type_lists@,
    {
        let ghost old_self = *self;
        let u = self.items[id].user_id;
        let t = self.items[id].fund_desc.fund_type();
        let k = self.get_or_create_user_list(u, t);
        let ghost mid = *self;
        proof {
            assert(mid.user_list_ok(mid.user_lists@[k as int]));
        }
        let ghost s = self.user_ids@[(u, t)];
        let mut entry = self.user_lists[k];
        let bal = self.items[id].balance;
        link_append(&mut self.items, &mut entry.info, id, false, Ghost(s));
        proof {
            lemma_sum_frame(mid.items@, self.items@, s);
            lemma_sum_push(self.items@, s, id);
        }
        entry.info.total_balance = entry.info.total_balance + bal;
        self.user_lists.set(k, entry);
        self.user_ids = Ghost(self.user_ids@.insert((u, t), s.push(id)));
        proof {
            let ns = s.push(id);
            assert forall|m: int| 0 <= m < ns.len() implies {
                &&& self.items@[#[trigger] ns[m] as int].user_id == u
                &&& spec_fund_type(self.items@[ns[m] as int].fund_desc) == t
                &&& self.items@[ns[m] as int].balance > 0
            } by {
                if m < s.len() {
                    assert(ns[m] == s[m]);
                }
            }
            assert(self.user_list_ok(self.user_lists@[k as int]));
            assert forall|j: int| 0 <= j < self.user_lists@.len() implies self.user_list_ok(
                #[trigger] self.user_lists@[j],
            ) by {
                if j != k as int {
                    let e = self.user_lists@[j];
                    assert(e == mid.user_lists@[j]);
                    assert(mid.user_list_ok(e));
                    assert(key_of(e) != (u, t));
                    let s2 = self.user_ids@[key_of(e)];
                    assert(s2 == mid.user_ids@[key_of(e)]);
                    assert forall|m: int| 0 <= m < s2.len() implies #[trigger] self.items@[s2[m] as int]
                        == mid.items@[s2[m] as int] by {
                        let x = s2[m];
                        if ns.contains(x) {
                            let q = choose|q: int| 0 <= q < ns.len() && ns[q] == x;
                            assert(self.items@[ns[q] as int].user_id == u);
                            assert(spec_fund_type(self.items@[ns[q] as int].fund_desc) == t);
                        }
                    }
                    lemma_list_frame(mid.items@, self.items@, e.info, s2, false);
                }
            }
            assert forall|t2: int| 0 <= t2 < NUM_FUND_TYPES implies #[trigger] self.type_list_ok(t2) by {
                assert(mid.type_list_ok(t2));
                lemma_list_frame(mid.items@, self.items@, self.type_lists@[t2], self.type_ids@[t2], true);
            }
            assert forall|i: int, j: int| 0 <= i < j < self.user_lists@.len() implies key_of(
                #[trigger] self.user_lists@[i],
            ) != key_of(#[trigger] self.user_lists@[j]) by {
                assert(key_of(self.user_lists@[i]) == key_of(mid.user_lists@[i]));
                assert(key_of(self.user_lists@[j]) == key_of(mid.user_lists@[j]));
            }
            assert forall|key: (usize, FundType)| #[trigger] self.user_ids@.contains_key(key) implies exists|
                j: int,
            | 0 <= j < self.user_lists@.len() && key_of(self.user_lists@[j]) == key by {
                if key != (u, t) {
                    let j = choose|j: int| 0 <= j < mid.user_lists@.len() && key_of(mid.user_lists@[j]) == key;
                    assert(key_of(self.user_lists@[j]) == key);
                } else {
                    assert(key_of(self.user_lists@[k as int]) == key);
                }
            }
        }
    }

    /// Balances of old items are unchanged and the lists of the old state are
    /// sequences of old ids: then every list keeps its sum.
    proof fn lemma_sum_kept(old_items: Seq<FundItem>, new_items: Seq<FundItem>, s: Seq<usize>)
        requires
            forall|k: int| 0 <= k < s.len() ==> 0 <= #[trigger] s[k] < old_items.len(),
            forall|j: int| 0 <= j < old_items.len() ==> #[trigger] new_items[j].balance == old_items[j].balance,
        ensures
            sum_balances(new_items, s) == sum_balances(old_items, s),
    {
        assert forall|k: int| 0 <= k < s.len() implies new_items[#[trigger] s[k] as int].balance
            == old_items[s[k] as int].balance by {
            assert(0 <= s[k] < old_items.len());
        }
        lemma_sum_frame(old_items, new_items, s);
    }

    /// Appending an item that no list mentions keeps every list, and every sum.
    proof fn lemma_push_item(old: FundModule, new: FundModule, it: FundItem)
        requires
            old.wf_lists(),
            new.items@ == old.items@.push(it),
            new.items@.len() <= usize::MAX,
            new.type_lists@ == old.type_lists@,
            new.user_lists@ == old.user_lists@,
            new.type_ids@ == old.type_ids@,
            new.user_ids@ == old.user_ids@,
        ensures
            new.wf_lists(),
            forall|t: FundType| #[trigger] new.type_total(t) == old.type_total(t),
            forall|u: usize, t: FundType| #[trigger] new.user_total(u, t) == old.user_total(u, t),
    {
        assert forall|t2: int| 0 <= t2 < NUM_FUND_TYPES implies #[trigger] new.type_list_ok(t2) by {
            assert(old.type_list_ok(t2));
            lemma_list_frame(old.items@, new.items@, new.type_lists@[t2], new.type_ids@[t2], true);
        }
        assert forall|k: int| 0 <= k < new.user_lists@.len() implies new.user_list_ok(#[trigger] new.user_lists@[k]) by {
            let e = new.user_lists@[k];
            assert(old.user_list_ok(e));
            lemma_list_frame(old.items@, new.items@, e.info, new.user_ids@[key_of(e)], false);
        }
        assert forall|t: FundType| #[trigger] new.type_total(t) == old.type_total(t) by {
            old.lemma_type_list_shape(t);
            Self::lemma_sum_kept(old.items@, new.items@, old.type_list(t));
        }
        assert forall|u: usize, t: FundType| #[trigger] new.user_total(u, t) == old.user_total(u, t) by {
            old.lemma_user_list_shape(u, t);
            Self::lemma_sum_kept(old.items@, new.items@, old.user_list(u, t));
        }
    }

    /// The invariant and the totals after a new item has been appended and linked into its two lists.
    #[verifier::spinoff_prover]
    #[verifier::rlimit(60)]
    proof fn lemma_created(
        old: FundModule,
        pushed: FundModule,
        mid: FundModule,
        new: FundModule,
        u: usize,
        d: FundDescription,
        b: u128,
    )
        requires
            old.wf(),
            b > 0,
            old.total_all() + b <= u128::MAX,
            pushed.items@ == old.items@.push(
                FundItem {
                    fund_desc: d,
                    user_id: u,
                    balance: b,
                    type_list_next: 0,
                    type_list_prev: 0,
                    user_list_next: 0,
                    user_list_prev: 0,
                },
            ),
            pushed.type_ids@ == old.type_ids@,
            pushed.user_ids@ == old.user_ids@,
            mid.items@.len() == pushed.items@.len(),
            forall|j: int|
                0 <= j < pushed.items@.len() ==> same_but_links(#[trigger] mid.items@[j], pushed.items@[j], true),
            forall|j: int|
                0 <= j < pushed.items@.len() && !mid.type_list(spec_fund_type(d)).contains(j as usize)
                    ==> #[trigger] mid.items@[j] == pushed.items@[j],
            mid.type_list(spec_fund_type(d)) == pushed.type_list(spec_fund_type(d)).push(old.items@.len() as usize),
            forall|t2: FundType| t2 != spec_fund_type(d) ==> mid.type_list(t2) == pushed.type_list(t2),
            mid.user_ids@ == pushed.user_ids@,
            new.wf_lists(),
            new.items@.len() == mid.items@.len(),
            forall|j: int| 0 <= j < mid.items@.len() ==> same_but_links(#[trigger] new.items@[j], mid.items@[j], false),
            forall|j: int|
                0 <= j < mid.items@.len() && !new.user_list(u, spec_fund_type(d)).contains(j as usize)
                    ==> #[trigger] new.items@[j] == mid.items@[j],
            new.user_list(u, spec_fund_type(d)) == mid.user_list(u, spec_fund_type(d)).push(
                old.items@.len() as usize,
            ),
            forall|u2: usize, t2: FundType|
                (u2, t2) != (u, spec_fund_type(d)) ==> new.user_list(u2, t2) == mid.user_list(u2, t2),
            new.type_ids@ == mid.type_ids@,
        ensures
            new.wf(),
            Self::created(old, new, u, d, b),
    {
        let t = spec_fund_type(d);
        let id = old.items@.len() as usize;
        old.lemma_type_list_shape(t);
        old.lemma_user_list_shape(u, t);
        assert forall|j: int| 0 <= j < new.items@.len() implies #[trigger] new.items@[j].balance == (if j
            == id as int {
            b
        } else {
            old.items@[j].balance
        }) && (j < id ==> same_fund(new.items@[j], old.items@[j])) by {
            assert(same_but_links(new.items@[j], mid.items@[j], false));
            assert(same_but_links(mid.items@[j], pushed.items@[j], true));
        }
        assert(new.type_list(t) == old.type_list(t).push(id));
        assert(new.user_list(u, t) == old.user_list(u, t).push(id));
        assert forall|t2: FundType| t2 != t implies #[trigger] new.type_list(t2) == old.type_list(t2) by {
            assert(new.type_list(t2) == mid.type_list(t2));
        }
        assert forall|t2: FundType| #[trigger] new.type_total(t2) == (if t2 == t {
            old.type_total(t) + b
        } else {
            old.type_total(t2)
        }) by {
            old.lemma_type_list_shape(t2);
            Self::lemma_sum_kept(old.items@, new.items@, old.type_list(t2));
            if t2 == t {
                lemma_sum_push(new.items@, old.type_list(t), id);
            }
        }
        assert forall|u2: usize, t2: FundType| #[trigger] new.user_total(u2, t2) == (if (u2, t2) == (u, t) {
            old.user_total(u, t) + b
        } else {
            old.user_total(u2, t2)
        }) by {
            old.lemma_user_list_shape(u2, t2);
            Self::lemma_sum_kept(old.items@, new.items@, old.user_list(u2, t2));
            if (u2, t2) == (u, t) {
                lemma_sum_push(new.items@, old.user_list(u, t), id);
            }
        }
        assert(new.total_all() == old.total_all() + b);
        Self::lemma_created_live(old, new, u, d, b);
    }

    proof fn lemma_created_live(old: FundModule, new: FundModule, u: usize, d: FundDescription, b: u128)
        requires
            old.wf(),
            b > 0,
            new.items@.len() == old.items@.len() + 1,
            new.items@[old.items@.len() as int].balance == b,
            new.items@[old.items@.len() as int].fund_desc == d,
            new.items@[old.items@.len() as int].user_id == u,
            forall|j: int| 0 <= j < old.items@.len() ==> same_fund(#[trigger] new.items@[j], old.items@[j]),
            forall|j: int|
                0 <= j < old.items@.len() && !new.user_list(u, spec_fund_type(d)).contains(j as usize)
                    && !new.type_list(spec_fund_type(d)).contains(j as usize) ==> #[trigger] new.items@[j]
                    == old.items@[j],
            new.type_list(spec_fund_type(d)) == old.type_list(spec_fund_type(d)).push(old.items@.len() as usize),
            forall|t2: FundType| t2 != spec_fund_type(d) ==> #[trigger] new.type_list(t2) == old.type_list(t2),
            new.user_list(u, spec_fund_type(d)) == old.user_list(u, spec_fund_type(d)).push(
                old.items@.len() as usize,
            ),
            forall|u2: usize, t2: FundType|
                (u2, t2) != (u, spec_fund_type(d)) ==> #[trigger] new.user_list(u2, t2) == old.user_list(u2, t2),
        ensures
            new.wf_live(),
    {
        let t = spec_fund_type(d);
        let id = old.items@.len() as usize;
        assert forall|j: int| 1 <= j < new.items@.len() implies #[trigger] new.live_ok(j) by {
            if j < id as int {
                assert(old.live_ok(j));
                let oj = old.items@[j];
                if oj.balance > 0 {
                    let tj = spec_fund_type(oj.fund_desc);
                    if tj == t {
                        let k = choose|k: int| 0 <= k < old.type_list(t).len() && old.type_list(t)[k] == j as usize;
                        assert(new.type_list(t)[k] == j as usize);
                    } else {
                        assert(new.type_list(tj) == old.type_list(tj));
                    }
                    if (oj.user_id, tj) == (u, t) {
                        let k = choose|k: int|
                            0 <= k < old.user_list(u, t).len() && old.user_list(u, t)[k] == j as usize;
                        assert(new.user_list(u, t)[k] == j as usize);
                    } else {
                        assert(new.user_list(oj.user_id, tj) == old.user_list(oj.user_id, tj));
                    }
                } else {
                    assert(!new.type_list(t).contains(j as usize)) by {
                        if new.type_list(t).contains(j as usize) {
                            let k = choose|k: int| 0 <= k < new.type_list(t).len() && new.type_list(t)[k] == j as usize;
                            if k < old.type_list(t).len() {
                                assert(old.type_list(t)[k] == j as usize);
                                assert(old.live_ok(j));
                                old.lemma_type_list_shape(t);
                            }
                        }
                    }
                    assert(!new.user_list(u, t).contains(j as usize)) by {
                        if new.user_list(u, t).contains(j as usize) {
                            let k = choose|k: int|
                                0 <= k < new.user_list(u, t).len() && new.user_list(u, t)[k] == j as usize;
                            if k < old.user_list(u, t).len() {
                                assert(old.user_list(u, t)[k] == j as usize);
                                old.lemma_user_list_shape(u, t);
                            }
                        }
                    }
                }
            } else {
                assert(new.type_list(t)[new.type_list(t).len() - 1] == id);
                assert(new.user_list(u, t)[new.user_list(u, t).len() - 1] == id);
            }
        }
    }

    /// Creates a new fund item with the next free id, at the end of its type list and
    /// of its user-and-type list. A zero balance creates nothing.
    pub fn create_fund(&mut self, user_id: usize, fund_desc: FundDescription, balance: u128)
        requires
            old(self).wf(),
            old(self).total_all() + balance <= u128::MAX,
        ensures
            final(self).wf(),
            balance == 0 ==> *final(self) == *old(self),
            balance > 0 ==> Self::created(*old(self), *final(self), user_id, fund_desc, balance),
    {
        if balance == 0 {
            return ;
        }
        let ghost old_self = *self;
        let t = fund_desc.fund_type();
        let id = self.items.len();
        proof {
            old_self.lemma_type_list_shape(t);
            old_self.lemma_user_list_shape(user_id, t);
            old_self.lemma_type_total_le_all(t);
            old_self.lemma_user_total_le_type_total(user_id, t);
        }
        self.items.push(
            FundItem {
                fund_desc,
                user_id,
                balance,
                type_list_next: 0,
                type_list_prev: 0,
                user_list_next: 0,
                user_list_prev: 0,
            },
        );
        let ghost pushed = *self;
        let _n = self.items.len();
        proof {
            Self::lemma_push_item(old_self, pushed, self.items@[id as int]);
        }
        self.add_fund_to_type_list(id);
        let ghost mid = *self;
        proof {
            mid.lemma_user_list_shape(user_id, t);
            Self::lemma_sum_kept(pushed.items@, mid.items@, mid.user_list(user_id, t));
        }
        self.add_fund_to_user_list(id);
        proof {
            Self::lemma_created(old_self, pushed, mid, *self, user_id, fund_desc, balance);
        }
    }

    /// `new` is `old` with one more fund item, created at the end of its two lists.
    pub open spec fn created(old: FundModule, new: FundModule, u: usize, d: FundDescription, b: u128) -> bool {
        let id = old.max_id() + 1;
        let t = spec_fund_type(d);
        &&& new.max_id() == id
        &&& new.fund(id).fund_desc == d
        &&& new.fund(id).user_id == u
        &&& new.fund(id).balance == b
        &&& forall|j: int| 0 <= j <= old.max_id() ==> same_fund(#[trigger] new.fund(j), old.fund(j))
        &&& new.type_list(t) == old.type_list(t).push(id as usize)
        &&& forall|t2: FundType| t2 != t ==> #[trigger] new.type_list(t2) == old.type_list(t2)
        &&& new.user_list(u, t) == old.user_list(u, t).push(id as usize)
        &&& forall|u2: usize, t2: FundType|
            (u2, t2) != (u, t) ==> #[trigger] new.user_list(u2, t2) == old.user_list(u2, t2)
        &&& new.type_total(t) == old.type_total(t) + b
        &&& forall|t2: FundType| t2 != t ==> #[trigger] new.type_total(t2) == old.type_total(t2)
        &&& new.user_total(u, t) == old.user_total(u, t) + b
        &&& forall|u2: usize, t2: FundType|
            (u2, t2) != (u, t) ==> #[trigger] new.user_total(u2, t2) == old.user_total(u2, t2)
        &&& new.total_all() == old.total_all() + b
    }

    /// Takes fund `id` out of the list of its type, and its balance out of the list's sum.
    #[verifier::spinoff_prover]
    #[verifier::rlimit(100)]
    fn delete_fund_from_type_list(&mut self, id: usize)
        requires
            old(self).wf_lists(),
            1 <= id < old(self).items@.len(),
            old(self).type_list(spec_fund_type(old(self).items@[id as int].fund_desc)).contains(id),
        ensures
            final(self).wf_lists(),
            final(self).items@.len() == old(self).items@.len(),
            forall|j: int|
                0 <= j < old(self).items@.len() ==> same_but_links(
                    #[trigger] final(self).items@[j],
                    old(self).items@[j],
                    true,
                ),
            forall|j: int|
                0 <= j < old(self).items@.len() && !old(self).type_list(
                    spec_fund_type(old(self).items@[id as int].fund_desc),
                ).contains(j as usize) ==> #[trigger] final(self).items@[j] == old(self).items@[j],
            final(self).items@[id as int].type_list_next == 0,
            final(self).items@[id as int].type_list_prev == 0,
            final(self).type_list(spec_fund_type(old(self).items@[id as int].fund_desc)) == old(self).type_list(
                spec_fund_type(old(self).items@[id as int].fund_desc),
            ).remove(
                old(self).type_list(spec_fund_type(old(self).items@[id as int].fund_desc)).index_of(id),
            ),
            forall|t2: FundType|
                t2 != spec_fund_type(old(self).items@[id as int].fund_desc) ==> final(self).type_list(t2)
                    == old(self).type_list(t2),
            final(self).user_ids@ == old(self).user_ids@,
            final(self).user_lists@ == old(self).user_lists@,
    {
        let ghost old_self = *self;
        let t = self.items[id].fund_desc.fund_type();
        let ti = t.discriminant() as usize;
        proof {
            lemma_type_index_inverse(t);
            old_self.lemma_type_list_shape(t);
            assert(old_self.type_list_ok(ti as int));
        }
        let ghost s = self.type_ids@[ti as int];
        let ghost k = s.index_of(id);
        proof {
            lemma_sum_remove(self.items@, s, k);
            lemma_sum_nonneg(self.items@, s.remove(k));
        }
        let mut hdr = self.type_lists[ti];
        let bal = self.items[id].balance;
        hdr.total_balance = hdr.total_balance - bal;
        link_remove(&mut self.items, &mut hdr, id, true, Ghost(s));
        self.type_lists.set(ti, hdr);
        self.type_ids = Ghost(self.type_ids@.update(ti as int, s.remove(k)));
        proof {
            Self::lemma_type_removed(old_self, *self, ti as int, k);
            assert forall|t2: FundType| t2 != t implies self.type_list(t2) == old_self.type_list(t2) by {
                lemma_type_index_inverse(t2);
            }
        }
    }

    #[verifier::spinoff_prover]
    proof fn lemma_type_removed(old: FundModule, new: FundModule, ti: int, k: int)
        requires
            old.wf_lists(),
            0 <= ti < NUM_FUND_TYPES,
            0 <= k < old.type_ids@[ti].len(),
            new.items@.len() == old.items@.len(),
            forall|j: int| 0 <= j < old.items@.len() ==> same_but_links(#[trigger] new.items@[j], old.items@[j], true),
            forall|j: int|
                0 <= j < old.items@.len() && !old.type_ids@[ti].contains(j as usize) ==> #[trigger] new.items@[j]
                    == old.items@[j],
            links_wf(new.items@, new.type_lists@[ti], old.type_ids@[ti].remove(k), true),
            new.type_lists@[ti].total_balance == old.type_lists@[ti].total_balance
                - old.items@[old.type_ids@[ti][k] as int].balance,
            new.type_lists@ == old.type_lists@.update(ti, new.type_lists@[ti]),
            new.type_ids@ == old.type_ids@.update(ti, old.type_ids@[ti].remove(k)),
            new.user_ids@ == old.user_ids@,
            new.user_lists@ == old.user_lists@,
        ensures
            new.wf_lists(),
    {
        let s = old.type_ids@[ti];
        let ns = s.remove(k);
        assert(old.type_list_ok(ti));
        lemma_remove_index(s, k);
        lemma_sum_remove(old.items@, s, k);
        lemma_sum_frame(old.items@, new.items@, ns);
        assert forall|m: int| 0 <= m < ns.len() implies {
            &&& type_index(spec_fund_type(new.items@[#[trigger] ns[m] as int].fund_desc)) == ti
            &&& new.items@[ns[m] as int].balance > 0
        } by {
            if m < k {
                assert(ns[m] == s[m]);
            } else {
                assert(ns[m] == s[m + 1]);
            }
        }
        assert(new.type_ids@[ti] == ns);
        Self::lemma_type_list_replaced(old, new, ti);
    }

    /// Replacing one type list, with changes of type links only within the old and the new
    /// version of that list, keeps the lists well-formed.
    #[verifier::spinoff_prover]
    proof fn lemma_type_list_replaced(old: FundModule, new: FundModule, ti: int)
        requires
            old.wf_lists(),
            0 <= ti < NUM_FUND_TYPES,
            new.items@.len() == old.items@.len(),
            forall|j: int| 0 <= j < old.items@.len() ==> same_but_links(#[trigger] new.items@[j], old.items@[j], true),
            forall|j: int|
                0 <= j < old.items@.len() && !old.type_ids@[ti].contains(j as usize) && !new.type_ids@[ti].contains(
                    j as usize,
                ) ==> #[trigger] new.items@[j] == old.items@[j],
            new.type_ids@.len() == NUM_FUND_TYPES,
            new.type_lists@.len() == NUM_FUND_TYPES,
            forall|t2: int| 0 <= t2 < NUM_FUND_TYPES && t2 != ti ==> #[trigger] new.type_ids@[t2] == old.type_ids@[t2],
            forall|t2: int| 0 <= t2 < NUM_FUND_TYPES && t2 != ti ==> #[trigger] new.type_lists@[t2] == old.type_lists@[t2],
            links_wf(new.items@, new.type_lists@[ti], new.type_ids@[ti], true),
            new.type_lists@[ti].total_balance == sum_balances(new.items@, new.type_ids@[ti]),
            forall|m: int|
                0 <= m < new.type_ids@[ti].len() ==> {
                    &&& type_index(spec_fund_type(new.items@[#[trigger] new.type_ids@[ti][m] as int].fund_desc)) == ti
                    &&& new.items@[new.type_ids@[ti][m] as int].balance > 0
                },
            new.user_ids@ == old.user_ids@,
            new.user_lists@ == old.user_lists@,
        ensures
            new.wf_lists(),
    {
        let s = old.type_ids@[ti];
        let ns = new.type_ids@[ti];
        assert(old.type_list_ok(ti));
        assert(!s.contains(0usize));
        assert(!ns.contains(0usize));
        assert(new.items@[0] == old.items@[0]);
        assert(new.type_list_ok(ti));
        assert forall|t2: int| 0 <= t2 < NUM_FUND_TYPES implies #[trigger] new.type_list_ok(t2) by {
            if t2 != ti {
                assert(old.type_list_ok(t2));
                assert(old.type_list_ok(ti));
                let s2 = new.type_ids@[t2];
                assert forall|m: int| 0 <= m < s2.len() implies #[trigger] new.items@[s2[m] as int]
                    == old.items@[s2[m] as int] by {
                    let x = s2[m];
                    assert(type_index(spec_fund_type(old.items@[x as int].fund_desc)) == t2);
                    if s.contains(x) {
                        let q = choose|q: int| 0 <= q < s.len() && s[q] == x;
                        assert(type_index(spec_fund_type(old.items@[s[q] as int].fund_desc)) == ti);
                    }
                    if ns.contains(x) {
                        let q = choose|q: int| 0 <= q < ns.len() && ns[q] == x;
                        assert(type_index(spec_fund_type(new.items@[ns[q] as int].fund_desc)) == ti);
                    }
                }
                lemma_list_frame(old.items@, new.items@, new.type_lists@[t2], s2, true);
            }
        }
        assert forall|m: int| 0 <= m < new.user_lists@.len() implies new.user_list_ok(#[trigger] new.user_lists@[m]) by {
            let e = new.user_lists@[m];
            assert(old.user_list_ok(e));
            lemma_list_frame(old.items@, new.items@, e.info, new.user_ids@[key_of(e)], false);
        }
    }

    /// Takes fund `id` out of the list of its user and type, and its balance out of the list's sum.
    #[verifier::spinoff_prover]
    #[verifier::rlimit(60)]
    fn delete_fund_from_user_list(&mut self, id: usize)
        requires
            old(self).wf_lists(),
            1 <= id < old(self).items@.len(),
            old(self).user_list(
                old(self).items@[id as int].user_id,
                spec_fund_type(old(self).items@[id as int].fund_desc),
            ).contains(id),
        ensures
            final(self).wf_lists(),
            final(self).items@.len() == old(self).items@.len(),
            forall|j: int|
                0 <= j < old(self).items@.len() ==> same_but_links(
                    #[trigger] final(self).items@[j],
                    old(self).items@[j],
                    false,
                ),
            forall|j: int|
                0 <= j < old(self).items@.len() && !old(self).user_list(
                    old(self).items@[id as int].user_id,
                    spec_fund_type(old(self).items@[id as int].fund_desc),
                ).contains(j as usize) ==> #[trigger] final(self).items@[j] == old(self).items@[j],
            final(self).items@[id as int].user_list_next == 0,
            final(self).items@[id as int].user_list_prev == 0,
            final(self).user_list(
                old(self).items@[id as int].user_id,
                spec_fund_type(old(self).items@[id as int].fund_desc),
            ) == old(self).user_list(
                old(self).items@[id as int].user_id,
                spec_fund_type(old(self).items@[id as int].fund_desc),
            ).remove(
                old(self).user_list(
                    old(self).items@[id as int].user_id,
                    spec_fund_type(old(self).items@[id as int].fund_desc),
                ).index_of(id),
            ),
            forall|u2: usize, t2: FundType|
                (u2, t2) != (old(self).items@[id as int].user_id, spec_fund_type(
                    old(self).items@[id as int].fund_desc,
                )) ==> final(self).user_list(u2, t2) == old(self).user_list(u2, t2),
            final(self).type_ids@ == old(self).type_ids@,
            final(self).type_lists@ == old(self).type_lists@,
    {
        let ghost old_self = *self;
        let u = self.items[id].user_id;
        let t = self.items[id].fund_desc.fund_type();
        let k = self.get_or_create_user_list(u, t);
        let ghost mid = *self;
        proof {
            assert(mid.user_list_ok(mid.user_lists@[k as int]));
        }
        let ghost s = self.user_ids@[(u, t)];
        let ghost q = s.index_of(id);
        proof {
            lemma_sum_remove(self.items@, s, q);
            lemma_sum_nonneg(self.items@, s.remove(q));
        }
        let mut entry = self.user_lists[k];
        let bal = self.items[id].balance;
        entry.info.total_balance = entry.info.total_balance - bal;
        link_remove(&mut self.items, &mut entry.info, id, false, Ghost(s));
        self.user_lists.set(k, entry);
        self.user_ids = Ghost(self.user_ids@.insert((u, t), s.remove(q)));
        proof {
            Self::lemma_user_removed(mid, *self, k as int, q);
        }
    }

    #[verifier::spinoff_prover]
    #[verifier::rlimit(60)]
    proof fn lemma_user_removed(mid: FundModule, new: FundModule, k: int, q: int)
        requires
            mid.wf_lists(),
            0 <= k < mid.user_lists@.len(),
            0 <= q < mid.user_ids@[key_of(mid.user_lists@[k])].len(),
            new.items@.len() == mid.items@.len(),
            forall|j: int| 0 <= j < mid.items@.len() ==> same_but_links(#[trigger] new.items@[j], mid.items@[j], false),
            forall|j: int|
                0 <= j < mid.items@.len() && !mid.user_ids@[key_of(mid.user_lists@[k])].contains(j as usize)
                    ==> #[trigger] new.items@[j] == mid.items@[j],
            new.user_lists@.len() == mid.user_lists@.len(),
            key_of(new.user_lists@[k]) == key_of(mid.user_lists@[k]),
            forall|j: int| 0 <= j < mid.user_lists@.len() && j != k ==> new.user_lists@[j] == mid.user_lists@[j],
            links_wf(new.items@, new.user_lists@[k].info, mid.user_ids@[key_of(mid.user_lists@[k])].remove(q), false),
            new.user_lists@[k].info.total_balance == mid.user_lists@[k].info.total_balance - mid.items@[mid.user_ids@[key_of(
                mid.user_lists@[k],
            )][q] as int].balance,
            new.user_ids@ == mid.user_ids@.insert(
                key_of(mid.user_lists@[k]),
                mid.user_ids@[key_of(mid.user_lists@[k])].remove(q),
            ),
            new.type_ids@ == mid.type_ids@,
            new.type_lists@ == mid.type_lists@,
        ensures
            new.wf_lists(),
    {
        let key = key_of(mid.user_lists@[k]);
        let s = mid.user_ids@[key];
        let ns = s.remove(q);
        assert(mid.user_list_ok(mid.user_lists@[k]));
        lemma_remove_index(s, q);
        lemma_sum_remove(mid.items@, s, q);
        lemma_sum_frame(mid.items@, new.items@, ns);
        assert forall|m: int| 0 <= m < ns.len() implies {
            &&& new.items@[#[trigger] ns[m] as int].user_id == key.0
            &&& spec_fund_type(new.items@[ns[m] as int].fund_desc) == key.1
            &&& new.items@[ns[m] as int].balance > 0
        } by {
            if m < q {
                assert(ns[m] == s[m]);
            } else {
                assert(ns[m] == s[m + 1]);
            }
        }
        assert(new.user_list_ok(new.user_lists@[k]));
        assert forall|j: int| 0 <= j < new.user_lists@.len() implies new.user_list_ok(#[trigger] new.user_lists@[j]) by {
            if j != k {
                let e = new.user_lists@[j];
                assert(mid.user_list_ok(e));
                assert(key_of(e) != key);
                let s2 = new.user_ids@[key_of(e)];
                assert forall|m: int| 0 <= m < s2.len() implies #[trigger] new.items@[s2[m] as int]
                    == mid.items@[s2[m] as int] by {
                    let x = s2[m];
                    if s.contains(x) {
                        let p = choose|p: int| 0 <= p < s.len() && s[p] == x;
                        assert(mid.items@[s[p] as int].user_id == key.0);
                        assert(spec_fund_type(mid.items@[s[p] as int].fund_desc) == key.1);
                    }
                }
                lemma_list_frame(mid.items@, new.items@, e.info, s2, false);
            }
        }
        assert forall|t2: int| 0 <= t2 < NUM_FUND_TYPES implies #[trigger] new.type_list_ok(t2) by {
            assert(mid.type_list_ok(t2));
            lemma_list_frame(mid.items@, new.items@, new.type_lists@[t2], new.type_ids@[t2], true);
        }
        assert forall|i: int, j: int| 0 <= i < j < new.user_lists@.len() implies key_of(
            #[trigger] new.user_lists@[i],
        ) != key_of(#[trigger] new.user_lists@[j]) by {
            assert(key_of(new.user_lists@[i]) == key_of(mid.user_lists@[i]));
            assert(key_of(new.user_lists@[j]) == key_of(mid.user_lists@[j]));
        }
        assert forall|kk: (usize, FundType)| #[trigger] new.user_ids@.contains_key(kk) implies exists|j: int|
            0 <= j < new.user_lists@.len() && key_of(new.user_lists@[j]) == kk by {
            if kk != key {
                let j = choose|j: int| 0 <= j < mid.user_lists@.len() && key_of(mid.user_lists@[j]) == kk;
                assert(key_of(new.user_lists@[j]) == kk);
            } else {
                assert(key_of(new.user_lists@[k]) == kk);
            }
        }
        assert(!s.contains(0usize));
        assert(new.items@[0] == mid.items@[0]);
    }

    /// Overwriting an item that no list mentions keeps every list and every sum.
    proof fn lemma_set_unlisted(before: FundModule, after: FundModule, id: int)
        requires
            before.wf_lists(),
            1 <= id < before.items@.len(),
            after.items@.len() == before.items@.len(),
            forall|j: int| 0 <= j < before.items@.len() && j != id ==> #[trigger] after.items@[j] == before.items@[j],
            after.type_lists@ == before.type_lists@,
            after.user_lists@ == before.user_lists@,
            after.type_ids@ == before.type_ids@,
            after.user_ids@ == before.user_ids@,
            forall|t: FundType| !(#[trigger] before.type_list(t)).contains(id as usize),
            forall|u: usize, t: FundType| !(#[trigger] before.user_list(u, t)).contains(id as usize),
        ensures
            after.wf_lists(),
            forall|t: FundType| #[trigger] after.type_total(t) == before.type_total(t),
            forall|u: usize, t: FundType| #[trigger] after.user_total(u, t) == before.user_total(u, t),
    {
        assert forall|t2: int| 0 <= t2 < NUM_FUND_TYPES implies #[trigger] after.type_list_ok(t2) by {
            assert(before.type_list_ok(t2));
            let s2 = before.type_ids@[t2];
            assert(!before.type_list(type_at(t2)).contains(id as usize));
            assert(type_index(type_at(t2)) == t2);
            assert forall|m: int| 0 <= m < s2.len() implies #[trigger] after.items@[s2[m] as int]
                == before.items@[s2[m] as int] by {
                assert(s2[m] != id);
            }
            lemma_list_frame(before.items@, after.items@, after.type_lists@[t2], s2, true);
        }
        assert forall|k: int| 0 <= k < after.user_lists@.len() implies after.user_list_ok(
            #[trigger] after.user_lists@[k],
        ) by {
            let e = after.user_lists@[k];
            assert(before.user_list_ok(e));
            let s2 = before.user_ids@[key_of(e)];
            assert(before.user_list(e.user_id, e.fund_type) == s2);
            assert(!before.user_list(e.user_id, e.fund_type).contains(id as usize));
            assert forall|m: int| 0 <= m < s2.len() implies #[trigger] after.items@[s2[m] as int]
                == before.items@[s2[m] as int] by {
                assert(s2[m] != id);
            }
            lemma_list_frame(before.items@, after.items@, e.info, s2, false);
        }
        assert forall|t: FundType| #[trigger] after.type_total(t) == before.type_total(t) by {
            before.lemma_type_list_shape(t);
            let s2 = before.type_list(t);
            assert forall|m: int| 0 <= m < s2.len() implies #[trigger] after.items@[s2[m] as int].balance
                == before.items@[s2[m] as int].balance by {
                assert(s2[m] != id);
            }
            lemma_sum_frame(before.items@, after.items@, s2);
        }
        assert forall|u: usize, t: FundType| #[trigger] after.user_total(u, t) == before.user_total(u, t) by {
            before.lemma_user_list_shape(u, t);
            let s2 = before.user_list(u, t);
            assert forall|m: int| 0 <= m < s2.len() implies #[trigger] after.items@[s2[m] as int].balance
                == before.items@[s2[m] as int].balance by {
                assert(s2[m] != id);
            }
            lemma_sum_frame(before.items@, after.items@, s2);
        }
    }

    /// `new` is `old` without fund `id`: the item reads as default and is out of its two lists.
    pub open spec fn deleted(old: FundModule, new: FundModule, id: int) -> bool {
        let it = old.fund(id);
        let t = spec_fund_type(it.fund_desc);
        let u = it.user_id;
        &&& new.max_id() == old.max_id()
        &&& new.fund(id) == default_item()
        &&& forall|j: int| 0 <= j <= old.max_id() && j != id ==> same_fund(#[trigger] new.fund(j), old.fund(j))
        &&& new.type_list(t) == old.type_list(t).remove(old.type_list(t).index_of(id as usize))
        &&& forall|t2: FundType| t2 != t ==> #[trigger] new.type_list(t2) == old.type_list(t2)
        &&& new.user_list(u, t) == old.user_list(u, t).remove(old.user_list(u, t).index_of(id as usize))
        &&& forall|u2: usize, t2: FundType|
            (u2, t2) != (u, t) ==> #[trigger] new.user_list(u2, t2) == old.user_list(u2, t2)
        &&& new.type_total(t) == old.type_total(t) - it.balance
        &&& forall|t2: FundType| t2 != t ==> #[trigger] new.type_total(t2) == old.type_total(t2)
        &&& new.user_total(u, t) == old.user_total(u, t) - it.balance
        &&& forall|u2: usize, t2: FundType|
            (u2, t2) != (u, t) ==> #[trigger] new.user_total(u2, t2) == old.user_total(u2, t2)
        &&& new.total_all() == old.total_all() - it.balance
    }

    /// Removes fund `id` from its two lists and from storage; returns its balance.
    pub fn delete_fund(&mut self, id: usize) -> (r: u128)
        requires
            old(self).wf(),
            1 <= id <= old(self).max_id(),
            old(self).fund(id as int).balance > 0,
        ensures
            final(self).wf(),
            r == old(self).fund(id as int).balance,
            Self::deleted(*old(self), *final(self), id as int),
    {
        let ghost old_self = *self;
        let bal = self.items[id].balance;
        proof {
            assert(old_self.live_ok(id as int));
        }
        self.delete_fund_from_type_list(id);
        let ghost mid = *self;
        self.delete_fund_from_user_list(id);
        let ghost mid2 = *self;
        self.items.set(id, FundItem::default());
        proof {
            Self::lemma_deleted(old_self, mid, mid2, *self, id as int);
        }
        bal
    }

    /// The lists of `new` are those of `old` without `id`.
    pub open spec fn lists_removed(old: FundModule, new: FundModule, id: int) -> bool {
        let t = spec_fund_type(old.fund(id).fund_desc);
        let u = old.fund(id).user_id;
        &&& new.type_list(t) == old.type_list(t).remove(old.type_list(t).index_of(id as usize))
        &&& forall|t2: FundType| t2 != t ==> #[trigger] new.type_list(t2) == old.type_list(t2)
        &&& new.user_list(u, t) == old.user_list(u, t).remove(old.user_list(u, t).index_of(id as usize))
        &&& forall|u2: usize, t2: FundType|
            (u2, t2) != (u, t) ==> #[trigger] new.user_list(u2, t2) == old.user_list(u2, t2)
    }

    proof fn lemma_removed_not_listed(old: FundModule, new: FundModule, id: int)
        requires
            old.wf(),
            1 <= id < old.items@.len(),
            old.items@[id].balance > 0,
            Self::lists_removed(old, new, id),
        ensures
            forall|t2: FundType| !(#[trigger] new.type_list(t2)).contains(id as usize),
            forall|u2: usize, t2: FundType| !(#[trigger] new.user_list(u2, t2)).contains(id as usize),
    {
        let it = old.items@[id];
        let t = spec_fund_type(it.fund_desc);
        let u = it.user_id;
        assert(old.live_ok(id));
        old.lemma_type_list_shape(t);
        old.lemma_user_list_shape(u, t);
        let ts = old.type_list(t);
        let us = old.user_list(u, t);
        let kt = ts.index_of(id as usize);
        let ku = us.index_of(id as usize);
        lemma_remove_index(ts, kt);
        lemma_remove_index(us, ku);
        assert forall|t2: FundType| !(#[trigger] new.type_list(t2)).contains(id as usize) by {
            if t2 == t {
                if new.type_list(t).contains(id as usize) {
                    let m = choose|m: int| 0 <= m < new.type_list(t).len() && new.type_list(t)[m] == id as usize;
                    if m < kt {
                        assert(ts[m] == id as usize);
                    } else {
                        assert(ts[m + 1] == id as usize);
                    }
                }
            } else {
                old.lemma_type_list_shape(t2);
                if old.type_list(t2).contains(id as usize) {
                    let m = choose|m: int| 0 <= m < old.type_list(t2).len() && old.type_list(t2)[m] == id as usize;
                }
            }
        }
        assert forall|u2: usize, t2: FundType| !(#[trigger] new.user_list(u2, t2)).contains(id as usize) by {
            if (u2, t2) == (u, t) {
                if new.user_list(u, t).contains(id as usize) {
                    let m = choose|m: int| 0 <= m < new.user_list(u, t).len() && new.user_list(u, t)[m] == id as usize;
                    if m < ku {
                        assert(us[m] == id as usize);
                    } else {
                        assert(us[m + 1] == id as usize);
                    }
                }
            } else {
                old.lemma_user_list_shape(u2, t2);
                if old.user_list(u2, t2).contains(id as usize) {
                    let m = choose|m: int|
                        0 <= m < old.user_list(u2, t2).len() && old.user_list(u2, t2)[m] == id as usize;
                }
            }
        }
    }

    proof fn lemma_removed_type_totals(old: FundModule, new: FundModule, id: int, t2: FundType)
        requires
            old.wf(),
            1 <= id < old.items@.len(),
            old.items@[id].balance > 0,
            Self::lists_removed(old, new, id),
            new.items@.len() == old.items@.len(),
            forall|j: int| 0 <= j < old.items@.len() && j != id ==> #[trigger] new.items@[j].balance == old.items@[j].balance,
        ensures
            new.type_total(t2) == (if t2 == spec_fund_type(old.items@[id].fund_desc) {
                old.type_total(t2) - old.items@[id].balance
            } else {
                old.type_total(t2)
            }),
    {
        let t = spec_fund_type(old.items@[id].fund_desc);
        assert(old.live_ok(id));
        old.lemma_type_list_shape(t2);
        let os = old.type_list(t2);
        let s2 = new.type_list(t2);
        if t2 == t {
            let kt = os.index_of(id as usize);
            lemma_remove_index(os, kt);
            lemma_sum_remove(old.items@, os, kt);
            assert forall|m: int| 0 <= m < s2.len() implies #[trigger] new.items@[s2[m] as int].balance
                == old.items@[s2[m] as int].balance by {
                if m < kt {
                    assert(s2[m] == os[m]);
                } else {
                    assert(s2[m] == os[m + 1]);
                }
            }
        } else {
            assert forall|m: int| 0 <= m < s2.len() implies #[trigger] new.items@[s2[m] as int].balance
                == old.items@[s2[m] as int].balance by {
                assert(s2[m] == os[m]);
                assert(spec_fund_type(old.items@[os[m] as int].fund_desc) == t2);
            }
        }
        lemma_sum_frame(old.items@, new.items@, s2);
    }

    proof fn lemma_removed_user_totals(old: FundModule, new: FundModule, id: int, u2: usize, t2: FundType)
        requires
            old.wf(),
            1 <= id < old.items@.len(),
            old.items@[id].balance > 0,
            Self::lists_removed(old, new, id),
            new.items@.len() == old.items@.len(),
            forall|j: int| 0 <= j < old.items@.len() && j != id ==> #[trigger] new.items@[j].balance == old.items@[j].balance,
        ensures
            new.user_total(u2, t2) == (if (u2, t2) == (old.items@[id].user_id, spec_fund_type(
                old.items@[id].fund_desc,
            )) {
                old.user_total(u2, t2) - old.items@[id].balance
            } else {
                old.user_total(u2, t2)
            }),
    {
        let t = spec_fund_type(old.items@[id].fund_desc);
        let u = old.items@[id].user_id;
        assert(old.live_ok(id));
        old.lemma_user_list_shape(u2, t2);
        let os = old.user_list(u2, t2);
        let s2 = new.user_list(u2, t2);
        if (u2, t2) == (u, t) {
            let k = os.index_of(id as usize);
            lemma_remove_index(os, k);
            lemma_sum_remove(old.items@, os, k);
            assert forall|m: int| 0 <= m < s2.len() implies #[trigger] new.items@[s2[m] as int].balance
                == old.items@[s2[m] as int].balance by {
                if m < k {
                    assert(s2[m] == os[m]);
                } else {
                    assert(s2[m] == os[m + 1]);
                }
            }
        } else {
            assert forall|m: int| 0 <= m < s2.len() implies #[trigger] new.items@[s2[m] as int].balance
                == old.items@[s2[m] as int].balance by {
                assert(s2[m] == os[m]);
                assert((old.items@[os[m] as int].user_id, spec_fund_type(old.items@[os[m] as int].fund_desc))
                    == (u2, t2));
            }
        }
        lemma_sum_frame(old.items@, new.items@, s2);
    }

    #[verifier::spinoff_prover]
    proof fn lemma_deleted(old: FundModule, mid: FundModule, mid2: FundModule, new: FundModule, id: int)
        requires
            old.wf(),
            1 <= id < old.items@.len(),
            old.items@[id].balance > 0,
            mid.items@.len() == old.items@.len(),
            forall|j: int| 0 <= j < old.items@.len() ==> same_but_links(#[trigger] mid.items@[j], old.items@[j], true),
            forall|j: int|
                0 <= j < old.items@.len() && !old.type_list(spec_fund_type(old.items@[id].fund_desc)).contains(
                    j as usize,
                ) ==> #[trigger] mid.items@[j] == old.items@[j],
            mid.type_list(spec_fund_type(old.items@[id].fund_desc)) == old.type_list(
                spec_fund_type(old.items@[id].fund_desc),
            ).remove(old.type_list(spec_fund_type(old.items@[id].fund_desc)).index_of(id as usize)),
            forall|t2: FundType|
                t2 != spec_fund_type(old.items@[id].fund_desc) ==> mid.type_list(t2) == old.type_list(t2),
            mid.user_ids@ == old.user_ids@,
            mid2.wf_lists(),
            mid2.items@.len() == mid.items@.len(),
            forall|j: int| 0 <= j < mid.items@.len() ==> same_but_links(#[trigger] mid2.items@[j], mid.items@[j], false),
            forall|j: int|
                0 <= j < mid.items@.len() && !mid.user_list(
                    mid.items@[id].user_id,
                    spec_fund_type(mid.items@[id].fund_desc),
                ).contains(j as usize) ==> #[trigger] mid2.items@[j] == mid.items@[j],
            mid2.user_list(mid.items@[id].user_id, spec_fund_type(mid.items@[id].fund_desc)) == mid.user_list(
                mid.items@[id].user_id,
                spec_fund_type(mid.items@[id].fund_desc),
            ).remove(
                mid.user_list(mid.items@[id].user_id, spec_fund_type(mid.items@[id].fund_desc)).index_of(
                    id as usize,
                ),
            ),
            forall|u2: usize, t2: FundType|
                (u2, t2) != (mid.items@[id].user_id, spec_fund_type(mid.items@[id].fund_desc)) ==> mid2.user_list(
                    u2,
                    t2,
                ) == mid.user_list(u2, t2),
            mid2.type_ids@ == mid.type_ids@,
            new.items@ == mid2.items@.update(id, default_item()),
            new.type_lists@ == mid2.type_lists@,
            new.user_lists@ == mid2.user_lists@,
            new.type_ids@ == mid2.type_ids@,
            new.user_ids@ == mid2.user_ids@,
        ensures
            new.wf(),
            Self::deleted(old, new, id),
    {
        let it = old.items@[id];
        let t = spec_fund_type(it.fund_desc);
        let u = it.user_id;
        assert(same_fund(mid.items@[id], it));
        assert forall|j: int| 0 <= j < old.items@.len() && j != id implies same_fund(#[trigger] new.items@[j], old.items@[j]) by {
            assert(same_but_links(mid2.items@[j], mid.items@[j], false));
            assert(same_but_links(mid.items@[j], old.items@[j], true));
        }
        assert(Self::lists_removed(old, mid2, id));
        assert forall|t2: FundType| #[trigger] new.type_list(t2) == mid2.type_list(t2) by {}
        assert forall|u2: usize, t2: FundType| #[trigger] new.user_list(u2, t2) == mid2.user_list(u2, t2) by {}
        assert(Self::lists_removed(old, new, id));
        Self::lemma_removed_not_listed(old, mid2, id);
        Self::lemma_set_unlisted(mid2, new, id);
        assert forall|j: int| 0 <= j < old.items@.len() && j != id implies #[trigger] new.items@[j].balance
            == old.items@[j].balance by {
            assert(same_fund(new.items@[j], old.items@[j]));
        }
        assert forall|t2: FundType| #[trigger] new.type_total(t2) == (if t2 == t {
            old.type_total(t) - it.balance
        } else {
            old.type_total(t2)
        }) by {
            Self::lemma_removed_type_totals(old, new, id, t2);
        }
        assert forall|u2: usize, t2: FundType| #[trigger] new.user_total(u2, t2) == (if (u2, t2) == (u, t) {
            old.user_total(u, t) - it.balance
        } else {
            old.user_total(u2, t2)
        }) by {
            Self::lemma_removed_user_totals(old, new, id, u2, t2);
        }
        assert(new.total_all() == old.total_all() - it.balance);
        assert forall|j: int| 0 <= j < old.items@.len() && old.items@[j].balance == 0 implies #[trigger] new.items@[j]
            == old.items@[j] by {
            assert(old.live_ok(j) || j == 0);
            if j != 0 && j != id {
                assert(!old.type_list(t).contains(j as usize)) by {
                    old.lemma_type_list_shape(t);
                    if old.type_list(t).contains(j as usize) {
                        let m = choose|m: int| 0 <= m < old.type_list(t).len() && old.type_list(t)[m] == j as usize;
                    }
                }
                assert(!mid.user_list(u, t).contains(j as usize)) by {
                    old.lemma_user_list_shape(u, t);
                    assert(mid.user_list(u, t) == old.user_list(u, t));
                    if old.user_list(u, t).contains(j as usize) {
                        let m = choose|m: int| 0 <= m < old.user_list(u, t).len() && old.user_list(u, t)[m] == j as usize;
                    }
                }
            }
        }
        assert forall|j: int| 1 <= j < new.items@.len() implies #[trigger] new.live_ok(j) by {
            Self::lemma_deleted_live_one(old, new, id, j);
        }
    }

    /// Removing `id` from a list keeps every other member in it.
    proof fn lemma_remove_keeps(s: Seq<usize>, id: usize, j: usize)
        requires
            no_dup(s),
            s.contains(id),
            s.contains(j),
            j != id,
        ensures
            s.remove(s.index_of(id)).contains(j),
    {
        let k = s.index_of(id);
        lemma_remove_index(s, k);
        let m = choose|m: int| 0 <= m < s.len() && s[m] == j;
        if m < k {
            assert(s.remove(k)[m] == j);
        } else {
            assert(m != k);
            assert(s.remove(k)[m - 1] == j);
        }
    }

    #[verifier::spinoff_prover]
    proof fn lemma_deleted_live_one(old: FundModule, new: FundModule, id: int, j: int)
        requires
            old.wf(),
            1 <= id < old.items@.len(),
            old.items@[id].balance > 0,
            1 <= j < old.items@.len(),
            new.items@.len() == old.items@.len(),
            new.items@[id] == default_item(),
            forall|j: int| 0 <= j < old.items@.len() && j != id ==> same_fund(#[trigger] new.items@[j], old.items@[j]),
            forall|j: int|
                0 <= j < old.items@.len() && old.items@[j].balance == 0 ==> #[trigger] new.items@[j] == old.items@[j],
            Self::lists_removed(old, new, id),
        ensures
            new.live_ok(j),
    {
        let it = old.items@[id];
        let t = spec_fund_type(it.fund_desc);
        let u = it.user_id;
        if j != id {
            assert(old.live_ok(j));
            let oj = old.items@[j];
            if oj.balance > 0 {
                assert(old.live_ok(id));
                let tj = spec_fund_type(oj.fund_desc);
                assert(same_fund(new.items@[j], oj));
                if tj == t {
                    old.lemma_type_list_shape(t);
                    Self::lemma_remove_keeps(old.type_list(t), id as usize, j as usize);
                } else {
                    assert(new.type_list(tj) == old.type_list(tj));
                }
                if (oj.user_id, tj) == (u, t) {
                    old.lemma_user_list_shape(u, t);
                    Self::lemma_remove_keeps(old.user_list(u, t), id as usize, j as usize);
                } else {
                    assert(new.user_list(oj.user_id, tj) == old.user_list(oj.user_id, tj));
                }
            }
        }
    }

    /// `new` is `old` with the balance of fund `id` set to `nb`.
    pub open spec fn balance_set(old: FundModule, new: FundModule, id: int, nb: u128) -> bool {
        let it = old.fund(id);
        let t = spec_fund_type(it.fund_desc);
        let u = it.user_id;
        &&& new.max_id() == old.max_id()
        &&& new.fund(id).fund_desc == it.fund_desc
        &&& new.fund(id).user_id == it.user_id
        &&& new.fund(id).balance == nb
        &&& forall|j: int| 0 <= j <= old.max_id() && j != id ==> same_fund(#[trigger] new.fund(j), old.fund(j))
        &&& forall|t2: FundType| #[trigger] new.type_list(t2) == old.type_list(t2)
        &&& forall|u2: usize, t2: FundType| #[trigger] new.user_list(u2, t2) == old.user_list(u2, t2)
        &&& new.type_total(t) == old.type_total(t) - it.balance + nb
        &&& forall|t2: FundType| t2 != t ==> #[trigger] new.type_total(t2) == old.type_total(t2)
        &&& new.user_total(u, t) == old.user_total(u, t) - it.balance + nb
        &&& forall|u2: usize, t2: FundType|
            (u2, t2) != (u, t) ==> #[trigger] new.user_total(u2, t2) == old.user_total(u2, t2)
        &&& new.total_all() == old.total_all() - it.balance + nb
    }

    /// Sets the balance of the live fund `id` to the positive amount `nb`, keeping both list sums in step.
    fn set_fund_balance(&mut self, id: usize, nb: u128)
        requires
            old(self).wf(),
            1 <= id <= old(self).max_id(),
            old(self).fund(id as int).balance > 0,
            nb > 0,
            old(self).total_all() - old(self).fund(id as int).balance + nb <= u128::MAX,
        ensures
            final(self).wf(),
            Self::balance_set(*old(self), *final(self), id as int, nb),
    {
        let ghost old_self = *self;
        let it = self.items[id];
        let ob = it.balance;
        let t = it.fund_desc.fund_type();
        let u = it.user_id;
        let ti = t.discriminant() as usize;
        proof {
            assert(old_self.live_ok(id as int));
            lemma_type_index_inverse(t);
            old_self.lemma_type_list_shape(t);
            old_self.lemma_user_list_shape(u, t);
            old_self.lemma_type_total_le_all(t);
            old_self.lemma_user_total_le_type_total(u, t);
            assert(old_self.type_list_ok(ti as int));
            let k = old_self.type_list(t).index_of(id);
            Self::lemma_balance_le_sum(old_self.items@, old_self.type_list(t), k);
            let q = old_self.user_list(u, t).index_of(id);
            Self::lemma_balance_le_sum(old_self.items@, old_self.user_list(u, t), q);
        }
        let mut hdr = self.type_lists[ti];
        hdr.total_balance = hdr.total_balance - ob + nb;
        self.type_lists.set(ti, hdr);
        let k = match self.find_user_list(u, t) {
            Some(k) => k,
            None => {
                proof {
                    assert(self.user_ids@.contains_key((u, t)));
                    let j = choose|j: int| 0 <= j < self.user_lists@.len() && key_of(self.user_lists@[j]) == (u, t);
                    assert(key_of(self.user_lists@[j]) != (u, t));
                }
                return ;
            },
        };
        proof {
            assert(old_self.user_list_ok(self.user_lists@[k as int]));
        }
        let mut entry = self.user_lists[k];
        entry.info.total_balance = entry.info.total_balance - ob + nb;
        self.user_lists.set(k, entry);
        self.items.set(id, FundItem { balance: nb, ..it });
        proof {
            Self::lemma_balance_changed(old_self, *self, id as int, nb, k as int);
        }
    }

    /// The state right after `set_fund_balance` has written the new balance and the two new sums.
    closed spec fn balance_update(old: FundModule, new: FundModule, id: int, nb: u128, k: int) -> bool {
        &&& old.wf()
        &&& 1 <= id < old.items@.len()
        &&& old.items@[id].balance > 0
        &&& nb > 0
        &&& old.total_all() - old.items@[id].balance + nb <= u128::MAX
        &&& new.items@ == old.items@.update(id, with_balance(old.items@[id], nb))
        &&& new.type_ids@ == old.type_ids@
        &&& new.user_ids@ == old.user_ids@
        &&& 0 <= k < old.user_lists@.len()
        &&& key_of(old.user_lists@[k]) == (old.items@[id].user_id, spec_fund_type(old.items@[id].fund_desc))
        &&& new.user_lists@.len() == old.user_lists@.len()
        &&& key_of(new.user_lists@[k]) == key_of(old.user_lists@[k])
        &&& new.user_lists@[k].info == with_total(
            old.user_lists@[k].info,
            old.user_lists@[k].info.total_balance - old.items@[id].balance + nb,
        )
        &&& forall|j: int| 0 <= j < old.user_lists@.len() && j != k ==> new.user_lists@[j] == old.user_lists@[j]
        &&& new.type_lists@.len() == NUM_FUND_TYPES
        &&& new.type_lists@[type_index(spec_fund_type(old.items@[id].fund_desc))] == with_total(
            old.type_lists@[type_index(spec_fund_type(old.items@[id].fund_desc))],
            old.type_lists@[type_index(spec_fund_type(old.items@[id].fund_desc))].total_balance
                - old.items@[id].balance + nb,
        )
        &&& forall|t2: int|
            0 <= t2 < NUM_FUND_TYPES && t2 != type_index(spec_fund_type(old.items@[id].fund_desc))
                ==> #[trigger] new.type_lists@[t2] == old.type_lists@[t2]
    }

    proof fn lemma_balance_changed(old: FundModule, new: FundModule, id: int, nb: u128, k: int)
        requires
            Self::balance_update(old, new, id, nb, k),
        ensures
            new.wf(),
            Self::balance_set(old, new, id, nb),
    {
        Self::lemma_balance_changed_lists(old, new, id, nb, k);
        Self::lemma_balance_changed_totals(old, new, id, nb, k);
        assert forall|j: int| 1 <= j < new.items@.len() implies #[trigger] new.live_ok(j) by {
            assert(old.live_ok(j));
        }
    }

    proof fn lemma_balance_changed_links(old: FundModule, new: FundModule, id: int, nb: u128, k: int)
        requires
            Self::balance_update(old, new, id, nb, k),
        ensures
            forall|j: int|
                0 <= j < old.items@.len() ==> next_link(#[trigger] new.items@[j], true) == next_link(old.items@[j], true)
                    && prev_link(new.items@[j], true) == prev_link(old.items@[j], true) && next_link(new.items@[j], false)
                    == next_link(old.items@[j], false) && prev_link(new.items@[j], false) == prev_link(old.items@[j], false),
    {
    }

    #[verifier::spinoff_prover]
    proof fn lemma_balance_changed_type(old: FundModule, new: FundModule, id: int, nb: u128, k: int, t2: int)
        requires
            Self::balance_update(old, new, id, nb, k),
            0 <= t2 < NUM_FUND_TYPES,
        ensures
            new.type_list_ok(t2),
    {
        let it = old.items@[id];
        let t = spec_fund_type(it.fund_desc);
        let ti = type_index(t);
        assert(old.live_ok(id));
        lemma_type_index_inverse(t);
        Self::lemma_balance_changed_links(old, new, id, nb, k);
        assert(old.type_list_ok(t2));
        let s2 = old.type_ids@[t2];
        lemma_links_frame(old.items@, new.items@, old.type_lists@[t2], s2, true);
        lemma_sum_update(old.items@, new.items@, s2, id as usize);
        assert forall|m: int| 0 <= m < s2.len() implies {
            &&& type_index(spec_fund_type(new.items@[#[trigger] s2[m] as int].fund_desc)) == t2
            &&& new.items@[s2[m] as int].balance > 0
        } by {
            if s2[m] as int == id {
                assert(new.items@[id] == with_balance(it, nb));
            } else {
                assert(new.items@[s2[m] as int] == old.items@[s2[m] as int]);
            }
        }
        if t2 == ti {
            assert(s2 == old.type_list(t));
            old.lemma_type_total_le_all(t);
            lemma_sum_nonneg(new.items@, s2);
        } else {
            assert(!s2.contains(id as usize)) by {
                if s2.contains(id as usize) {
                    let m = choose|m: int| 0 <= m < s2.len() && s2[m] == id as usize;
                    assert(type_index(spec_fund_type(old.items@[s2[m] as int].fund_desc)) == t2);
                }
            }
        }
        assert(new.type_ids@[t2] == s2);
        assert(links_wf(new.items@, old.type_lists@[t2], s2, true));
        assert(new.type_lists@[t2].first == old.type_lists@[t2].first);
        assert(new.type_lists@[t2].last == old.type_lists@[t2].last);
        assert(links_wf(new.items@, new.type_lists@[t2], s2, true));
        assert(new.type_lists@[t2].total_balance == sum_balances(new.items@, s2));
    }

    #[verifier::spinoff_prover]
    proof fn lemma_balance_changed_user(old: FundModule, new: FundModule, id: int, nb: u128, k: int, j: int)
        requires
            Self::balance_update(old, new, id, nb, k),
            0 <= j < new.user_lists@.len(),
        ensures
            new.user_list_ok(new.user_lists@[j]),
    {
        let it = old.items@[id];
        let t = spec_fund_type(it.fund_desc);
        let u = it.user_id;
        assert(old.live_ok(id));
        Self::lemma_balance_changed_links(old, new, id, nb, k);
        let oe = old.user_lists@[j];
        assert(old.user_list_ok(oe));
        let s2 = old.user_ids@[key_of(oe)];
        lemma_links_frame(old.items@, new.items@, oe.info, s2, false);
        lemma_sum_update(old.items@, new.items@, s2, id as usize);
        assert forall|m: int| 0 <= m < s2.len() implies {
            &&& new.items@[#[trigger] s2[m] as int].user_id == oe.user_id
            &&& spec_fund_type(new.items@[s2[m] as int].fund_desc) == oe.fund_type
            &&& new.items@[s2[m] as int].balance > 0
        } by {
            if s2[m] as int == id {
                assert(new.items@[id] == with_balance(it, nb));
            } else {
                assert(new.items@[s2[m] as int] == old.items@[s2[m] as int]);
            }
        }
        if j == k {
            assert(s2 == old.user_list(u, t));
            lemma_sum_nonneg(new.items@, s2);
            old.lemma_type_total_le_all(t);
            old.lemma_user_total_le_type_total(u, t);
        } else {
            assert(key_of(oe) != (u, t));
            assert(!s2.contains(id as usize)) by {
                if s2.contains(id as usize) {
                    let m = choose|m: int| 0 <= m < s2.len() && s2[m] == id as usize;
                    assert(old.items@[s2[m] as int].user_id == oe.user_id);
                }
            }
        }
    }

    proof fn lemma_balance_changed_lists(old: FundModule, new: FundModule, id: int, nb: u128, k: int)
        requires
            Self::balance_update(old, new, id, nb, k),
        ensures
            new.wf_lists(),
    {
        assert forall|t2: int| 0 <= t2 < NUM_FUND_TYPES implies #[trigger] new.type_list_ok(t2) by {
            Self::lemma_balance_changed_type(old, new, id, nb, k, t2);
        }
        assert forall|j: int| 0 <= j < new.user_lists@.len() implies new.user_list_ok(#[trigger] new.user_lists@[j]) by {
            Self::lemma_balance_changed_user(old, new, id, nb, k, j);
        }
        assert forall|i: int, j: int| 0 <= i < j < new.user_lists@.len() implies key_of(
            #[trigger] new.user_lists@[i],
        ) != key_of(#[trigger] new.user_lists@[j]) by {
            assert(key_of(new.user_lists@[i]) == key_of(old.user_lists@[i]));
            assert(key_of(new.user_lists@[j]) == key_of(old.user_lists@[j]));
        }
        assert forall|kk: (usize, FundType)| #[trigger] new.user_ids@.contains_key(kk) implies exists|j: int|
            0 <= j < new.user_lists@.len() && key_of(new.user_lists@[j]) == kk by {
            let j = choose|j: int| 0 <= j < old.user_lists@.len() && key_of(old.user_lists@[j]) == kk;
            assert(key_of(new.user_lists@[j]) == kk);
        }
        assert(new.items@[0] == old.items@[0]);
    }

    #[verifier::spinoff_prover]
    #[verifier::rlimit(60)]
    proof fn lemma_balance_changed_totals(old: FundModule, new: FundModule, id: int, nb: u128, k: int)
        requires
            Self::balance_update(old, new, id, nb, k),
        ensures
            Self::balance_set(old, new, id, nb),
    {
        let it = old.items@[id];
        let t = spec_fund_type(it.fund_desc);
        let u = it.user_id;
        assert(old.live_ok(id));
        assert forall|t2: FundType| #[trigger] new.type_total(t2) == (if t2 == t {
            old.type_total(t) - it.balance + nb
        } else {
            old.type_total(t2)
        }) by {
            old.lemma_type_list_shape(t2);
            lemma_sum_update(old.items@, new.items@, old.type_list(t2), id as usize);
            if t2 != t {
                assert(!old.type_list(t2).contains(id as usize)) by {
                    if old.type_list(t2).contains(id as usize) {
                        let m = choose|m: int| 0 <= m < old.type_list(t2).len() && old.type_list(t2)[m] == id as usize;
                    }
                }
            }
        }
        assert forall|u2: usize, t2: FundType| #[trigger] new.user_total(u2, t2) == (if (u2, t2) == (u, t) {
            old.user_total(u, t) - it.balance + nb
        } else {
            old.user_total(u2, t2)
        }) by {
            old.lemma_user_list_shape(u2, t2);
            lemma_sum_update(old.items@, new.items@, old.user_list(u2, t2), id as usize);
            if (u2, t2) != (u, t) {
                assert(!old.user_list(u2, t2).contains(id as usize)) by {
                    if old.user_list(u2, t2).contains(id as usize) {
                        let m = choose|m: int|
                            0 <= m < old.user_list(u2, t2).len() && old.user_list(u2, t2)[m] == id as usize;
                    }
                }
            }
        }
        assert(new.total_all() == old.total_all() - it.balance + nb);
    }

    /// The last item of the user's list of the same type, if coalescing applies to `d` and
    /// that item has exactly the description `d`.
    pub open spec fn coalesce_target(&self, u: usize, d: FundDescription) -> Option<usize> {
        let t = spec_fund_type(d);
        let s = self.user_list(u, t);
        if spec_allow_coalesce(t) && s.len() > 0 && self.fund(s.last() as int).fund_desc == d {
            Some(s.last())
        } else {
            None
        }
    }

    /// `new` is `old` after `amount` of funds described by `d` were added for user `u`.
    pub open spec fn increased(old: FundModule, new: FundModule, u: usize, d: FundDescription, amount: u128) -> bool {
        if amount == 0 {
            new == old
        } else {
            match old.coalesce_target(u, d) {
                Some(id) => Self::balance_set(old, new, id as int, (old.fund(id as int).balance + amount) as u128),
                None => Self::created(old, new, u, d, amount),
            }
        }
    }

    /// Adds `amount` to user `u`'s funds described by `fund_desc`: merged into the user's last item
    /// of that type when coalescing applies and the descriptions are equal, in a new item otherwise.
    pub fn increase_fund_balance(&mut self, user_id: usize, fund_desc: FundDescription, amount: u128)
        requires
            old(self).wf(),
            old(self).total_all() + amount <= u128::MAX,
        ensures
            final(self).wf(),
            Self::increased(*old(self), *final(self), user_id, fund_desc, amount),
            final(self).total_all() == old(self).total_all() + amount,
    {
        if amount == 0 {
            return ;
        }
        let ghost old_self = *self;
        let t = fund_desc.fund_type();
        if t.allow_coalesce() {
            if let Some(k) = self.find_user_list(user_id, t) {
                let info = self.user_lists[k].info;
                proof {
                    assert(self.user_list_ok(self.user_lists@[k as int]));
                    assert(self.user_list(user_id, t) == self.user_ids@[(user_id, t)]);
                    let s = self.user_list(user_id, t);
                    if s.len() > 0 {
                        assert(1 <= s[s.len() - 1]);
                    }
                }
                if !info.is_empty() {
                    let last = info.last;
                    proof {
                        let s = self.user_list(user_id, t);
                        assert(s.len() > 0);
                        assert(s.last() == last);
                        self.lemma_user_list_shape(user_id, t);
                        Self::lemma_balance_le_sum(self.items@, s, s.len() - 1);
                        self.lemma_user_total_le_type_total(user_id, t);
                        self.lemma_type_total_le_all(t);
                    }
                    let last_item = self.items[last];
                    if last_item.fund_desc == fund_desc {
                        self.set_fund_balance(last, last_item.balance + amount);
                        return ;
                    }
                } else {
                    proof {
                        let s = self.user_list(user_id, t);
                        if s.len() > 0 {
                            assert(1 <= s[s.len() - 1]);
                        }
                    }
                }
            } else {
                proof {
                    assert(!self.user_ids@.contains_key((user_id, t)));
                }
            }
        }
        self.create_fund(user_id, fund_desc, amount);
    }

    /// `new` is `old` after fund `id` gave up `min(amount_old, balance)`: deleted when it gave up all of it.
    pub open spec fn decreased(old: FundModule, new: FundModule, id: int, amount_old: u128, amount_new: u128, r: u128) -> bool {
        let bal = old.fund(id).balance;
        if amount_old >= bal {
            &&& Self::deleted(old, new, id)
            &&& amount_new == amount_old - bal
            &&& r == bal
        } else {
            &&& Self::balance_set(old, new, id, (bal - amount_old) as u128)
            &&& amount_new == 0
            &&& r == amount_old
        }
    }

    /// Takes up to `amount` out of fund `id`, decreases `amount` by that much, and returns it.
    /// A fund that gives up its whole balance is deleted.
    pub fn decrease_fund_balance(&mut self, amount: &mut u128, id: usize) -> (r: u128)
        requires
            old(self).wf(),
            1 <= id <= old(self).max_id(),
            old(self).fund(id as int).balance > 0,
        ensures
            final(self).wf(),
            Self::decreased(*old(self), *final(self), id as int, *old(amount), *final(amount), r),
            final(self).total_all() == old(self).total_all() - r,
    {
        let bal = self.items[id].balance;
        if *amount >= bal {
            *amount = *amount - bal;
            self.delete_fund(id)
        } else {
            self.set_fund_balance(id, bal - *amount);
            let r = *amount;
            *amount = 0;
            r
        }
    }

    /// Lowers the optional maximum by the balance of `fund_item`, down to zero at most.
    pub fn decrease_max_amount(&self, opt_max_amount: Option<&mut u128>, fund_item: &FundItem)
        ensures
            opt_max_amount matches Some(m) ==> *final(m) == (if fund_item.balance >= *m {
                0
            } else {
                *m - fund_item.balance
            }),
    {
        if let Some(max_amount) = opt_max_amount {
            if fund_item.balance >= *max_amount {
                *max_amount = 0;
            } else {
                *max_amount = *max_amount - fund_item.balance;
            }
        }
    }

    /// One conversion of fund `id` through the intermediate state `mid`: with no new description
    /// nothing changes; otherwise the fund gives up its balance, or as much of it as the
    /// optional maximum allows, and that amount `ext` is added for the same user under the new
    /// description.
    #[verifier::opaque]
    pub open spec fn converted(
        old: FundModule,
        mid: FundModule,
        new: FundModule,
        id: int,
        tr: Option<FundDescription>,
        max_old: Option<u128>,
        max_new: Option<u128>,
        ext: u128,
    ) -> bool {
        match tr {
            None => new == old && max_new == max_old && ext == 0,
            Some(d) => {
                &&& match max_old {
                    Some(m) => max_new is Some && Self::decreased(old, mid, id, m, max_new.unwrap(), ext),
                    None => max_new is None && Self::deleted(old, mid, id) && ext == old.fund(id).balance,
                }
                &&& Self::increased(mid, new, old.fund(id).user_id, d, ext)
            },
        }
    }

    /// Converts fund `id` to the description `transformed`, as much of it as `max` allows;
    /// returns the amount converted.
    fn convert_fund(&mut self, max: &mut Option<u128>, transformed: FundDescription, id: usize) -> (r: (u128, Ghost<FundModule>))
        requires
            old(self).wf(),
            1 <= id <= old(self).max_id(),
            old(self).fund(id as int).balance > 0,
        ensures
            final(self).wf(),
            r.1@.wf(),
            Self::converted(*old(self), r.1@, *final(self), id as int, Some(transformed), *old(max), *final(max), r.0),
            (*old(max) is Some) == (*final(max) is Some),
            final(self).total_all() == old(self).total_all(),
    {
        let user_id = self.items[id].user_id;
        let ghost old_self = *self;
        let extracted: u128;
        match max {
            Some(m) => {
                let mut mm = *m;
                extracted = self.decrease_fund_balance(&mut mm, id);
                *max = Some(mm);
            },
            None => {
                extracted = self.delete_fund(id);
            },
        }
        let ghost mid = *self;
        self.increase_fund_balance(user_id, transformed, extracted);
        proof {
            reveal(FundModule::converted);
        }
        (extracted, Ghost(mid))
    }

    /// Converts fund `id` to the description `transformed`: all of it, or, given a maximum,
    /// at most that much, lowering the maximum by the amount converted.
    pub fn split_convert_individual_fund(
        &mut self,
        opt_max_amount: Option<&mut u128>,
        transformed: FundDescription,
        id: usize,
    )
        requires
            old(self).wf(),
            1 <= id <= old(self).max_id(),
            old(self).fund(id as int).balance > 0,
        ensures
            final(self).wf(),
            final(self).total_all() == old(self).total_all(),
            opt_max_amount is None ==> exists|mid: FundModule, ext: u128|
                Self::converted(*old(self), mid, *final(self), id as int, Some(transformed), None, None, ext),
            opt_max_amount matches Some(m) ==> exists|mid: FundModule, ext: u128|
                Self::converted(*old(self), mid, *final(self), id as int, Some(transformed), Some(*m), Some(*final(m)), ext),
    {
        proof {
            reveal(FundModule::converted);
        }
        match opt_max_amount {
            Some(m) => {
                let mut max = Some(*m);
                let (ext, Ghost(mid)) = self.convert_fund(&mut max, transformed, id);
                *m = max.unwrap();
            },
            None => {
                let mut max = None;
                let (ext, Ghost(mid)) = self.convert_fund(&mut max, transformed, id);
            },
        }
    }

    proof fn lemma_user_list_links(&self, u: usize, t: FundType)
        requires
            self.wf_lists(),
        ensures
            forall|k: int|
                0 <= k < self.user_list(u, t).len() ==> self.items@[#[trigger] self.user_list(u, t)[k] as int].user_list_next
                    == (if k + 1 < self.user_list(u, t).len() {
                    self.user_list(u, t)[k + 1]
                } else {
                    0usize
                }),
            forall|k: int|
                0 <= k < self.user_list(u, t).len() ==> self.items@[#[trigger] self.user_list(u, t)[k] as int].user_list_prev
                    == (if k > 0 {
                    self.user_list(u, t)[k - 1]
                } else {
                    0usize
                }),
            self.user_list(u, t).len() > 0 ==> exists|j: int|
                0 <= j < self.user_lists@.len() && key_of(self.user_lists@[j]) == (u, t) && self.user_lists@[j].info.first
                    == self.user_list(u, t)[0] && self.user_lists@[j].info.last == self.user_list(u, t).last(),
    {
        if self.user_ids@.contains_key((u, t)) {
            let k = choose|k: int| 0 <= k < self.user_lists@.len() && key_of(self.user_lists@[k]) == (u, t);
            assert(self.user_list_ok(self.user_lists@[k]));
            let s = self.user_list(u, t);
            assert forall|i: int| 0 <= i < s.len() implies self.items@[#[trigger] s[i] as int].user_list_next == (if i + 1
                < s.len() {
                s[i + 1]
            } else {
                0usize
            }) by {
                assert(next_link(self.items@[s[i] as int], false) == self.items@[s[i] as int].user_list_next);
            }
            assert forall|i: int| 0 <= i < s.len() implies self.items@[#[trigger] s[i] as int].user_list_prev == (if i > 0 {
                s[i - 1]
            } else {
                0usize
            }) by {
                assert(prev_link(self.items@[s[i] as int], false) == self.items@[s[i] as int].user_list_prev);
            }
        }
    }

    /// The walk over the list of user `u` and type `src` described by `tr` follows the list
    /// and the transformation `f`, and stops only where the loop would.
    #[verifier::opaque]
    pub open spec fn user_walk(
        old: FundModule,
        u: usize,
        src: FundType,
        dir: SwapDirection,
        g: spec_fn(FundDescription, Option<FundDescription>) -> bool,
        tr: ConvertTrace,
    ) -> bool {
        let n = tr.cursors.len();
        &&& tr.states.len() == n + 1
        &&& tr.mids.len() == n
        &&& tr.results.len() == n
        &&& tr.maxes.len() == n + 1
        &&& tr.extracted.len() == n
        &&& tr.states[0] == old
        &&& forall|i: int|
            0 <= i < n ==> Self::converted(
                tr.states[i],
                tr.mids[i],
                tr.states[i + 1],
                #[trigger] tr.cursors[i] as int,
                tr.results[i],
                tr.maxes[i],
                tr.maxes[i + 1],
                tr.extracted[i],
            )
        &&& forall|i: int| 0 <= i < n ==> g(tr.states[i].fund(#[trigger] tr.cursors[i] as int).fund_desc, tr.results[i])
        &&& forall|i: int| 0 <= i < n ==> #[trigger] tr.maxes[i] != Some(0u128)
        &&& forall|i: int| 0 <= i < n ==> #[trigger] tr.cursors[i] != 0
        &&& forall|i: int|
            0 <= i < n ==> #[trigger] tr.cursors[i] == (if i == 0 {
                walk_start(old.user_list(u, src), dir)
            } else {
                walk_next(tr.states[i - 1].user_list(u, src), tr.cursors[i - 1], dir)
            })
    }

    /// A walk that follows a transformation also follows any looser description of it.
    pub proof fn lemma_user_walk_weaken(
        old: FundModule,
        u: usize,
        src: FundType,
        dir: SwapDirection,
        g1: spec_fn(FundDescription, Option<FundDescription>) -> bool,
        g2: spec_fn(FundDescription, Option<FundDescription>) -> bool,
        tr: ConvertTrace,
    )
        requires
            Self::user_walk(old, u, src, dir, g1, tr),
            forall|d: FundDescription, o: Option<FundDescription>| #[trigger] g1(d, o) ==> g2(d, o),
        ensures
            Self::user_walk(old, u, src, dir, g2, tr),
    {
        reveal(FundModule::user_walk);
    }

    /// A walk that follows a transformation also follows any looser description of it.
    pub proof fn lemma_type_walk_weaken(
        old: FundModule,
        src: FundType,
        dir: SwapDirection,
        g1: spec_fn(usize, FundDescription, Option<FundDescription>) -> bool,
        g2: spec_fn(usize, FundDescription, Option<FundDescription>) -> bool,
        dry: bool,
        tr: ConvertTrace,
    )
        requires
            Self::type_walk(old, src, dir, g1, dry, tr),
            forall|u: usize, d: FundDescription, o: Option<FundDescription>| #[trigger] g1(u, d, o) ==> g2(u, d, o),
        ensures
            Self::type_walk(old, src, dir, g2, dry, tr),
    {
        reveal(FundModule::type_walk);
    }

    /// Id that the walk described by `tr` would visit next.
    pub open spec fn user_walk_next(old: FundModule, u: usize, src: FundType, dir: SwapDirection, tr: ConvertTrace) -> usize {
        let n = tr.cursors.len();
        if n == 0 {
            walk_start(old.user_list(u, src), dir)
        } else {
            walk_next(tr.states[n - 1].user_list(u, src), tr.cursors[n - 1], dir)
        }
    }

    /// The lists of `old` and `new` agree on key `(u, t)`, given what `increased` says.
    proof fn lemma_increase_keeps_other(old: FundModule, new: FundModule, u: usize, d: FundDescription, amount: u128, t: FundType)
        requires
            old.wf(),
            Self::increased(old, new, u, d, amount),
            spec_fund_type(d) != t,
        ensures
            new.user_list(u, t) == old.user_list(u, t),
            new.user_total(u, t) == old.user_total(u, t),
            forall|t2: FundType| t2 != spec_fund_type(d) ==> #[trigger] new.type_list(t2) == old.type_list(t2),
    {
        if amount > 0 {
            match old.coalesce_target(u, d) {
                Some(id) => {
                    let s = old.user_list(u, spec_fund_type(d));
                    old.lemma_user_list_shape(u, spec_fund_type(d));
                    assert(s.last() == s[s.len() - 1]);
                },
                None => {},
            }
        }
    }

    /// One visited fund: where the walk goes next, that it gets shorter, and how the sum of the
    /// walked list changes.
    #[verifier::spinoff_prover]
    proof fn lemma_walk_step(
        before: FundModule,
        mid: FundModule,
        after: FundModule,
        id: usize,
        res: Option<FundDescription>,
        max_b: Option<u128>,
        max_a: Option<u128>,
        ext: u128,
        u: usize,
        src: FundType,
        dir: SwapDirection,
    )
        requires
            before.wf(),
            res is Some ==> mid.wf(),
            before.user_list(u, src).contains(id),
            Self::converted(before, mid, after, id as int, res, max_b, max_a, ext),
            res matches Some(d) ==> spec_fund_type(d) != src,
        ensures
            after.user_total(u, src) == before.user_total(u, src) - ext,
            walk_next(before.user_list(u, src), id, dir) == 0 || after.user_list(u, src).contains(
                walk_next(before.user_list(u, src), id, dir),
            ),
            walk_remaining(after.user_list(u, src), walk_next(before.user_list(u, src), id, dir), dir)
                < walk_remaining(before.user_list(u, src), id, dir),
    {
        reveal(FundModule::converted);
        let s = before.user_list(u, src);
        before.lemma_user_list_shape(u, src);
        let k = s.index_of(id);
        assert(0 <= k < s.len() && s[k] == id);
        assert(before.fund(id as int).user_id == u);
        assert(spec_fund_type(before.fund(id as int).fund_desc) == src);
        let nx = walk_next(s, id, dir);
        let ms: Seq<usize> = match res {
            None => s,
            Some(d) => mid.user_list(u, src),
        };
        match res {
            None => {},
            Some(d) => {
                Self::lemma_increase_keeps_other(mid, after, u, d, ext, src);
            },
        }
        assert(after.user_list(u, src) == ms);
        let full = match res {
            None => false,
            Some(d) => match max_b {
                Some(m) => m >= before.fund(id as int).balance,
                None => true,
            },
        };
        if full {
            assert(ms == s.remove(k));
            lemma_remove_index(s, k);
            if dir == SwapDirection::Forwards {
                if k + 1 < s.len() {
                    assert(ms[k] == nx);
                    lemma_index_of_unique(ms, k);
                }
            } else {
                if k > 0 {
                    assert(ms[k - 1] == nx);
                    lemma_index_of_unique(ms, k - 1);
                }
            }
        } else {
            assert(ms == s);
            if dir == SwapDirection::Forwards {
                if k + 1 < s.len() {
                    lemma_index_of_unique(s, k + 1);
                }
            } else {
                if k > 0 {
                    lemma_index_of_unique(s, k - 1);
                }
            }
        }
    }

    /// Head of the list of user `u` and type `t` (the empty head when there is none).
    fn user_list_info(&self, u: usize, t: FundType) -> (r: FundsListInfo)
        requires
            self.wf_lists(),
        ensures
            r.first == walk_start(self.user_list(u, t), SwapDirection::Forwards),
            r.last == walk_start(self.user_list(u, t), SwapDirection::Backwards),
    {
        proof {
            self.lemma_user_list_links(u, t);
        }
        match self.find_user_list(u, t) {
            Some(k) => {
                proof {
                    assert(self.user_list_ok(self.user_lists@[k as int]));
                }
                self.user_lists[k].info
            },
            None => {
                proof {
                    assert(!self.user_ids@.contains_key((u, t)));
                }
                FundsListInfo::zero_value()
            },
        }
    }

    /// Walks the list of user `user_id` and type `source_type` in `direction`. Every fund for
    /// which `filter_transform` gives a new description is converted to it: all of it, or,
    /// given a maximum, as much as remains of the maximum, which is lowered accordingly. The
    /// walk stops at the end of the list or when the maximum is used up. Returns the sum converted.
    #[verifier::rlimit(60)]
    pub fn split_convert_max_by_user<F: Fn(FundDescription) -> Option<FundDescription>>(
        &mut self,
        opt_max_amount: Option<&mut u128>,
        user_id: usize,
        source_type: FundType,
        direction: SwapDirection,
        filter_transform: F,
    ) -> (r: u128)
        requires
            old(self).wf(),
            forall|d: FundDescription| filter_transform.requires((d,)),
            forall|d: FundDescription, o: Option<FundDescription>|
                filter_transform.ensures((d,), o) && o is Some ==> spec_fund_type(o.unwrap()) != source_type,
        ensures
            final(self).wf(),
            final(self).total_all() == old(self).total_all(),
            exists|tr: ConvertTrace|
                {
                    &&& Self::user_walk(*old(self), user_id, source_type, direction, user_results(filter_transform), tr)
                    &&& tr.states.last() == *final(self)
                    &&& tr.maxes[0] == (match opt_max_amount {
                        Some(m) => Some(*m),
                        None => None,
                    })
                    &&& (opt_max_amount matches Some(m) ==> tr.maxes.last() == Some(*final(m)))
                    &&& (opt_max_amount is None ==> tr.maxes.last() is None)
                    &&& (Self::user_walk_next(*old(self), user_id, source_type, direction, tr) == 0
                        || tr.maxes.last() == Some(0u128))
                    &&& r == seq_sum(tr.extracted)
                },
    {
        let ghost old_self = *self;
        let mut max: Option<u128> = match &opt_max_amount {
            Some(m) => Some(**m),
            None => None,
        };
        let ghost max0 = max;
        let info = self.user_list_info(user_id, source_type);
        let mut id = match direction {
            SwapDirection::Forwards => info.first,
            SwapDirection::Backwards => info.last,
        };
        let mut total: u128 = 0;
        let ghost mut tr = ConvertTrace {
            states: seq![*self],
            mids: Seq::empty(),
            cursors: Seq::empty(),
            results: Seq::empty(),
            maxes: seq![max],
            extracted: Seq::empty(),
        };
        proof {
            reveal(FundModule::user_walk);
            old_self.lemma_user_list_shape(user_id, source_type);
            old_self.lemma_type_total_le_all(source_type);
            old_self.lemma_user_total_le_type_total(user_id, source_type);
            let s = old_self.user_list(user_id, source_type);
            if s.len() > 0 {
                assert(s.contains(s[0]));
                assert(s.contains(s[s.len() - 1]));
            }
        }
        loop
            invariant
                self.wf(),
                self.total_all() == old_self.total_all(),
                forall|d: FundDescription| filter_transform.requires((d,)),
                forall|d: FundDescription, o: Option<FundDescription>|
                    filter_transform.ensures((d,), o) && o is Some ==> spec_fund_type(o.unwrap()) != source_type,
                Self::user_walk(old_self, user_id, source_type, direction, user_results(filter_transform), tr),
                tr.states.last() == *self,
                tr.maxes.last() == max,
                tr.maxes[0] == max0,
                (max0 is Some) == (max is Some),
                id == Self::user_walk_next(old_self, user_id, source_type, direction, tr),
                id == 0 || self.user_list(user_id, source_type).contains(id),
                total == seq_sum(tr.extracted),
                total + self.user_total(user_id, source_type) == old_self.user_total(user_id, source_type),
                old_self.user_total(user_id, source_type) <= u128::MAX,
            ensures
                id == 0 || max == Some(0u128),
            decreases walk_remaining(self.user_list(user_id, source_type), id, direction),
        {
            if id == 0 {
                break;
            }
            if let Some(m) = max {
                if m == 0 {
                    break;
                }
            }
            let ghost before = *self;
            let ghost max_before = max;
            proof {
                self.lemma_user_list_shape(user_id, source_type);
                self.lemma_user_list_links(user_id, source_type);
                let s = self.user_list(user_id, source_type);
                let k = s.index_of(id);
                assert(0 <= k < s.len() && s[k] == id);
            }
            let item = self.items[id];
            let next_id = match direction {
                SwapDirection::Forwards => item.user_list_next,
                SwapDirection::Backwards => item.user_list_prev,
            };
            proof {
                let s = self.user_list(user_id, source_type);
                let k = s.index_of(id);
                assert(next_id == walk_next(s, id, direction));
            }
            let res = filter_transform(item.fund_desc);
            let ext: u128;
            let ghost mut mid = before;
            match res {
                Some(transformed) => {
                    let (e, Ghost(m)) = self.convert_fund(&mut max, transformed, id);
                    ext = e;
                    proof {
                        mid = m;
                    }
                },
                None => {
                    ext = 0;
                    proof {
                        reveal(FundModule::converted);
                    }
                },
            }
            proof {
                assert(Self::converted(before, mid, *self, id as int, res, max_before, max, ext));
                Self::lemma_walk_step(before, mid, *self, id, res, max_before, max, ext, user_id, source_type, direction);
                lemma_sum_nonneg(self.items_seq(), self.user_list(user_id, source_type));
                Self::lemma_user_trace_push(
                    old_self, user_id, source_type, direction, user_results(filter_transform), tr, mid, *self, id, res, max, ext,
                );
                tr = Self::trace_push(tr, mid, *self, id, res, max, ext);
            }
            total = total + ext;
            id = next_id;
        }
        if let Some(m) = opt_max_amount {
            proof {
                assert(max0 is Some);
            }
            *m = match max {
                Some(v) => v,
                None => 0,
            };
        }
        total
    }

    pub open spec fn trace_push(
        tr: ConvertTrace,
        mid: FundModule,
        after: FundModule,
        id: usize,
        res: Option<FundDescription>,
        max_a: Option<u128>,
        ext: u128,
    ) -> ConvertTrace {
        ConvertTrace {
            states: tr.states.push(after),
            mids: tr.mids.push(mid),
            cursors: tr.cursors.push(id),
            results: tr.results.push(res),
            maxes: tr.maxes.push(max_a),
            extracted: tr.extracted.push(ext),
        }
    }

    #[verifier::spinoff_prover]
    #[verifier::rlimit(60)]
    proof fn lemma_user_trace_push(
        old: FundModule,
        u: usize,
        src: FundType,
        dir: SwapDirection,
        g: spec_fn(FundDescription, Option<FundDescription>) -> bool,
        tr: ConvertTrace,
        mid: FundModule,
        after: FundModule,
        id: usize,
        res: Option<FundDescription>,
        max_a: Option<u128>,
        ext: u128,
    )
        requires
            Self::user_walk(old, u, src, dir, g, tr),
            id != 0,
            id == Self::user_walk_next(old, u, src, dir, tr),
            tr.maxes.last() != Some(0u128),
            g(tr.states.last().fund(id as int).fund_desc, res),
            Self::converted(tr.states.last(), mid, after, id as int, res, tr.maxes.last(), max_a, ext),
        ensures
            Self::user_walk(old, u, src, dir, g, Self::trace_push(tr, mid, after, id, res, max_a, ext)),
            Self::user_walk_next(old, u, src, dir, Self::trace_push(tr, mid, after, id, res, max_a, ext))
                == walk_next(tr.states.last().user_list(u, src), id, dir),
            seq_sum(Self::trace_push(tr, mid, after, id, res, max_a, ext).extracted) == seq_sum(tr.extracted) + ext,
            Self::trace_push(tr, mid, after, id, res, max_a, ext).states.last() == after,
            Self::trace_push(tr, mid, after, id, res, max_a, ext).maxes.last() == max_a,
            Self::trace_push(tr, mid, after, id, res, max_a, ext).maxes[0] == tr.maxes[0],
    {
        reveal(FundModule::user_walk);
        let n = tr.cursors.len();
        let tr2 = Self::trace_push(tr, mid, after, id, res, max_a, ext);
        assert(tr2.extracted.drop_last() =~= tr.extracted);
        assert(tr.states.last() == tr.states[n as int]);
        assert(tr.maxes.last() == tr.maxes[n as int]);
        assert forall|i: int| 0 <= i < n + 1 implies Self::converted(
            tr2.states[i],
            tr2.mids[i],
            tr2.states[i + 1],
            #[trigger] tr2.cursors[i] as int,
            tr2.results[i],
            tr2.maxes[i],
            tr2.maxes[i + 1],
            tr2.extracted[i],
        ) by {
            if i < n {
                assert(tr2.cursors[i] == tr.cursors[i]);
            }
        }
        assert forall|i: int| 0 <= i < n + 1 implies g(
            tr2.states[i].fund(#[trigger] tr2.cursors[i] as int).fund_desc,
            tr2.results[i],
        ) by {
            if i < n {
                assert(tr2.cursors[i] == tr.cursors[i]);
            }
        }
        assert forall|i: int| 0 <= i < n + 1 implies #[trigger] tr2.maxes[i] != Some(0u128) by {
            if i < n {
                assert(tr2.maxes[i] == tr.maxes[i]);
            }
        }
        assert forall|i: int| 0 <= i < n + 1 implies #[trigger] tr2.cursors[i] != 0 by {
            if i < n {
                assert(tr2.cursors[i] == tr.cursors[i]);
            }
        }
        assert forall|i: int| 0 <= i < n + 1 implies #[trigger] tr2.cursors[i] == (if i == 0 {
            walk_start(old.user_list(u, src), dir)
        } else {
            walk_next(tr2.states[i - 1].user_list(u, src), tr2.cursors[i - 1], dir)
        }) by {
            if i < n {
                assert(tr2.cursors[i] == tr.cursors[i]);
                if i > 0 {
                    assert(tr2.cursors[i - 1] == tr.cursors[i - 1]);
                }
            }
        }
    }

    /// Walks the list of all funds of type `source_type` in `direction`, until its end, until
    /// the maximum is used up, or until `interrupt` says to stop before the next fund. The owner
    /// of every visited fund is recorded. Every fund for which `filter_transform` (given its
    /// owner and description) gives a new description is converted to it: all of it, or, given
    /// a maximum, as much as remains of the maximum, which is lowered accordingly. In a dry run
    /// nothing is converted and only the maximum is lowered. Returns the owners of the visited
    /// funds, sorted, each once.
    #[verifier::spinoff_prover]
    #[verifier::rlimit(100)]
    pub fn split_convert_max_by_type<F: Fn(usize, FundDescription) -> Option<FundDescription>, I: Fn() -> bool>(
        &mut self,
        opt_max_amount: Option<&mut u128>,
        source_type: FundType,
        direction: SwapDirection,
        filter_transform: F,
        interrupt: I,
        dry_run: bool,
    ) -> (r: Vec<usize>)
        requires
            old(self).wf(),
            interrupt.requires(()),
            forall|u: usize, d: FundDescription| filter_transform.requires((u, d)),
            forall|u: usize, d: FundDescription, o: Option<FundDescription>|
                filter_transform.ensures((u, d), o) && o is Some ==> spec_fund_type(o.unwrap()) != source_type,
        ensures
            final(self).wf(),
            final(self).total_all() == old(self).total_all(),
            dry_run ==> *final(self) == *old(self),
            strictly_increasing(r@),
            exists|tr: ConvertTrace|
                {
                    &&& Self::type_walk(*old(self), source_type, direction, type_results(filter_transform), dry_run, tr)
                    &&& tr.states.last() == *final(self)
                    &&& tr.maxes[0] == (match opt_max_amount {
                        Some(m) => Some(*m),
                        None => None,
                    })
                    &&& (opt_max_amount matches Some(m) ==> tr.maxes.last() == Some(*final(m)))
                    &&& (opt_max_amount is None ==> tr.maxes.last() is None)
                    &&& (Self::type_walk_next(*old(self), source_type, direction, tr) == 0
                        || tr.maxes.last() == Some(0u128) || interrupt.ensures((), true))
                    &&& forall|x: usize| r@.contains(x) <==> Self::visited_users(tr).contains(x)
                },
    {
        let ghost old_self = *self;
        let mut max: Option<u128> = match &opt_max_amount {
            Some(m) => Some(**m),
            None => None,
        };
        let ghost max0 = max;
        let info = self.type_list_info(source_type);
        let mut id = match direction {
            SwapDirection::Forwards => info.first,
            SwapDirection::Backwards => info.last,
        };
        let mut affected: Vec<usize> = Vec::new();
        let ghost mut tr = ConvertTrace {
            states: seq![*self],
            mids: Seq::empty(),
            cursors: Seq::empty(),
            results: Seq::empty(),
            maxes: seq![max],
            extracted: Seq::empty(),
        };
        proof {
            reveal(FundModule::type_walk);
            old_self.lemma_type_list_shape(source_type);
            let s = old_self.type_list(source_type);
            if s.len() > 0 {
                assert(s.contains(s[0]));
                assert(s.contains(s[s.len() - 1]));
            }
            assert(Self::visited_users(tr) =~= Seq::<usize>::empty());
        }
        loop
            invariant
                self.wf(),
                self.total_all() == old_self.total_all(),
                dry_run ==> *self == old_self,
                interrupt.requires(()),
                forall|u: usize, d: FundDescription| filter_transform.requires((u, d)),
                forall|u: usize, d: FundDescription, o: Option<FundDescription>|
                    filter_transform.ensures((u, d), o) && o is Some ==> spec_fund_type(o.unwrap()) != source_type,
                Self::type_walk(old_self, source_type, direction, type_results(filter_transform), dry_run, tr),
                tr.states.last() == *self,
                tr.maxes.last() == max,
                tr.maxes[0] == max0,
                (max0 is Some) == (max is Some),
                id == Self::type_walk_next(old_self, source_type, direction, tr),
                id == 0 || self.type_list(source_type).contains(id),
                strictly_increasing(affected@),
                forall|x: usize| affected@.contains(x) <==> Self::visited_users(tr).contains(x),
            ensures
                id == 0 || max == Some(0u128) || interrupt.ensures((), true),
            decreases walk_remaining(self.type_list(source_type), id, direction),
        {
            if id == 0 {
                break;
            }
            if interrupt() {
                break;
            }
            if let Some(m) = max {
                if m == 0 {
                    break;
                }
            }
            let ghost before = *self;
            let ghost max_before = max;
            proof {
                self.lemma_type_list_shape(source_type);
                self.lemma_type_list_links(source_type);
                let s = self.type_list(source_type);
                let k = s.index_of(id);
                assert(0 <= k < s.len() && s[k] == id);
            }
            let item = self.items[id];
            insert_sorted_unique(&mut affected, item.user_id);
            let next_id = match direction {
                SwapDirection::Forwards => item.type_list_next,
                SwapDirection::Backwards => item.type_list_prev,
            };
            proof {
                let s = self.type_list(source_type);
                let k = s.index_of(id);
                assert(next_id == walk_next(s, id, direction));
            }
            let res = filter_transform(item.user_id, item.fund_desc);
            let ext: u128;
            let ghost mut mid = before;
            match res {
                Some(transformed) => {
                    if dry_run {
                        if let Some(m) = max {
                            let mut mm = m;
                            self.decrease_max_amount(Some(&mut mm), &item);
                            max = Some(mm);
                        }
                        ext = 0;
                    } else {
                        let (e, Ghost(m)) = self.convert_fund(&mut max, transformed, id);
                        ext = e;
                        proof {
                            mid = m;
                        }
                    }
                },
                None => {
                    ext = 0;
                },
            }
            proof {
                reveal(FundModule::walk_step);
                reveal(FundModule::converted);
                assert(Self::walk_step(dry_run, before, mid, *self, id as int, res, max_before, max, ext));
                Self::lemma_type_walk_step(before, mid, *self, id, res, max_before, max, ext, source_type, direction, dry_run);
                Self::lemma_type_trace_push(
                    old_self, source_type, direction, type_results(filter_transform), dry_run, tr, mid, *self, id, res, max, ext,
                );
                lemma_push_contains(Self::visited_users(tr), item.user_id);
                tr = Self::trace_push(tr, mid, *self, id, res, max, ext);
            }
            id = next_id;
        }
        if let Some(m) = opt_max_amount {
            proof {
                assert(max0 is Some);
            }
            *m = match max {
                Some(v) => v,
                None => 0,
            };
        }
        affected
    }

    /// The funds of `cur` with ids in `gone` are default items; every other fund is as in `old`.
    pub open spec fn wiped(old: FundModule, cur: FundModule, gone: Seq<usize>) -> bool {
        &&& cur.max_id() == old.max_id()
        &&& forall|j: int| 0 <= j <= old.max_id() && gone.contains(j as usize) ==> same_fund(#[trigger] cur.fund(j), default_item())
        &&& forall|j: int| 0 <= j <= old.max_id() && !gone.contains(j as usize) ==> same_fund(#[trigger] cur.fund(j), old.fund(j))
    }

    proof fn lemma_wiped_step(old: FundModule, before: FundModule, after: FundModule, gone: Seq<usize>, id: usize)
        requires
            Self::wiped(old, before, gone),
            Self::deleted(before, after, id as int),
            old.max_id() < usize::MAX,
        ensures
            Self::wiped(old, after, gone.push(id)),
    {
        lemma_push_contains(gone, id);
        assert forall|j: int| 0 <= j <= old.max_id() && !gone.push(id).contains(j as usize) implies same_fund(
            #[trigger] after.fund(j),
            old.fund(j),
        ) by {
            assert(same_fund(after.fund(j), before.fund(j)));
        }
        assert forall|j: int| 0 <= j <= old.max_id() && gone.push(id).contains(j as usize) implies same_fund(
            #[trigger] after.fund(j),
            default_item(),
        ) by {
            if j != id as int {
                assert(j as usize != id);
                assert(gone.contains(j as usize));
                assert(same_fund(after.fund(j), before.fund(j)));
            }
        }
    }

    /// What the loop of `destroy_all_for_user` keeps: the first `n` funds of the user's list `s0`
    /// are gone, their sum `total` is taken from the user's, the type's and the overall totals,
    /// and no other list changed.
    pub open spec fn destroy_progress(
        old: FundModule,
        cur: FundModule,
        u: usize,
        t: FundType,
        s0: Seq<usize>,
        n: int,
        total: int,
    ) -> bool {
        &&& 0 <= n <= s0.len()
        &&& cur.user_list(u, t) == s0.skip(n)
        &&& total + cur.user_total(u, t) == old.user_total(u, t)
        &&& Self::wiped(old, cur, s0.take(n))
        &&& forall|t2: FundType| t2 != t ==> #[trigger] cur.type_list(t2) == old.type_list(t2)
        &&& forall|u2: usize, t2: FundType| (u2, t2) != (u, t) ==> #[trigger] cur.user_list(u2, t2) == old.user_list(u2, t2)
        &&& cur.type_total(t) == old.type_total(t) - total
        &&& cur.total_all() == old.total_all() - total
    }

    proof fn lemma_destroy_step(
        old: FundModule,
        before: FundModule,
        after: FundModule,
        u: usize,
        t: FundType,
        s0: Seq<usize>,
        n: int,
        total: int,
        id: usize,
    )
        requires
            old.wf(),
            Self::destroy_progress(old, before, u, t, s0, n, total),
            n < s0.len(),
            s0[n] == id,
            before.fund(id as int).user_id == u,
            spec_fund_type(before.fund(id as int).fund_desc) == t,
            before.user_list(u, t).index_of(id) == 0,
            Self::deleted(before, after, id as int),
        ensures
            Self::destroy_progress(old, after, u, t, s0, n + 1, total + before.fund(id as int).balance),
    {
        assert(old.max_id() < usize::MAX);
        assert(after.user_list(u, t) =~= s0.skip(n + 1));
        assert(s0.take(n + 1) =~= s0.take(n).push(id));
        Self::lemma_wiped_step(old, before, after, s0.take(n), id);
    }

    /// Deletes every fund of type `source_type` owned by `user_id`; returns the sum of their balances.
    #[verifier::spinoff_prover]
    #[verifier::rlimit(60)]
    pub fn destroy_all_for_user(&mut self, user_id: usize, source_type: FundType) -> (r: u128)
        requires
            old(self).wf(),
        ensures
            final(self).wf(),
            r == old(self).user_total(user_id, source_type),
            final(self).user_list(user_id, source_type).len() == 0,
            Self::wiped(*old(self), *final(self), old(self).user_list(user_id, source_type)),
            forall|t2: FundType| t2 != source_type ==> #[trigger] final(self).type_list(t2) == old(self).type_list(t2),
            forall|u2: usize, t2: FundType|
                (u2, t2) != (user_id, source_type) ==> #[trigger] final(self).user_list(u2, t2) == old(self).user_list(
                    u2,
                    t2,
                ),
            final(self).type_total(source_type) == old(self).type_total(source_type) - r,
            final(self).total_all() == old(self).total_all() - r,
    {
        let ghost old_self = *self;
        let ghost s0 = old_self.user_list(user_id, source_type);
        let mut total: u128 = 0;
        let ghost mut n: int = 0;
        proof {
            old_self.lemma_user_total_le_type_total(user_id, source_type);
            old_self.lemma_type_total_le_all(source_type);
            old_self.lemma_user_list_shape(user_id, source_type);
            assert(s0.skip(0) =~= s0);
            assert(s0.take(0) =~= Seq::<usize>::empty());
        }
        loop
            invariant
                self.wf(),
                old_self.wf(),
                Self::destroy_progress(old_self, *self, user_id, source_type, s0, n, total as int),
                old_self.user_total(user_id, source_type) <= old_self.type_total(source_type) <= old_self.total_all(),
                old_self.total_all() <= u128::MAX,
            ensures
                self.user_list(user_id, source_type).len() == 0,
            decreases self.user_list(user_id, source_type).len(),
        {
            let info = self.user_list_info(user_id, source_type);
            let id = info.first;
            proof {
                self.lemma_user_list_shape(user_id, source_type);
            }
            if id == 0 {
                proof {
                    let s = self.user_list(user_id, source_type);
                    if s.len() > 0 {
                        assert(s[0] >= 1);
                    }
                }
                break;
            }
            let ghost before = *self;
            proof {
                let s = self.user_list(user_id, source_type);
                assert(s.len() > 0 && s[0] == id);
                assert(s.index_of(id) == 0) by {
                    lemma_index_of_unique(s, 0);
                }
                assert(s0[n] == id);
                assert(s.contains(id));
                lemma_sum_nonneg(self.items_seq(), s.remove(0));
                lemma_sum_remove(self.items_seq(), s, 0);
            }
            let b = self.delete_fund(id);
            total = total + b;
            proof {
                Self::lemma_destroy_step(old_self, before, *self, user_id, source_type, s0, n, (total - b) as int, id);
                n = n + 1;
            }
        }
        proof {
            assert(s0.take(n) =~= s0) by {
                assert(s0.skip(n).len() == 0);
            }
        }
        total
    }

    // ------------------------------------------------------------- reading

    /// The stored item under `id`; the default item for an id never handed out.
    pub fn fund_by_id(&self, id: usize) -> (r: FundItem)
        requires
            self.wf(),
        ensures
            r == (if id <= self.max_id() {
                self.fund(id as int)
            } else {
                default_item()
            }),
    {
        if id < self.items.len() {
            self.items[id]
        } else {
            FundItem::default()
        }
    }

    /// The highest fund id handed out so far.
    pub fn get_fund_max_id(&self) -> (r: usize)
        requires
            self.wf(),
        ensures
            r == self.max_id(),
    {
        self.items.len() - 1
    }

    /// Head of the list of all funds of type `fund_type`: its first and last ids and its sum.
    pub fn get_fund_list_by_type(&self, fund_type: FundType) -> (r: FundsListInfo)
        requires
            self.wf(),
        ensures
            r.first == walk_start(self.type_list(fund_type), SwapDirection::Forwards),
            r.last == walk_start(self.type_list(fund_type), SwapDirection::Backwards),
            r.total_balance == self.type_total(fund_type),
    {
        proof {
            lemma_type_index_inverse(fund_type);
            assert(self.type_list_ok(type_index(fund_type)));
        }
        self.type_list_info(fund_type)
    }

    /// Head of the list of the funds of type `fund_type` owned by `user_id`: its first and last
    /// ids and its sum (the empty head when the user has none).
    pub fn fund_list_by_user(&self, user_id: usize, fund_type: FundType) -> (r: FundsListInfo)
        requires
            self.wf(),
        ensures
            r.first == walk_start(self.user_list(user_id, fund_type), SwapDirection::Forwards),
            r.last == walk_start(self.user_list(user_id, fund_type), SwapDirection::Backwards),
            r.total_balance == self.user_total(user_id, fund_type),
    {
        proof {
            self.lemma_user_list_links(user_id, fund_type);
        }
        match self.find_user_list(user_id, fund_type) {
            Some(k) => {
                proof {
                    assert(self.user_list_ok(self.user_lists@[k as int]));
                }
                self.user_lists[k].info
            },
            None => {
                proof {
                    assert(!self.user_ids@.contains_key((user_id, fund_type)));
                }
                FundsListInfo::zero_value()
            },
        }
    }

    proof fn lemma_type_scan_facts(&self, t: FundType)
        requires
            self.wf(),
        ensures
            no_dup(self.type_list(t)),
            forall|k: int| 0 <= k < self.type_list(t).len() ==> 1 <= #[trigger] self.type_list(t)[k] < self.items@.len(),
            forall|k: int|
                0 <= k < self.type_list(t).len() ==> self.items@[#[trigger] self.type_list(t)[k] as int].type_list_next
                    == (if k + 1 < self.type_list(t).len() {
                    self.type_list(t)[k + 1]
                } else {
                    0usize
                }),
            self.type_list(t).len() < usize::MAX,
            sum_balances(self.items_seq(), self.type_list(t)) <= u128::MAX,
    {
        self.lemma_type_list_shape(t);
        self.lemma_type_list_links(t);
        self.lemma_type_total_le_all(t);
        assert(1 <= self.items@.len() <= usize::MAX);
        lemma_distinct_bounded_len(self.type_list(t), 1, self.items@.len() as int);
    }

    proof fn lemma_user_scan_facts(&self, u: usize, t: FundType)
        requires
            self.wf(),
        ensures
            no_dup(self.user_list(u, t)),
            forall|k: int| 0 <= k < self.user_list(u, t).len() ==> 1 <= #[trigger] self.user_list(u, t)[k] < self.items@.len(),
            forall|k: int|
                0 <= k < self.user_list(u, t).len() ==> self.items@[#[trigger] self.user_list(u, t)[k] as int].user_list_next
                    == (if k + 1 < self.user_list(u, t).len() {
                    self.user_list(u, t)[k + 1]
                } else {
                    0usize
                }),
            self.user_list(u, t).len() < usize::MAX,
            sum_balances(self.items_seq(), self.user_list(u, t)) <= u128::MAX,
    {
        self.lemma_user_list_shape(u, t);
        self.lemma_user_list_links(u, t);
        self.lemma_user_total_le_type_total(u, t);
        self.lemma_type_total_le_all(t);
        assert(1 <= self.items@.len() <= usize::MAX);
        lemma_distinct_bounded_len(self.user_list(u, t), 1, self.items@.len() as int);
    }

    /// Funds of the type list, with what the filter said of each.
    #[verifier::spinoff_prover]
    #[verifier::rlimit(60)]
    fn scan_type_list<F: Fn(usize, FundDescription) -> bool>(&self, fund_type: FundType, filter: F) -> (r: (
        u128,
        usize,
        Ghost<Seq<bool>>,
    ))
        requires
            self.wf(),
            forall|u: usize, d: FundDescription| filter.requires((u, d)),
        ensures
            r.2@.len() == self.type_list(fund_type).len(),
            forall|k: int|
                0 <= k < self.type_list(fund_type).len() ==> filter.ensures(
                    (
                        self.fund(#[trigger] self.type_list(fund_type)[k] as int).user_id,
                        self.fund(self.type_list(fund_type)[k] as int).fund_desc,
                    ),
                    r.2@[k],
                ),
            r.0 == filtered_sum(self.items_seq(), self.type_list(fund_type), r.2@),
            r.1 == count_kept(r.2@),
    {
        let ghost s = self.type_list(fund_type);
        let info = self.type_list_info(fund_type);
        let mut id = info.first;
        let mut sum: u128 = 0;
        let mut count: usize = 0;
        let ghost mut keep: Seq<bool> = Seq::empty();
        proof {
            self.lemma_type_scan_facts(fund_type);
        }
        while id != 0
            invariant
                self.wf(),
                s == self.type_list(fund_type),
                no_dup(s),
                forall|k: int| 0 <= k < s.len() ==> 1 <= #[trigger] s[k] < self.items@.len(),
                forall|k: int|
                    0 <= k < s.len() ==> self.items@[#[trigger] s[k] as int].type_list_next == (if k + 1 < s.len() {
                        s[k + 1]
                    } else {
                        0usize
                    }),
                forall|u: usize, d: FundDescription| filter.requires((u, d)),
                keep.len() <= s.len(),
                s.len() < usize::MAX,
                id == (if keep.len() < s.len() {
                    s[keep.len() as int]
                } else {
                    0usize
                }),
                forall|k: int|
                    0 <= k < keep.len() ==> filter.ensures(
                        (self.fund(#[trigger] s[k] as int).user_id, self.fund(s[k] as int).fund_desc),
                        keep[k],
                    ),
                sum == filtered_sum(self.items_seq(), s.take(keep.len() as int), keep),
                count == count_kept(keep),
                count <= keep.len(),
                sum_balances(self.items_seq(), s) <= u128::MAX,
            decreases s.len() - keep.len(),
        {
            proof {
                if keep.len() >= s.len() {
                    assert(id == 0);
                }
            }
            let ghost k = keep.len() as int;
            let item = self.items[id];
            let b = filter(item.user_id, item.fund_desc);
            proof {
                assert(s.take(k + 1).drop_last() =~= s.take(k));
                assert(s.take(k + 1).last() == s[k]);
                let keep2 = keep.push(b);
                assert(keep2.drop_last() =~= keep);
                lemma_filtered_le(self.items_seq(), s.take(k + 1), keep2);
                lemma_prefix_sum_le(self.items_seq(), s, k + 1);
            }
            if b {
                sum = sum + item.balance;
                count = count + 1;
            }
            proof {
                keep = keep.push(b);
            }
            id = item.type_list_next;
        }
        proof {
            assert(s.take(s.len() as int) =~= s);
        }
        (sum, count, Ghost(keep))
    }

    /// Funds of the list of user `user_id` and type `fund_type`, with what the filter said of each.
    #[verifier::spinoff_prover]
    #[verifier::rlimit(60)]
    fn scan_user_list<F: Fn(FundDescription) -> bool>(&self, user_id: usize, fund_type: FundType, filter: F) -> (r: (
        u128,
        usize,
        Ghost<Seq<bool>>,
    ))
        requires
            self.wf(),
            forall|d: FundDescription| filter.requires((d,)),
        ensures
            r.2@.len() == self.user_list(user_id, fund_type).len(),
            forall|k: int|
                0 <= k < self.user_list(user_id, fund_type).len() ==> filter.ensures(
                    (self.fund(#[trigger] self.user_list(user_id, fund_type)[k] as int).fund_desc,),
                    r.2@[k],
                ),
            r.0 == filtered_sum(self.items_seq(), self.user_list(user_id, fund_type), r.2@),
            r.1 == count_kept(r.2@),
    {
        let ghost s = self.user_list(user_id, fund_type);
        let info = self.user_list_info(user_id, fund_type);
        let mut id = info.first;
        let mut sum: u128 = 0;
        let mut count: usize = 0;
        let ghost mut keep: Seq<bool> = Seq::empty();
        proof {
            self.lemma_user_scan_facts(user_id, fund_type);
        }
        while id != 0
            invariant
                self.wf(),
                s == self.user_list(user_id, fund_type),
                no_dup(s),
                forall|k: int| 0 <= k < s.len() ==> 1 <= #[trigger] s[k] < self.items@.len(),
                forall|k: int|
                    0 <= k < s.len() ==> self.items@[#[trigger] s[k] as int].user_list_next == (if k + 1 < s.len() {
                        s[k + 1]
                    } else {
                        0usize
                    }),
                forall|d: FundDescription| filter.requires((d,)),
                keep.len() <= s.len(),
                s.len() < usize::MAX,
                id == (if keep.len() < s.len() {
                    s[keep.len() as int]
                } else {
                    0usize
                }),
                forall|k: int|
                    0 <= k < keep.len() ==> filter.ensures((self.fund(#[trigger] s[k] as int).fund_desc,), keep[k]),
                sum == filtered_sum(self.items_seq(), s.take(keep.len() as int), keep),
                count == count_kept(keep),
                count <= keep.len(),
                sum_balances(self.items_seq(), s) <= u128::MAX,
            decreases s.len() - keep.len(),
        {
            proof {
                if keep.len() >= s.len() {
                    assert(id == 0);
                }
            }
            let ghost k = keep.len() as int;
            let item = self.items[id];
            let b = filter(item.fund_desc);
            proof {
                assert(s.take(k + 1).drop_last() =~= s.take(k));
                assert(s.take(k + 1).last() == s[k]);
                let keep2 = keep.push(b);
                assert(keep2.drop_last() =~= keep);
                lemma_filtered_le(self.items_seq(), s.take(k + 1), keep2);
                lemma_prefix_sum_le(self.items_seq(), s, k + 1);
            }
            if b {
                sum = sum + item.balance;
                count = count + 1;
            }
            proof {
                keep = keep.push(b);
            }
            id = item.user_list_next;
        }
        proof {
            assert(s.take(s.len() as int) =~= s);
        }
        (sum, count, Ghost(keep))
    }

    proof fn lemma_list_links_wf(&self, s: Seq<usize>, u: usize, t: FundType, by_type: bool)
        requires
            self.wf_lists(),
            s == (if by_type {
                self.type_list(t)
            } else {
                self.user_list(u, t)
            }),
        ensures
            forall|k: int| 0 <= k < s.len() ==> 1 <= #[trigger] s[k] < self.items@.len(),
            forall|k: int|
                0 <= k < s.len() ==> next_link(self.items@[#[trigger] s[k] as int], by_type) == (if k + 1 < s.len() {
                    s[k + 1]
                } else {
                    0usize
                }),
            forall|k: int|
                0 <= k < s.len() ==> prev_link(self.items@[#[trigger] s[k] as int], by_type) == (if k > 0 {
                    s[k - 1]
                } else {
                    0usize
                }),
    {
        if by_type {
            lemma_type_index_inverse(t);
            assert(self.type_list_ok(type_index(t)));
        } else if self.user_ids@.contains_key((u, t)) {
            let k = choose|k: int| 0 <= k < self.user_lists@.len() && key_of(self.user_lists@[k]) == (u, t);
            assert(self.user_list_ok(self.user_lists@[k]));
        }
    }

    /// The items with the ids of `s`, in the order of a walk in direction `dir` from `start`.
    fn collect_list(&self, s: Ghost<Seq<usize>>, by_type: bool, dir: SwapDirection, start: usize) -> (r: Vec<FundItem>)
        requires
            forall|k: int| 0 <= k < s@.len() ==> 1 <= #[trigger] s@[k] < self.items@.len(),
            forall|k: int|
                0 <= k < s@.len() ==> next_link(self.items@[#[trigger] s@[k] as int], by_type) == (if k + 1 < s@.len() {
                    s@[k + 1]
                } else {
                    0usize
                }),
            forall|k: int|
                0 <= k < s@.len() ==> prev_link(self.items@[#[trigger] s@[k] as int], by_type) == (if k > 0 {
                    s@[k - 1]
                } else {
                    0usize
                }),
            start == walk_start(s@, dir),
        ensures
            r@ == walk_order(s@, dir).map_values(|id: usize| self.fund(id as int)),
    {
        let ghost order = walk_order(s@, dir);
        let mut r: Vec<FundItem> = Vec::new();
        let mut id = start;
        let ghost mut k: int = 0;
        proof {
            assert(r@ =~= order.take(0).map_values(|id: usize| self.fund(id as int)));
        }
        while id != 0
            invariant
                forall|j: int| 0 <= j < s@.len() ==> 1 <= #[trigger] s@[j] < self.items@.len(),
                forall|j: int|
                    0 <= j < s@.len() ==> next_link(self.items@[#[trigger] s@[j] as int], by_type) == (if j + 1
                        < s@.len() {
                        s@[j + 1]
                    } else {
                        0usize
                    }),
                forall|j: int|
                    0 <= j < s@.len() ==> prev_link(self.items@[#[trigger] s@[j] as int], by_type) == (if j > 0 {
                        s@[j - 1]
                    } else {
                        0usize
                    }),
                order == walk_order(s@, dir),
                order.len() == s@.len(),
                0 <= k <= s@.len(),
                id == (if k < s@.len() {
                    order[k]
                } else {
                    0usize
                }),
                r@ == order.take(k).map_values(|id: usize| self.fund(id as int)),
            decreases s@.len() - k,
        {
            proof {
                if k >= s@.len() {
                    assert(id == 0);
                }
                if dir == SwapDirection::Forwards {
                    assert(order[k] == s@[k]);
                } else {
                    assert(order[k] == s@[s@.len() - 1 - k]);
                }
            }
            let item = self.items[id];
            r.push(item);
            id = match dir {
                SwapDirection::Forwards => next_of(&item, by_type),
                SwapDirection::Backwards => prev_of(&item, by_type),
            };
            proof {
                assert(order.take(k + 1) =~= order.take(k).push(order[k]));
                assert(r@ =~= order.take(k + 1).map_values(|id: usize| self.fund(id as int)));
                if dir == SwapDirection::Backwards && k + 1 < s@.len() {
                    assert(order[k + 1] == s@[s@.len() - 1 - (k + 1)]);
                }
                k = k + 1;
            }
        }
        proof {
            if k < s@.len() {
                assert(order[k] >= 1) by {
                    if dir == SwapDirection::Forwards {
                        assert(order[k] == s@[k]);
                    } else {
                        assert(order[k] == s@[s@.len() - 1 - k]);
                    }
                }
            }
            assert(order.take(k) =~= order);
        }
        r
    }

    /// The funds of type `fund_type`, in the order of a walk of their list in `direction`.
    pub fn foreach_fund_by_type(&self, fund_type: FundType, direction: SwapDirection) -> (r: Vec<FundItem>)
        requires
            self.wf(),
        ensures
            r@ == walk_order(self.type_list(fund_type), direction).map_values(|id: usize| self.fund(id as int)),
    {
        proof {
            self.lemma_list_links_wf(self.type_list(fund_type), 0, fund_type, true);
        }
        let info = self.type_list_info(fund_type);
        let start = match direction {
            SwapDirection::Forwards => info.first,
            SwapDirection::Backwards => info.last,
        };
        self.collect_list(Ghost(self.type_list(fund_type)), true, direction, start)
    }

    /// The funds of type `fund_type` owned by `user_id`, in the order of a walk of their list
    /// in `direction`.
    pub fn foreach_fund_by_user_type(&self, user_id: usize, fund_type: FundType, direction: SwapDirection) -> (r: Vec<
        FundItem,
    >)
        requires
            self.wf(),
        ensures
            r@ == walk_order(self.user_list(user_id, fund_type), direction).map_values(
                |id: usize| self.fund(id as int),
            ),
    {
        proof {
            self.lemma_list_links_wf(self.user_list(user_id, fund_type), user_id, fund_type, false);
        }
        let info = self.user_list_info(user_id, fund_type);
        let start = match direction {
            SwapDirection::Forwards => info.first,
            SwapDirection::Backwards => info.last,
        };
        self.collect_list(Ghost(self.user_list(user_id, fund_type)), false, direction, start)
    }

    /// The type lists of the first `k` types, one after the other.
    closed spec fn lists_upto(&self, k: int) -> Seq<usize>
        decreases k,
    {
        if k <= 0 {
            Seq::empty()
        } else {
            self.lists_upto(k - 1) + self.type_list(type_at(k - 1))
        }
    }

    /// Sum of the totals of the first `k` types.
    closed spec fn totals_upto(&self, k: int) -> int
        decreases k,
    {
        if k <= 0 {
            0
        } else {
            self.totals_upto(k - 1) + self.type_total(type_at(k - 1))
        }
    }

    proof fn lemma_lists_upto(&self, k: int)
        requires
            self.wf_lists(),
            0 <= k <= NUM_FUND_TYPES,
        ensures
            no_dup(self.lists_upto(k)),
            forall|i: int|
                0 <= i < self.lists_upto(k).len() ==> type_index(
                    spec_fund_type(self.items@[#[trigger] self.lists_upto(k)[i] as int].fund_desc),
                ) < k,
            sum_balances(self.items@, self.lists_upto(k)) == self.totals_upto(k),
            forall|t: FundType, j: usize|
                type_index(t) < k && #[trigger] self.type_list(t).contains(j) ==> self.lists_upto(k).contains(j),
        decreases k,
    {
        if k > 0 {
            self.lemma_lists_upto(k - 1);
            let a = self.lists_upto(k - 1);
            let t = type_at(k - 1);
            let b = self.type_list(t);
            self.lemma_type_list_shape(t);
            let c = a + b;
            assert(self.lists_upto(k) == c);
            lemma_sum_concat(self.items@, a, b);
            assert forall|i: int, j: int| 0 <= i < j < c.len() implies c[i] != c[j] by {
                if j < a.len() {
                } else if i >= a.len() {
                    assert(b[i - a.len()] != b[j - a.len()]);
                } else {
                    assert(type_index(spec_fund_type(self.items@[c[i] as int].fund_desc)) < k - 1);
                    assert(spec_fund_type(self.items@[b[j - a.len()] as int].fund_desc) == t);
                }
            }
            assert forall|i: int| 0 <= i < c.len() implies type_index(
                spec_fund_type(self.items@[#[trigger] c[i] as int].fund_desc),
            ) < k by {
                if i >= a.len() {
                    assert(c[i] == b[i - a.len()]);
                }
            }
            assert forall|t2: FundType, j: usize| type_index(t2) < k && #[trigger] self.type_list(t2).contains(j) implies c.contains(j) by {
                lemma_type_index_inverse(t2);
                if type_index(t2) < k - 1 {
                    assert(a.contains(j));
                    let x = a.index_of(j);
                    assert(c[x] == j);
                } else {
                    assert(t2 == t);
                    let x = b.index_of(j);
                    assert(c[a.len() + x] == j);
                }
            }
        } else {
            assert(self.lists_upto(0) =~= Seq::<usize>::empty());
        }
    }

    /// Every fund with a positive balance is in one of the type lists, whose sums make up the
    /// total of all balances.
    proof fn lemma_all_lists(&self)
        requires
            self.wf(),
        ensures
            no_dup(self.lists_upto(NUM_FUND_TYPES as int)),
            sum_balances(self.items@, self.lists_upto(NUM_FUND_TYPES as int)) == self.total_all(),
            forall|j: int|
                1 <= j < self.items@.len() && #[trigger] self.items@[j].balance > 0 ==> self.lists_upto(
                    NUM_FUND_TYPES as int,
                ).contains(j as usize),
    {
        self.lemma_lists_upto(NUM_FUND_TYPES as int);
        reveal_with_fuel(FundModule::totals_upto, 8);
        assert forall|j: int| 1 <= j < self.items@.len() && #[trigger] self.items@[j].balance > 0 implies self.lists_upto(
            NUM_FUND_TYPES as int,
        ).contains(j as usize) by {
            assert(self.live_ok(j));
            let t = spec_fund_type(self.items@[j].fund_desc);
            lemma_type_index_inverse(t);
            assert(self.type_list(t).contains(j as usize));
        }
    }

    /// For testing: sum of the balances of all stored funds that `filter` keeps, given each
    /// fund's owner and description, going through every id without the lists.
    #[verifier::spinoff_prover]
    #[verifier::rlimit(60)]
    pub fn query_sum_all_funds_brute_force<F: Fn(usize, FundDescription) -> bool>(&self, filter: F) -> (r: u128)
        requires
            self.wf(),
            forall|u: usize, d: FundDescription| filter.requires((u, d)),
        ensures
            exists|keep: Seq<bool>|
                {
                    &&& keep.len() == self.max_id()
                    &&& forall|k: int|
                        0 <= k < keep.len() ==> filter.ensures(
                            (self.fund(k + 1).user_id, self.fund(k + 1).fund_desc),
                            #[trigger] keep[k],
                        )
                    &&& r == filtered_sum(self.items_seq(), all_ids(self.max_id()), keep)
                },
    {
        let max_id = self.items.len() - 1;
        let mut sum: u128 = 0;
        let mut id: usize = 1;
        let ghost mut keep: Seq<bool> = Seq::empty();
        let ghost mut xs: Seq<usize> = Seq::empty();
        let ghost all = self.lists_upto(NUM_FUND_TYPES as int);
        proof {
            self.lemma_all_lists();
        }
        while id <= max_id
            invariant
                self.wf(),
                max_id == self.max_id(),
                max_id + 1 == self.items@.len(),
                1 <= id <= max_id + 1,
                keep.len() == id - 1,
                forall|u: usize, d: FundDescription| filter.requires((u, d)),
                forall|k: int|
                    0 <= k < keep.len() ==> filter.ensures(
                        (self.fund(k + 1).user_id, self.fund(k + 1).fund_desc),
                        #[trigger] keep[k],
                    ),
                sum == filtered_sum(self.items_seq(), all_ids(id as int - 1), keep),
                sum == sum_balances(self.items@, xs),
                no_dup(xs),
                forall|i: int| 0 <= i < xs.len() ==> 1 <= #[trigger] xs[i] < id && self.items@[xs[i] as int].balance > 0,
                no_dup(all),
                sum_balances(self.items@, all) == self.total_all(),
                self.total_all() <= u128::MAX,
                forall|j: int| 1 <= j < self.items@.len() && #[trigger] self.items@[j].balance > 0 ==> all.contains(j as usize),
            decreases max_id + 1 - id,
        {
            let item = self.items[id];
            let b = filter(item.user_id, item.fund_desc);
            proof {
                let ids2 = all_ids(id as int);
                assert(ids2.drop_last() =~= all_ids(id as int - 1));
                assert(ids2.last() == id);
                assert(keep.push(b).drop_last() =~= keep);
            }
            if b && item.balance > 0 {
                proof {
                    let xs2 = xs.push(id);
                    assert(no_dup(xs2));
                    assert forall|i: int| 0 <= i < xs2.len() implies all.contains(#[trigger] xs2[i]) by {
                        assert(1 <= xs2[i] < self.items@.len());
                        assert(self.items@[xs2[i] as int].balance > 0);
                    }
                    lemma_sum_subset(self.items@, xs2, all);
                    lemma_sum_push(self.items@, xs, id);
                    xs = xs2;
                }
                sum = sum + item.balance;
            }
            proof {
                keep = keep.push(b);
            }
            id = id + 1;
        }
        sum
    }

    /// Sum of the balances of the funds of type `fund_type` that `filter` keeps, given each
    /// fund's owner and description.
    pub fn query_sum_funds_by_type<F: Fn(usize, FundDescription) -> bool>(&self, fund_type: FundType, filter: F) -> (r: u128)
        requires
            self.wf(),
            forall|u: usize, d: FundDescription| filter.requires((u, d)),
        ensures
            exists|keep: Seq<bool>|
                {
                    &&& keep.len() == self.type_list(fund_type).len()
                    &&& forall|k: int|
                        0 <= k < keep.len() ==> filter.ensures(
                            (
                                self.fund(#[trigger] self.type_list(fund_type)[k] as int).user_id,
                                self.fund(self.type_list(fund_type)[k] as int).fund_desc,
                            ),
                            keep[k],
                        )
                    &&& r == filtered_sum(self.items_seq(), self.type_list(fund_type), keep)
                },
    {
        let (sum, _count, Ghost(keep)) = self.scan_type_list(fund_type, filter);
        sum
    }

    /// Number of funds of type `fund_type` that `filter` keeps, given each fund's owner and description.
    pub fn count_fund_items_by_type<F: Fn(usize, FundDescription) -> bool>(&self, fund_type: FundType, filter: F) -> (r: usize)
        requires
            self.wf(),
            forall|u: usize, d: FundDescription| filter.requires((u, d)),
        ensures
            exists|keep: Seq<bool>|
                {
                    &&& keep.len() == self.type_list(fund_type).len()
                    &&& forall|k: int|
                        0 <= k < keep.len() ==> filter.ensures(
                            (
                                self.fund(#[trigger] self.type_list(fund_type)[k] as int).user_id,
                                self.fund(self.type_list(fund_type)[k] as int).fund_desc,
                            ),
                            keep[k],
                        )
                    &&& r == count_kept(keep)
                },
    {
        let (_sum, count, Ghost(keep)) = self.scan_type_list(fund_type, filter);
        count
    }

    /// Sum of the balances of the funds of type `fund_type` owned by `user_id` that `filter`
    /// keeps, given each fund's description.
    pub fn query_sum_funds_by_user_type<F: Fn(FundDescription) -> bool>(
        &self,
        user_id: usize,
        fund_type: FundType,
        filter: F,
    ) -> (r: u128)
        requires
            self.wf(),
            forall|d: FundDescription| filter.requires((d,)),
        ensures
            exists|keep: Seq<bool>|
                {
                    &&& keep.len() == self.user_list(user_id, fund_type).len()
                    &&& forall|k: int|
                        0 <= k < keep.len() ==> filter.ensures(
                            (self.fund(#[trigger] self.user_list(user_id, fund_type)[k] as int).fund_desc,),
                            keep[k],
                        )
                    &&& r == filtered_sum(self.items_seq(), self.user_list(user_id, fund_type), keep)
                },
    {
        let (sum, _count, Ghost(keep)) = self.scan_user_list(user_id, fund_type, filter);
        sum
    }

    /// Number of funds of type `fund_type` owned by `user_id` that `filter` keeps, given each
    /// fund's description.
    pub fn count_fund_items_by_user_type<F: Fn(FundDescription) -> bool>(
        &self,
        user_id: usize,
        fund_type: FundType,
        filter: F,
    ) -> (r: usize)
        requires
            self.wf(),
            forall|d: FundDescription| filter.requires((d,)),
        ensures
            exists|keep: Seq<bool>|
                {
                    &&& keep.len() == self.user_list(user_id, fund_type).len()
                    &&& forall|k: int|
                        0 <= k < keep.len() ==> filter.ensures(
                            (self.fund(#[trigger] self.user_list(user_id, fund_type)[k] as int).fund_desc,),
                            keep[k],
                        )
                    &&& r == count_kept(keep)
                },
    {
        let (_sum, count, Ghost(keep)) = self.scan_user_list(user_id, fund_type, filter);
        count
    }

    proof fn lemma_type_list_links(&self, t: FundType)
        requires
            self.wf_lists(),
        ensures
            forall|k: int|
                0 <= k < self.type_list(t).len() ==> self.items@[#[trigger] self.type_list(t)[k] as int].type_list_next
                    == (if k + 1 < self.type_list(t).len() {
                    self.type_list(t)[k + 1]
                } else {
                    0usize
                }),
            forall|k: int|
                0 <= k < self.type_list(t).len() ==> self.items@[#[trigger] self.type_list(t)[k] as int].type_list_prev
                    == (if k > 0 {
                    self.type_list(t)[k - 1]
                } else {
                    0usize
                }),
            self.type_lists@[type_index(t)].first == walk_start(self.type_list(t), SwapDirection::Forwards),
            self.type_lists@[type_index(t)].last == walk_start(self.type_list(t), SwapDirection::Backwards),
    {
        lemma_type_index_inverse(t);
        assert(self.type_list_ok(type_index(t)));
        let s = self.type_list(t);
        assert forall|i: int| 0 <= i < s.len() implies self.items@[#[trigger] s[i] as int].type_list_next == (if i + 1
            < s.len() {
            s[i + 1]
        } else {
            0usize
        }) by {
            assert(next_link(self.items@[s[i] as int], true) == self.items@[s[i] as int].type_list_next);
        }
        assert forall|i: int| 0 <= i < s.len() implies self.items@[#[trigger] s[i] as int].type_list_prev == (if i > 0 {
            s[i - 1]
        } else {
            0usize
        }) by {
            assert(prev_link(self.items@[s[i] as int], true) == self.items@[s[i] as int].type_list_prev);
        }
    }

    /// Head of the list of all funds of type `t`.
    fn type_list_info(&self, t: FundType) -> (r: FundsListInfo)
        requires
            self.wf_lists(),
        ensures
            r.first == walk_start(self.type_list(t), SwapDirection::Forwards),
            r.last == walk_start(self.type_list(t), SwapDirection::Backwards),
            r.total_balance == self.type_total(t),
    {
        proof {
            self.lemma_type_list_links(t);
            lemma_type_index_inverse(t);
            assert(self.type_list_ok(type_index(t)));
        }
        let ti = t.discriminant() as usize;
        self.type_lists[ti]
    }

    /// One step of a walk over a list: a conversion as `converted` says, or, in a dry run,
    /// no change but the lowering of the maximum by the balance of a fund that would be converted.
    #[verifier::opaque]
    pub open spec fn walk_step(
        dry: bool,
        old: FundModule,
        mid: FundModule,
        new: FundModule,
        id: int,
        tr: Option<FundDescription>,
        max_old: Option<u128>,
        max_new: Option<u128>,
        ext: u128,
    ) -> bool {
        if dry {
            &&& new == old
            &&& ext == 0
            &&& max_new == (match (tr, max_old) {
                (Some(_), Some(m)) => Some(
                    if old.fund(id).balance >= m {
                        0u128
                    } else {
                        (m - old.fund(id).balance) as u128
                    },
                ),
                _ => max_old,
            })
        } else {
            Self::converted(old, mid, new, id, tr, max_old, max_new, ext)
        }
    }

    /// The walk over the list of all funds of type `src` described by `tr` follows the list
    /// and the transformation `f` (given the owner and description of each fund), and stops
    /// only where the loop would; in a dry run nothing is converted.
    #[verifier::opaque]
    pub open spec fn type_walk(
        old: FundModule,
        src: FundType,
        dir: SwapDirection,
        g: spec_fn(usize, FundDescription, Option<FundDescription>) -> bool,
        dry: bool,
        tr: ConvertTrace,
    ) -> bool {
        let n = tr.cursors.len();
        &&& tr.states.len() == n + 1
        &&& tr.mids.len() == n
        &&& tr.results.len() == n
        &&& tr.maxes.len() == n + 1
        &&& tr.extracted.len() == n
        &&& tr.states[0] == old
        &&& forall|i: int|
            0 <= i < n ==> Self::walk_step(
                dry,
                tr.states[i],
                tr.mids[i],
                tr.states[i + 1],
                #[trigger] tr.cursors[i] as int,
                tr.results[i],
                tr.maxes[i],
                tr.maxes[i + 1],
                tr.extracted[i],
            )
        &&& forall|i: int|
            0 <= i < n ==> g(
                tr.states[i].fund(#[trigger] tr.cursors[i] as int).user_id,
                tr.states[i].fund(tr.cursors[i] as int).fund_desc,
                tr.results[i],
            )
        &&& forall|i: int| 0 <= i < n ==> #[trigger] tr.maxes[i] != Some(0u128)
        &&& forall|i: int| 0 <= i < n ==> #[trigger] tr.cursors[i] != 0
        &&& forall|i: int|
            0 <= i < n ==> #[trigger] tr.cursors[i] == (if i == 0 {
                walk_start(old.type_list(src), dir)
            } else {
                walk_next(tr.states[i - 1].type_list(src), tr.cursors[i - 1], dir)
            })
    }

    /// `s` is `old` with the first `i` funds of the list of type `src` taken out of that list,
    /// the other funds of the list as they were, and no fewer ids handed out.
    pub open spec fn walk_rest(old: FundModule, s: FundModule, src: FundType, i: int) -> bool {
        let l = old.type_list(src);
        &&& 0 <= i <= l.len()
        &&& s.type_list(src) == l.skip(i)
        &&& forall|k: int| i <= k < l.len() ==> same_fund(#[trigger] s.fund(l[k] as int), old.fund(l[k] as int))
        &&& s.max_id() >= old.max_id()
    }

    /// A dry walk and a real walk from the same storage over the list of type `src`, forwards,
    /// starting with the same maximum, where every visited fund turns into `d` of another type,
    /// agree on their first `i` steps: they visit the first `i` funds of the list, whose owners
    /// they see alike, and have the same maximum after them; the dry walk changes nothing and
    /// the real one takes each fund out of the list as it goes on.
    #[verifier::spinoff_prover]
    #[verifier::rlimit(60)]
    pub proof fn lemma_walks_agree(
        old: FundModule,
        src: FundType,
        d: FundDescription,
        g: spec_fn(usize, FundDescription, Option<FundDescription>) -> bool,
        trd: ConvertTrace,
        trr: ConvertTrace,
        i: int,
    )
        requires
            old.wf(),
            spec_fund_type(d) != src,
            forall|u: usize, x: FundDescription, o: Option<FundDescription>| #[trigger] g(u, x, o) ==> o == Some(d),
            Self::type_walk(old, src, SwapDirection::Forwards, g, true, trd),
            Self::type_walk(old, src, SwapDirection::Forwards, g, false, trr),
            trd.maxes[0] == trr.maxes[0],
            trd.maxes[0] is Some,
            0 <= i <= trd.cursors.len(),
            i <= trr.cursors.len(),
        ensures
            i <= old.type_list(src).len(),
            trd.maxes[i] == trr.maxes[i],
            trd.maxes[i] is Some,
            forall|k: int| 0 <= k <= i ==> #[trigger] trd.states[k] == old,
            forall|k: int|
                0 <= k < i ==> #[trigger] trd.cursors[k] == old.type_list(src)[k] && trr.cursors[k] == old.type_list(src)[k],
            forall|k: int|
                0 <= k < i ==> #[trigger] trr.states[k].fund(trr.cursors[k] as int).user_id == old.fund(
                    old.type_list(src)[k] as int,
                ).user_id,
            forall|j: int| 0 <= j <= i && j < trr.cursors.len() ==> Self::walk_rest(old, #[trigger] trr.states[j], src, j),
        decreases i,
    {
        let l = old.type_list(src);
        old.lemma_type_list_shape(src);
        Self::lemma_trace_start(old, src, SwapDirection::Forwards, g, true, trd);
        Self::lemma_trace_start(old, src, SwapDirection::Forwards, g, false, trr);
        if i == 0 {
            assert(l.skip(0) =~= l);
            if trr.cursors.len() > 0 {
                assert(Self::walk_rest(old, trr.states[0], src, 0));
            }
        } else {
            let k = i - 1;
            Self::lemma_walks_agree(old, src, d, g, trd, trr, k);
            Self::lemma_trace_at(old, src, SwapDirection::Forwards, g, true, trd, k);
            Self::lemma_trace_at(old, src, SwapDirection::Forwards, g, false, trr, k);
            assert(Self::walk_rest(old, trr.states[k], src, k));
            if k == 0 {
                assert(l.len() > 0);
            } else {
                assert(trd.states[k - 1] == old);
                assert(Self::walk_rest(old, trr.states[k - 1], src, k - 1));
                lemma_index_of_unique(l, k - 1);
                let r = l.skip(k - 1);
                assert(no_dup(r)) by {
                    assert forall|a: int, b: int| 0 <= a < b < r.len() implies r[a] != r[b] by {
                        assert(r[a] == l[a + k - 1] && r[b] == l[b + k - 1]);
                    }
                }
                assert(r[0] == l[k - 1]);
                lemma_index_of_unique(r, 0);
                assert(k < l.len());
                assert(r[1] == l[k]);
            }
            assert(trd.cursors[k] == l[k] && trr.cursors[k] == l[k]);
            let id = l[k];
            let sk = trr.states[k];
            assert(same_fund(sk.fund(id as int), old.fund(id as int)));
            assert(trd.results[k] == Some(d));
            assert(trr.results[k] == Some(d));
            Self::lemma_dry_step(old, trd.mids[k], trd.states[k + 1], id as int, d, trd.maxes[k].unwrap(), trd.maxes[k + 1], trd.extracted[k]);
            Self::lemma_real_step(old, src, d, k, sk, trr.mids[k], trr.states[k + 1], trr.maxes[k].unwrap(), trr.maxes[k + 1], trr.extracted[k]);
            assert(trd.states[k + 1] == old);
            assert(trd.maxes[i] == trr.maxes[i]);
            if i < trr.cursors.len() {
                Self::lemma_trace_at(old, src, SwapDirection::Forwards, g, false, trr, i);
                assert(Self::walk_rest(old, trr.states[i], src, i));
            }
        }
    }

    /// What a walk's description says at its start.
    proof fn lemma_trace_start(
        old: FundModule,
        src: FundType,
        dir: SwapDirection,
        g: spec_fn(usize, FundDescription, Option<FundDescription>) -> bool,
        dry: bool,
        tr: ConvertTrace,
    )
        requires
            Self::type_walk(old, src, dir, g, dry, tr),
        ensures
            tr.states[0] == old,
            tr.states.len() == tr.cursors.len() + 1,
            tr.maxes.len() == tr.cursors.len() + 1,
            tr.mids.len() == tr.cursors.len(),
            tr.results.len() == tr.cursors.len(),
            tr.extracted.len() == tr.cursors.len(),
            tr.cursors.len() > 0 ==> tr.cursors[0] == walk_start(old.type_list(src), dir),
    {
        reveal(FundModule::type_walk);
    }

    /// What a walk's description says of its step `k`.
    proof fn lemma_trace_at(
        old: FundModule,
        src: FundType,
        dir: SwapDirection,
        g: spec_fn(usize, FundDescription, Option<FundDescription>) -> bool,
        dry: bool,
        tr: ConvertTrace,
        k: int,
    )
        requires
            Self::type_walk(old, src, dir, g, dry, tr),
            0 <= k < tr.cursors.len(),
        ensures
            Self::walk_step(
                dry,
                tr.states[k],
                tr.mids[k],
                tr.states[k + 1],
                tr.cursors[k] as int,
                tr.results[k],
                tr.maxes[k],
                tr.maxes[k + 1],
                tr.extracted[k],
            ),
            g(tr.states[k].fund(tr.cursors[k] as int).user_id, tr.states[k].fund(tr.cursors[k] as int).fund_desc, tr.results[k]),
            tr.maxes[k] != Some(0u128),
            tr.cursors[k] != 0,
            k == 0 ==> tr.cursors[k] == walk_start(old.type_list(src), dir),
            k > 0 ==> tr.cursors[k] == walk_next(tr.states[k - 1].type_list(src), tr.cursors[k - 1], dir),
    {
        reveal(FundModule::type_walk);
    }

    /// A dry step changes nothing and lowers the maximum by the balance of the fund.
    proof fn lemma_dry_step(old: FundModule, mid: FundModule, new: FundModule, id: int, d: FundDescription, m: u128, max2: Option<u128>, ext: u128)
        requires
            Self::walk_step(true, old, mid, new, id, Some(d), Some(m), max2, ext),
        ensures
            new == old,
            max2 == Some(if old.fund(id).balance >= m { 0u128 } else { (m - old.fund(id).balance) as u128 }),
    {
        reveal(FundModule::walk_step);
    }

    /// One step of the real walk of `lemma_walks_agree`, at fund `k` of the list: the maximum
    /// goes down as in the dry walk, and when it is not used up the fund left the list.
    proof fn lemma_real_step(
        old: FundModule,
        src: FundType,
        d: FundDescription,
        k: int,
        s: FundModule,
        mid: FundModule,
        s2: FundModule,
        m: u128,
        max2: Option<u128>,
        ext: u128,
    )
        requires
            old.wf(),
            spec_fund_type(d) != src,
            0 <= k < old.type_list(src).len(),
            Self::walk_rest(old, s, src, k),
            Self::walk_step(false, s, mid, s2, old.type_list(src)[k] as int, Some(d), Some(m), max2, ext),
        ensures
            ({
                let bal = old.fund(old.type_list(src)[k] as int).balance;
                max2 == Some(if bal >= m { 0u128 } else { (m - bal) as u128 })
            }),
            max2 != Some(0u128) ==> Self::walk_rest(old, s2, src, k + 1),
    {
        reveal(FundModule::walk_step);
        reveal(FundModule::converted);
        let l = old.type_list(src);
        old.lemma_type_list_shape(src);
        let id = l[k];
        let bal = old.fund(id as int).balance;
        assert(same_fund(s.fund(id as int), old.fund(id as int)));
        assert(s.fund(id as int).balance == bal);
        if max2 != Some(0u128) {
            assert(m > bal);
            assert(Self::deleted(s, mid, id as int));
            let r = l.skip(k);
            assert(no_dup(r)) by {
                assert forall|a: int, b: int| 0 <= a < b < r.len() implies r[a] != r[b] by {
                    assert(r[a] == l[a + k] && r[b] == l[b + k]);
                }
            }
            assert(r[0] == id);
            lemma_index_of_unique(r, 0);
            assert(spec_fund_type(s.fund(id as int).fund_desc) == src);
            assert(mid.type_list(src) == r.remove(0));
            assert(r.remove(0) =~= l.skip(k + 1));
            assert(ext == bal && bal > 0);
            let u = s.fund(id as int).user_id;
            assert(Self::increased(mid, s2, u, d, ext));
            match mid.coalesce_target(u, d) {
                Some(t) => {
                    assert(Self::balance_set(mid, s2, t as int, (mid.fund(t as int).balance + ext) as u128));
                    assert forall|j: int| k + 1 <= j < l.len() implies same_fund(#[trigger] s2.fund(l[j] as int), old.fund(l[j] as int)) by {
                        assert(l[j] != id) by {
                            assert(l[j] == r[j - k]);
                        }
                        assert(same_fund(s.fund(l[j] as int), old.fund(l[j] as int)));
                        assert(spec_fund_type(old.fund(l[j] as int).fund_desc) == src);
                        assert(l[j] as int != t as int);
                    }
                },
                None => {
                    assert(Self::created(mid, s2, u, d, ext));
                    assert forall|j: int| k + 1 <= j < l.len() implies same_fund(#[trigger] s2.fund(l[j] as int), old.fund(l[j] as int)) by {
                        assert(l[j] != id) by {
                            assert(l[j] == r[j - k]);
                        }
                        assert(same_fund(s.fund(l[j] as int), old.fund(l[j] as int)));
                        assert(l[j] as int <= old.max_id());
                    }
                },
            }
            assert(Self::walk_rest(old, s2, src, k + 1));
        }
    }

    /// Two walks as in `lemma_walks_agree` that both ran to their end (the end of the list or an
    /// exhausted maximum) take the same steps: they visit the same owners in the same order
    /// and end with the same maximum.
    #[verifier::spinoff_prover]
    pub proof fn lemma_dry_walk_predicts(
        old: FundModule,
        src: FundType,
        d: FundDescription,
        g: spec_fn(usize, FundDescription, Option<FundDescription>) -> bool,
        trd: ConvertTrace,
        trr: ConvertTrace,
    )
        requires
            old.wf(),
            spec_fund_type(d) != src,
            forall|u: usize, x: FundDescription, o: Option<FundDescription>| #[trigger] g(u, x, o) ==> o == Some(d),
            Self::type_walk(old, src, SwapDirection::Forwards, g, true, trd),
            Self::type_walk(old, src, SwapDirection::Forwards, g, false, trr),
            trd.maxes[0] == trr.maxes[0],
            trd.maxes[0] is Some,
            Self::type_walk_next(old, src, SwapDirection::Forwards, trd) == 0 || trd.maxes.last() == Some(0u128),
            Self::type_walk_next(old, src, SwapDirection::Forwards, trr) == 0 || trr.maxes.last() == Some(0u128),
        ensures
            trd.cursors.len() == trr.cursors.len(),
            Self::visited_users(trd) == Self::visited_users(trr),
            trd.maxes.last() == trr.maxes.last(),
    {
        let l = old.type_list(src);
        old.lemma_type_list_shape(src);
        let nd = trd.cursors.len() as int;
        let nr = trr.cursors.len() as int;
        Self::lemma_trace_start(old, src, SwapDirection::Forwards, g, true, trd);
        Self::lemma_trace_start(old, src, SwapDirection::Forwards, g, false, trr);
        if nd < nr {
            Self::lemma_walks_agree(old, src, d, g, trd, trr, nd);
            Self::lemma_trace_at(old, src, SwapDirection::Forwards, g, false, trr, nd);
            if nd > 0 {
                assert(Self::walk_rest(old, trr.states[nd - 1], src, nd - 1));
                let r = l.skip(nd - 1);
                assert(no_dup(r)) by {
                    assert forall|a: int, b: int| 0 <= a < b < r.len() implies r[a] != r[b] by {
                        assert(r[a] == l[a + nd - 1] && r[b] == l[b + nd - 1]);
                    }
                }
                assert(r[0] == l[nd - 1]);
                lemma_index_of_unique(r, 0);
                lemma_index_of_unique(l, nd - 1);
                assert(nd < l.len());
                assert(trd.states[nd - 1] == old);
                assert(Self::type_walk_next(old, src, SwapDirection::Forwards, trd) == l[nd]);
            }
            assert(false);
        } else if nr < nd {
            Self::lemma_walks_agree(old, src, d, g, trd, trr, nr);
            Self::lemma_trace_at(old, src, SwapDirection::Forwards, g, true, trd, nr);
            if nr > 0 {
                assert(trd.states[nr - 1] == old);
                lemma_index_of_unique(l, nr - 1);
                assert(nr < l.len());
                assert(Self::walk_rest(old, trr.states[nr - 1], src, nr - 1));
                let r = l.skip(nr - 1);
                assert(no_dup(r)) by {
                    assert forall|a: int, b: int| 0 <= a < b < r.len() implies r[a] != r[b] by {
                        assert(r[a] == l[a + nr - 1] && r[b] == l[b + nr - 1]);
                    }
                }
                assert(r[0] == l[nr - 1]);
                lemma_index_of_unique(r, 0);
                assert(Self::type_walk_next(old, src, SwapDirection::Forwards, trr) == l[nr]);
            }
            assert(false);
        } else {
            Self::lemma_walks_agree(old, src, d, g, trd, trr, nd);
            assert(Self::visited_users(trd) =~= Self::visited_users(trr));
        }
    }

    /// `s` is `old` after a walk over the list of type `src` in direction `dir` went through
    /// the first `i` funds in walk order, taking out those that `f` converts: what is left of
    /// the list, in walk order, is the funds left alone followed by the funds not yet visited,
    /// which are as they were.
    pub open spec fn walk_left(
        old: FundModule,
        s: FundModule,
        src: FundType,
        dir: SwapDirection,
        f: spec_fn(usize, FundDescription) -> Option<FundDescription>,
        i: int,
    ) -> bool {
        let l = walk_order(old.type_list(src), dir);
        &&& 0 <= i <= l.len()
        &&& no_dup(s.type_list(src))
        &&& walk_order(s.type_list(src), dir) == rejected(old, l.take(i), f) + l.skip(i)
        &&& forall|k: int| i <= k < l.len() ==> same_fund(#[trigger] s.fund(l[k] as int), old.fund(l[k] as int))
        &&& s.max_id() >= old.max_id()
    }

    /// A walk with a maximum `m` over the list of type `src`, converting what `f` converts to
    /// other types, after `i` steps: it visited the first `i` funds in walk order, converted as
    /// much as it could of the stake `f` accepts among them, and took those funds out.
    #[verifier::spinoff_prover]
    #[verifier::rlimit(60)]
    pub proof fn lemma_walk_converts(
        old: FundModule,
        src: FundType,
        dir: SwapDirection,
        f: spec_fn(usize, FundDescription) -> Option<FundDescription>,
        g: spec_fn(usize, FundDescription, Option<FundDescription>) -> bool,
        tr: ConvertTrace,
        m: u128,
        i: int,
    )
        requires
            old.wf(),
            forall|u: usize, x: FundDescription, o: Option<FundDescription>| #[trigger] g(u, x, o) ==> o == f(u, x),
            forall|u: usize, x: FundDescription| #[trigger] f(u, x) matches Some(d) ==> spec_fund_type(d) != src,
            Self::type_walk(old, src, dir, g, false, tr),
            tr.maxes[0] == Some(m),
            0 <= i <= tr.cursors.len(),
        ensures
            i <= old.type_list(src).len(),
            tr.maxes[i] is Some,
            m - tr.maxes[i].unwrap() == min_of_int(m as int, accepted_sum(old, walk_order(old.type_list(src), dir).take(i), f)),
            forall|k: int| 0 <= k < i ==> #[trigger] tr.cursors[k] == walk_order(old.type_list(src), dir)[k],
            forall|j: int| 0 <= j <= i && j < tr.cursors.len() ==> Self::walk_left(old, #[trigger] tr.states[j], src, dir, f, j),
        decreases i,
    {
        let s0 = old.type_list(src);
        let l = walk_order(s0, dir);
        old.lemma_type_list_shape(src);
        lemma_order_facts(s0, dir, 0);
        Self::lemma_trace_start(old, src, dir, g, false, tr);
        if i == 0 {
            assert(l.take(0) =~= Seq::<usize>::empty());
            assert(rejected(old, l.take(0), f) + l.skip(0) =~= l);
            if tr.cursors.len() > 0 {
                assert(Self::walk_left(old, tr.states[0], src, dir, f, 0));
            }
        } else {
            let k = i - 1;
            Self::lemma_walk_converts(old, src, dir, f, g, tr, m, k);
            Self::lemma_trace_at(old, src, dir, g, false, tr, k);
            let sk = tr.states[k];
            assert(Self::walk_left(old, sk, src, dir, f, k));
            // the walk visits fund `l[k]` at step `k`
            if k == 0 {
                assert(l.len() > 0);
                assert(tr.cursors[0] == l[0]);
            } else {
                let sp = tr.states[k - 1];
                assert(Self::walk_left(old, sp, src, dir, f, k - 1));
                Self::lemma_next_visited(old, sp, src, dir, f, k - 1);
                assert(tr.cursors[k] == order_next(walk_order(sp.type_list(src), dir), l[k - 1]));
                assert(k < l.len());
            }
            assert(tr.cursors[k] == l[k]);
            Self::lemma_converting_step(old, src, dir, f, k, sk, tr.mids[k], tr.states[k + 1], tr.results[k], m, tr.maxes[k].unwrap(), tr.maxes[k + 1], tr.extracted[k]);
            if i < tr.cursors.len() {
                Self::lemma_trace_at(old, src, dir, g, false, tr, i);
            }
        }
    }

    /// After step `j`, the walk goes on to fund `j + 1` in walk order, or stops at the end.
    proof fn lemma_next_visited(
        old: FundModule,
        s: FundModule,
        src: FundType,
        dir: SwapDirection,
        f: spec_fn(usize, FundDescription) -> Option<FundDescription>,
        j: int,
    )
        requires
            old.wf(),
            Self::walk_left(old, s, src, dir, f, j),
            j < walk_order(old.type_list(src), dir).len(),
        ensures
            s.type_list(src).contains(walk_order(old.type_list(src), dir)[j]),
            walk_next(s.type_list(src), walk_order(old.type_list(src), dir)[j], dir) == (if j + 1 < walk_order(
                old.type_list(src),
                dir,
            ).len() {
                walk_order(old.type_list(src), dir)[j + 1]
            } else {
                0
            }),
            walk_order(s.type_list(src), dir).index_of(walk_order(old.type_list(src), dir)[j]) == rejected(
                old,
                walk_order(old.type_list(src), dir).take(j),
                f,
            ).len(),
    {
        let s0 = old.type_list(src);
        let l = walk_order(s0, dir);
        old.lemma_type_list_shape(src);
        lemma_order_facts(s0, dir, 0);
        let p = rejected(old, l.take(j), f);
        let o = walk_order(s.type_list(src), dir);
        let id = l[j];
        assert(o[p.len() as int] == id);
        lemma_order_facts(s.type_list(src), dir, id);
        assert(o.contains(id));
        lemma_index_of_unique(o, p.len() as int);
        if j + 1 < l.len() {
            assert(o[(p.len() + 1) as int] == l[j + 1]);
        }
    }

    /// One step of the walk of `lemma_walk_converts`, at fund `k` in walk order.
    #[verifier::spinoff_prover]
    #[verifier::rlimit(100)]
    proof fn lemma_converting_step(
        old: FundModule,
        src: FundType,
        dir: SwapDirection,
        f: spec_fn(usize, FundDescription) -> Option<FundDescription>,
        k: int,
        s: FundModule,
        mid: FundModule,
        s2: FundModule,
        res: Option<FundDescription>,
        m: u128,
        mx: u128,
        max2: Option<u128>,
        ext: u128,
    )
        requires
            old.wf(),
            forall|u: usize, x: FundDescription| #[trigger] f(u, x) matches Some(d) ==> spec_fund_type(d) != src,
            0 <= k < walk_order(old.type_list(src), dir).len(),
            Self::walk_left(old, s, src, dir, f, k),
            mx != 0,
            m - mx == min_of_int(m as int, accepted_sum(old, walk_order(old.type_list(src), dir).take(k), f)),
            res == f(s.fund(walk_order(old.type_list(src), dir)[k] as int).user_id, s.fund(
                walk_order(old.type_list(src), dir)[k] as int,
            ).fund_desc),
            Self::walk_step(false, s, mid, s2, walk_order(old.type_list(src), dir)[k] as int, res, Some(mx), max2, ext),
        ensures
            max2 is Some,
            m - max2.unwrap() == min_of_int(m as int, accepted_sum(old, walk_order(old.type_list(src), dir).take(k + 1), f)),
            max2 != Some(0u128) ==> Self::walk_left(old, s2, src, dir, f, k + 1),
    {
        reveal(FundModule::walk_step);
        reveal(FundModule::converted);
        let s0 = old.type_list(src);
        let l = walk_order(s0, dir);
        old.lemma_type_list_shape(src);
        lemma_order_facts(s0, dir, 0);
        let id = l[k];
        assert(s0.contains(id));
        let ks = s0.index_of(id);
        assert(s0[ks] == id);
        let bal = old.fund(id as int).balance;
        assert(same_fund(s.fund(id as int), old.fund(id as int)));
        assert(bal > 0);
        assert(spec_fund_type(old.fund(id as int).fund_desc) == src);
        lemma_accepted_step(old, l, f, k);
        lemma_accepted_nonneg(old, l.take(k), f);
        let p = rejected(old, l.take(k), f);
        lemma_rejected_sub(old, l.take(k), f);
        Self::lemma_next_visited(old, s, src, dir, f, k);
        let o = walk_order(s.type_list(src), dir);
        match res {
            None => {
                assert(s2 == s);
                if max2 != Some(0u128) {
                    assert(p.push(id) + l.skip(k + 1) =~= p + l.skip(k));
                    assert(Self::walk_left(old, s2, src, dir, f, k + 1));
                }
            },
            Some(d) => {
                let u = s.fund(id as int).user_id;
                assert(Self::increased(mid, s2, u, d, ext));
                if mx >= bal {
                    assert(Self::deleted(s, mid, id as int));
                    if max2 != Some(0u128) {
                        let ss = s.type_list(src);
                        lemma_order_facts(ss, dir, id);
                        lemma_order_remove(ss, dir, id);
                        lemma_remove_index(ss, ss.index_of(id));
                        assert(mid.type_list(src) == ss.remove(ss.index_of(id)));
                        assert(o.remove(p.len() as int) =~= p + l.skip(k + 1));
                        assert(ext == bal);
                        match mid.coalesce_target(u, d) {
                            Some(t) => {
                                assert(Self::balance_set(mid, s2, t as int, (mid.fund(t as int).balance + ext) as u128));
                                assert forall|j: int| k + 1 <= j < l.len() implies same_fund(#[trigger] s2.fund(l[j] as int), old.fund(l[j] as int)) by {
                                    assert(l[j] != id);
                                    assert(same_fund(s.fund(l[j] as int), old.fund(l[j] as int)));
                                    assert(s0.contains(l[j]));
                                    let q = choose|q: int| 0 <= q < s0.len() && s0[q] == l[j];
                                    assert(spec_fund_type(old.fund(l[j] as int).fund_desc) == src);
                                    assert(l[j] as int != t as int);
                                }
                            },
                            None => {
                                assert(Self::created(mid, s2, u, d, ext));
                                assert forall|j: int| k + 1 <= j < l.len() implies same_fund(#[trigger] s2.fund(l[j] as int), old.fund(l[j] as int)) by {
                                    assert(l[j] != id);
                                    assert(same_fund(s.fund(l[j] as int), old.fund(l[j] as int)));
                                    assert(s0.contains(l[j]));
                                    let q = choose|q: int| 0 <= q < s0.len() && s0[q] == l[j];
                                    assert(l[j] as int <= old.max_id());
                                }
                            },
                        }
                        assert(s2.type_list(src) == mid.type_list(src));
                        assert(Self::walk_left(old, s2, src, dir, f, k + 1));
                    }
                } else {
                    assert(max2 == Some(0u128));
                }
            },
        }
    }

    /// A walk over the list of type `src` with a maximum `m`, converting to other types what
    /// the filter `f` converts, that ran to its end (the end of the list or an exhausted
    /// maximum) converts `min(m, E)`, where `E` is the stake of the funds of the list that `f`
    /// converts. This is what `split_convert_max_by_type` does when it was not interrupted.
    pub proof fn law_walk_converts_min(
        old: FundModule,
        src: FundType,
        dir: SwapDirection,
        f: spec_fn(usize, FundDescription) -> Option<FundDescription>,
        g: spec_fn(usize, FundDescription, Option<FundDescription>) -> bool,
        tr: ConvertTrace,
        m: u128,
    )
        requires
            old.wf(),
            forall|u: usize, x: FundDescription, o: Option<FundDescription>| #[trigger] g(u, x, o) ==> o == f(u, x),
            forall|u: usize, x: FundDescription| #[trigger] f(u, x) matches Some(d) ==> spec_fund_type(d) != src,
            Self::type_walk(old, src, dir, g, false, tr),
            tr.maxes[0] == Some(m),
            Self::type_walk_next(old, src, dir, tr) == 0 || tr.maxes.last() == Some(0u128),
        ensures
            tr.maxes.last() is Some,
            m - tr.maxes.last().unwrap() == min_of_int(m as int, accepted_sum(old, walk_order(old.type_list(src), dir), f)),
    {
        let s0 = old.type_list(src);
        let l = walk_order(s0, dir);
        let n = tr.cursors.len() as int;
        old.lemma_type_list_shape(src);
        lemma_order_facts(s0, dir, 0);
        Self::lemma_trace_start(old, src, dir, g, false, tr);
        Self::lemma_walk_converts(old, src, dir, f, g, tr, m, n);
        lemma_accepted_bounds(old, l, f, n);
        assert(tr.maxes.last() == tr.maxes[n]);
        if tr.maxes.last() != Some(0u128) {
            if n == 0 {
                assert(s0.len() == 0);
            } else {
                assert(Self::walk_left(old, tr.states[n - 1], src, dir, f, n - 1));
                Self::lemma_next_visited(old, tr.states[n - 1], src, dir, f, n - 1);
                assert(tr.cursors[n - 1] == l[n - 1]);
                if n < l.len() {
                    assert(s0.contains(l[n]));
                    let q = choose|q: int| 0 <= q < s0.len() && s0[q] == l[n];
                }
            }
            assert(n == l.len());
            assert(l.take(n) =~= l);
        }
    }

    /// `s` is `old` after a walk over the list of user `u` and type `src`, in direction `dir`,
    /// went through its first `i` funds in walk order, taking out those that `f` converts.
    #[verifier::opaque]
    pub open spec fn user_walk_left(
        old: FundModule,
        s: FundModule,
        u: usize,
        src: FundType,
        dir: SwapDirection,
        f: spec_fn(usize, FundDescription) -> Option<FundDescription>,
        i: int,
    ) -> bool {
        let l = walk_order(old.user_list(u, src), dir);
        &&& 0 <= i <= l.len()
        &&& no_dup(s.user_list(u, src))
        &&& walk_order(s.user_list(u, src), dir) == rejected(old, l.take(i), f) + l.skip(i)
        &&& forall|k: int| i <= k < l.len() ==> same_fund(#[trigger] s.fund(l[k] as int), old.fund(l[k] as int))
        &&& s.max_id() >= old.max_id()
    }

    proof fn lemma_user_trace_start(
        old: FundModule,
        u: usize,
        src: FundType,
        dir: SwapDirection,
        g: spec_fn(FundDescription, Option<FundDescription>) -> bool,
        tr: ConvertTrace,
    )
        requires
            Self::user_walk(old, u, src, dir, g, tr),
        ensures
            tr.states[0] == old,
            tr.states.len() == tr.cursors.len() + 1,
            tr.maxes.len() == tr.cursors.len() + 1,
            tr.mids.len() == tr.cursors.len(),
            tr.results.len() == tr.cursors.len(),
            tr.extracted.len() == tr.cursors.len(),
            tr.cursors.len() > 0 ==> tr.cursors[0] == walk_start(old.user_list(u, src), dir),
    {
        reveal(FundModule::user_walk);
    }

    proof fn lemma_user_trace_at(
        old: FundModule,
        u: usize,
        src: FundType,
        dir: SwapDirection,
        g: spec_fn(FundDescription, Option<FundDescription>) -> bool,
        tr: ConvertTrace,
        k: int,
    )
        requires
            Self::user_walk(old, u, src, dir, g, tr),
            0 <= k < tr.cursors.len(),
        ensures
            Self::converted(
                tr.states[k],
                tr.mids[k],
                tr.states[k + 1],
                tr.cursors[k] as int,
                tr.results[k],
                tr.maxes[k],
                tr.maxes[k + 1],
                tr.extracted[k],
            ),
            g(tr.states[k].fund(tr.cursors[k] as int).fund_desc, tr.results[k]),
            tr.maxes[k] != Some(0u128),
            tr.cursors[k] != 0,
            k == 0 ==> tr.cursors[k] == walk_start(old.user_list(u, src), dir),
            k > 0 ==> tr.cursors[k] == walk_next(tr.states[k - 1].user_list(u, src), tr.cursors[k - 1], dir),
    {
        reveal(FundModule::user_walk);
    }

    /// After step `j` of a walk over a user list, the walk goes on to fund `j + 1` in walk
    /// order, or stops at the end.
    proof fn lemma_user_next_visited(
        old: FundModule,
        s: FundModule,
        u: usize,
        src: FundType,
        dir: SwapDirection,
        f: spec_fn(usize, FundDescription) -> Option<FundDescription>,
        j: int,
    )
        requires
            old.wf(),
            Self::user_walk_left(old, s, u, src, dir, f, j),
            j < walk_order(old.user_list(u, src), dir).len(),
        ensures
            s.user_list(u, src).contains(walk_order(old.user_list(u, src), dir)[j]),
            walk_next(s.user_list(u, src), walk_order(old.user_list(u, src), dir)[j], dir) == (if j + 1 < walk_order(
                old.user_list(u, src),
                dir,
            ).len() {
                walk_order(old.user_list(u, src), dir)[j + 1]
            } else {
                0
            }),
            walk_order(s.user_list(u, src), dir).index_of(walk_order(old.user_list(u, src), dir)[j]) == rejected(
                old,
                walk_order(old.user_list(u, src), dir).take(j),
                f,
            ).len(),
    {
        reveal(FundModule::user_walk_left);
        let s0 = old.user_list(u, src);
        let l = walk_order(s0, dir);
        old.lemma_user_list_shape(u, src);
        lemma_order_facts(s0, dir, 0);
        let p = rejected(old, l.take(j), f);
        let o = walk_order(s.user_list(u, src), dir);
        let id = l[j];
        assert(o[p.len() as int] == id);
        lemma_order_facts(s.user_list(u, src), dir, id);
        assert(o.contains(id));
        lemma_index_of_unique(o, p.len() as int);
        if j + 1 < l.len() {
            assert(o[(p.len() + 1) as int] == l[j + 1]);
        }
    }

    /// What the fund at position `k` of the walk order of a user list is.
    proof fn lemma_user_list_member(old: FundModule, u: usize, src: FundType, dir: SwapDirection, k: int)
        requires
            old.wf(),
            0 <= k < walk_order(old.user_list(u, src), dir).len(),
        ensures
            ({
                let id = walk_order(old.user_list(u, src), dir)[k];
                &&& old.user_list(u, src).contains(id)
                &&& old.fund(id as int).user_id == u
                &&& spec_fund_type(old.fund(id as int).fund_desc) == src
                &&& old.fund(id as int).balance > 0
                &&& 1 <= id <= old.max_id()
            }),
            no_dup(old.user_list(u, src)),
            no_dup(walk_order(old.user_list(u, src), dir)),
    {
        let s0 = old.user_list(u, src);
        old.lemma_user_list_shape(u, src);
        lemma_order_facts(s0, dir, 0);
        let l = walk_order(s0, dir);
        let id = l[k];
        assert(s0.contains(id));
        let q = choose|q: int| 0 <= q < s0.len() && s0[q] == id;
    }

    /// Adding funds of another type leaves a user list of type `src` and its funds alone.
    proof fn lemma_increase_keeps_user_list(mid: FundModule, s2: FundModule, w: usize, d: FundDescription, ext: u128, u: usize, src: FundType)
        requires
            Self::increased(mid, s2, w, d, ext),
            spec_fund_type(d) != src,
        ensures
            s2.user_list(u, src) == mid.user_list(u, src),
            s2.max_id() >= mid.max_id(),
            forall|j: int|
                0 <= j <= mid.max_id() && spec_fund_type(mid.fund(j).fund_desc) == src ==> same_fund(
                    #[trigger] s2.fund(j),
                    mid.fund(j),
                ),
    {
        if ext > 0 {
            match mid.coalesce_target(w, d) {
                Some(t) => {
                    assert(Self::balance_set(mid, s2, t as int, (mid.fund(t as int).balance + ext) as u128));
                },
                None => {
                    assert(Self::created(mid, s2, w, d, ext));
                    assert((w, spec_fund_type(d)) != (u, src));
                },
            }
        }
    }

    /// What one conversion of fund `id` with a maximum `mx` does.
    proof fn lemma_converted_facts(
        s: FundModule,
        mid: FundModule,
        s2: FundModule,
        id: int,
        res: Option<FundDescription>,
        mx: u128,
        max2: Option<u128>,
        ext: u128,
    )
        requires
            Self::converted(s, mid, s2, id, res, Some(mx), max2, ext),
        ensures
            res is None ==> s2 == s && max2 == Some(mx),
            res matches Some(d) ==> {
                let bal = s.fund(id).balance;
                &&& max2 == Some(if mx >= bal { (mx - bal) as u128 } else { 0u128 })
                &&& mx >= bal ==> Self::deleted(s, mid, id) && ext == bal
                &&& Self::increased(mid, s2, s.fund(id).user_id, d, ext)
            },
    {
        reveal(FundModule::converted);
    }

    /// One step of a walk over a user list, at fund `k` in walk order.
    #[verifier::spinoff_prover]
    #[verifier::rlimit(100)]
    proof fn lemma_user_converting_step(
        old: FundModule,
        u: usize,
        src: FundType,
        dir: SwapDirection,
        f: spec_fn(usize, FundDescription) -> Option<FundDescription>,
        k: int,
        s: FundModule,
        mid: FundModule,
        s2: FundModule,
        res: Option<FundDescription>,
        m: u128,
        mx: u128,
        max2: Option<u128>,
        ext: u128,
    )
        requires
            old.wf(),
            forall|w: usize, x: FundDescription| #[trigger] f(w, x) matches Some(d) ==> spec_fund_type(d) != src,
            0 <= k < walk_order(old.user_list(u, src), dir).len(),
            Self::user_walk_left(old, s, u, src, dir, f, k),
            mx != 0,
            m - mx == min_of_int(m as int, accepted_sum(old, walk_order(old.user_list(u, src), dir).take(k), f)),
            res == f(s.fund(walk_order(old.user_list(u, src), dir)[k] as int).user_id, s.fund(
                walk_order(old.user_list(u, src), dir)[k] as int,
            ).fund_desc),
            Self::converted(s, mid, s2, walk_order(old.user_list(u, src), dir)[k] as int, res, Some(mx), max2, ext),
        ensures
            max2 is Some,
            m - max2.unwrap() == min_of_int(m as int, accepted_sum(old, walk_order(old.user_list(u, src), dir).take(k + 1), f)),
            max2 != Some(0u128) ==> Self::user_walk_left(old, s2, u, src, dir, f, k + 1),
    {
        let l = walk_order(old.user_list(u, src), dir);
        Self::lemma_user_list_member(old, u, src, dir, k);
        let id = l[k];
        let bal = old.fund(id as int).balance;
        assert(same_fund(s.fund(id as int), old.fund(id as int))) by {
            reveal(FundModule::user_walk_left);
        }
        lemma_accepted_step(old, l, f, k);
        lemma_accepted_nonneg(old, l.take(k), f);
        Self::lemma_converted_facts(s, mid, s2, id as int, res, mx, max2, ext);
        if max2 != Some(0u128) {
            match res {
                None => {
                    Self::lemma_user_keep_step(old, u, src, dir, f, k, s);
                },
                Some(d) => {
                    Self::lemma_user_take_step(old, u, src, dir, f, k, s, mid, s2, d, ext);
                },
            }
        }
    }

    /// A step that leaves the fund alone keeps it in the list, among the funds left alone.
    #[verifier::spinoff_prover]
    #[verifier::rlimit(100)]
    proof fn lemma_user_keep_step(
        old: FundModule,
        u: usize,
        src: FundType,
        dir: SwapDirection,
        f: spec_fn(usize, FundDescription) -> Option<FundDescription>,
        k: int,
        s: FundModule,
    )
        requires
            0 <= k < walk_order(old.user_list(u, src), dir).len(),
            Self::user_walk_left(old, s, u, src, dir, f, k),
            f(old.fund(walk_order(old.user_list(u, src), dir)[k] as int).user_id, old.fund(
                walk_order(old.user_list(u, src), dir)[k] as int,
            ).fund_desc) is None,
        ensures
            Self::user_walk_left(old, s, u, src, dir, f, k + 1),
    {
        let l = walk_order(old.user_list(u, src), dir);
        lemma_accepted_step(old, l, f, k);
        let p = rejected(old, l.take(k), f);
        assert(p.push(l[k]) + l.skip(k + 1) =~= p + l.skip(k));
        reveal(FundModule::user_walk_left);
    }

    /// What `user_walk_left` says, clause by clause.
    proof fn lemma_user_walk_left_unfold(
        old: FundModule,
        s: FundModule,
        u: usize,
        src: FundType,
        dir: SwapDirection,
        f: spec_fn(usize, FundDescription) -> Option<FundDescription>,
        i: int,
    )
        requires
            Self::user_walk_left(old, s, u, src, dir, f, i),
        ensures
            0 <= i <= walk_order(old.user_list(u, src), dir).len(),
            no_dup(s.user_list(u, src)),
            walk_order(s.user_list(u, src), dir) == rejected(old, walk_order(old.user_list(u, src), dir).take(i), f)
                + walk_order(old.user_list(u, src), dir).skip(i),
            forall|k: int|
                i <= k < walk_order(old.user_list(u, src), dir).len() ==> same_fund(
                    #[trigger] s.fund(walk_order(old.user_list(u, src), dir)[k] as int),
                    old.fund(walk_order(old.user_list(u, src), dir)[k] as int),
                ),
            s.max_id() >= old.max_id(),
    {
        reveal(FundModule::user_walk_left);
    }

    /// Taking the fund at position `k` of the walk order out of the user list leaves the funds
    /// that were let alone before it and the funds not visited yet.
    #[verifier::spinoff_prover]
    #[verifier::rlimit(100)]
    proof fn lemma_user_take_list(
        old: FundModule,
        u: usize,
        src: FundType,
        dir: SwapDirection,
        f: spec_fn(usize, FundDescription) -> Option<FundDescription>,
        k: int,
        s: FundModule,
        mid: FundModule,
    )
        requires
            old.wf(),
            0 <= k < walk_order(old.user_list(u, src), dir).len(),
            Self::user_walk_left(old, s, u, src, dir, f, k),
            f(old.fund(walk_order(old.user_list(u, src), dir)[k] as int).user_id, old.fund(
                walk_order(old.user_list(u, src), dir)[k] as int,
            ).fund_desc) is Some,
            Self::deleted(s, mid, walk_order(old.user_list(u, src), dir)[k] as int),
        ensures
            no_dup(mid.user_list(u, src)),
            walk_order(mid.user_list(u, src), dir) == rejected(
                old,
                walk_order(old.user_list(u, src), dir).take(k + 1),
                f,
            ) + walk_order(old.user_list(u, src), dir).skip(k + 1),
            mid.max_id() >= old.max_id(),
    {
        let l = walk_order(old.user_list(u, src), dir);
        Self::lemma_user_list_member(old, u, src, dir, k);
        let id = l[k];
        lemma_accepted_step(old, l, f, k);
        let p = rejected(old, l.take(k), f);
        Self::lemma_user_walk_left_unfold(old, s, u, src, dir, f, k);
        assert(same_fund(s.fund(id as int), old.fund(id as int)));
        let ss = s.user_list(u, src);
        let rest = l.skip(k);
        assert(rest[0] == id);
        assert(rest.skip(1) =~= l.skip(k + 1));
        lemma_order_take_out(ss, dir, p, rest);
        assert(mid.user_list(u, src) == ss.remove(ss.index_of(id)));
    }

    /// The funds not visited yet are untouched when the fund at position `k` is taken out.
    #[verifier::spinoff_prover]
    #[verifier::rlimit(100)]
    proof fn lemma_user_take_rest(
        old: FundModule,
        u: usize,
        src: FundType,
        dir: SwapDirection,
        f: spec_fn(usize, FundDescription) -> Option<FundDescription>,
        k: int,
        s: FundModule,
        mid: FundModule,
    )
        requires
            old.wf(),
            0 <= k < walk_order(old.user_list(u, src), dir).len(),
            Self::user_walk_left(old, s, u, src, dir, f, k),
            Self::deleted(s, mid, walk_order(old.user_list(u, src), dir)[k] as int),
        ensures
            forall|j: int|
                k + 1 <= j < walk_order(old.user_list(u, src), dir).len() ==> {
                    let id = #[trigger] walk_order(old.user_list(u, src), dir)[j];
                    &&& same_fund(mid.fund(id as int), old.fund(id as int))
                    &&& spec_fund_type(mid.fund(id as int).fund_desc) == src
                    &&& 0 <= id <= mid.max_id()
                },
    {
        let l = walk_order(old.user_list(u, src), dir);
        let id = l[k];
        Self::lemma_user_walk_left_unfold(old, s, u, src, dir, f, k);
        Self::lemma_user_list_member(old, u, src, dir, k);
        assert forall|j: int| k + 1 <= j < l.len() implies {
            let jd = #[trigger] l[j];
            &&& same_fund(mid.fund(jd as int), old.fund(jd as int))
            &&& spec_fund_type(mid.fund(jd as int).fund_desc) == src
            &&& 0 <= jd <= mid.max_id()
        } by {
            Self::lemma_user_list_member(old, u, src, dir, j);
            assert(l[j] != id);
            assert(same_fund(s.fund(l[j] as int), old.fund(l[j] as int)));
        }
    }

    /// A step that converts the whole fund takes it out of the list.
    proof fn lemma_user_take_step(
        old: FundModule,
        u: usize,
        src: FundType,
        dir: SwapDirection,
        f: spec_fn(usize, FundDescription) -> Option<FundDescription>,
        k: int,
        s: FundModule,
        mid: FundModule,
        s2: FundModule,
        d: FundDescription,
        ext: u128,
    )
        requires
            old.wf(),
            spec_fund_type(d) != src,
            0 <= k < walk_order(old.user_list(u, src), dir).len(),
            Self::user_walk_left(old, s, u, src, dir, f, k),
            f(old.fund(walk_order(old.user_list(u, src), dir)[k] as int).user_id, old.fund(
                walk_order(old.user_list(u, src), dir)[k] as int,
            ).fund_desc) is Some,
            Self::deleted(s, mid, walk_order(old.user_list(u, src), dir)[k] as int),
            Self::increased(mid, s2, s.fund(walk_order(old.user_list(u, src), dir)[k] as int).user_id, d, ext),
        ensures
            Self::user_walk_left(old, s2, u, src, dir, f, k + 1),
    {
        let l = walk_order(old.user_list(u, src), dir);
        let id = l[k];
        Self::lemma_user_take_list(old, u, src, dir, f, k, s, mid);
        Self::lemma_user_take_rest(old, u, src, dir, f, k, s, mid);
        let w = s.fund(id as int).user_id;
        Self::lemma_increase_keeps_user_list(mid, s2, w, d, ext, u, src);
        assert forall|j: int| k + 1 <= j < l.len() implies same_fund(#[trigger] s2.fund(l[j] as int), old.fund(l[j] as int)) by {
            let jd = l[j];
            assert(same_fund(mid.fund(jd as int), old.fund(jd as int)));
            assert(same_fund(s2.fund(jd as int), mid.fund(jd as int)));
        }
        reveal(FundModule::user_walk_left);
    }

    /// A walk over the list of user `u` and type `src`, as in `lemma_walk_converts`.
    #[verifier::spinoff_prover]
    #[verifier::rlimit(100)]
    pub proof fn lemma_user_walk_converts(
        old: FundModule,
        u: usize,
        src: FundType,
        dir: SwapDirection,
        f: spec_fn(usize, FundDescription) -> Option<FundDescription>,
        g: spec_fn(FundDescription, Option<FundDescription>) -> bool,
        tr: ConvertTrace,
        m: u128,
        i: int,
    )
        requires
            old.wf(),
            forall|x: FundDescription, o: Option<FundDescription>| #[trigger] g(x, o) ==> o == f(u, x),
            forall|w: usize, x: FundDescription| #[trigger] f(w, x) matches Some(d) ==> spec_fund_type(d) != src,
            Self::user_walk(old, u, src, dir, g, tr),
            tr.maxes[0] == Some(m),
            0 <= i <= tr.cursors.len(),
        ensures
            i <= old.user_list(u, src).len(),
            tr.maxes[i] is Some,
            m - tr.maxes[i].unwrap() == min_of_int(m as int, accepted_sum(old, walk_order(old.user_list(u, src), dir).take(i), f)),
            forall|k: int| 0 <= k < i ==> #[trigger] tr.cursors[k] == walk_order(old.user_list(u, src), dir)[k],
            forall|j: int| 0 <= j <= i && j < tr.cursors.len() ==> Self::user_walk_left(old, #[trigger] tr.states[j], u, src, dir, f, j),
        decreases i,
    {
        let s0 = old.user_list(u, src);
        let l = walk_order(s0, dir);
        Self::lemma_user_trace_start(old, u, src, dir, g, tr);
        if i == 0 {
            if tr.cursors.len() > 0 {
                assert(Self::user_walk_left(old, tr.states[0], u, src, dir, f, 0)) by {
                    reveal(FundModule::user_walk_left);
                    old.lemma_user_list_shape(u, src);
                    assert(l.take(0) =~= Seq::<usize>::empty());
                    assert(rejected(old, l.take(0), f) + l.skip(0) =~= l);
                }
            }
            assert(l.take(0) =~= Seq::<usize>::empty());
            assert(s0.len() == l.len()) by {
                old.lemma_user_list_shape(u, src);
                lemma_order_facts(s0, dir, 0);
            }
        } else {
            let k = i - 1;
            Self::lemma_user_walk_converts(old, u, src, dir, f, g, tr, m, k);
            Self::lemma_user_trace_at(old, u, src, dir, g, tr, k);
            let sk = tr.states[k];
            assert(Self::user_walk_left(old, sk, u, src, dir, f, k));
            assert(k < l.len() && tr.cursors[k] == l[k]) by {
                if k == 0 {
                    old.lemma_user_list_shape(u, src);
                    lemma_order_facts(s0, dir, 0);
                } else {
                    let sp = tr.states[k - 1];
                    assert(Self::user_walk_left(old, sp, u, src, dir, f, k - 1));
                    Self::lemma_user_next_visited(old, sp, u, src, dir, f, k - 1);
                }
            }
            Self::lemma_user_list_member(old, u, src, dir, k);
            assert(same_fund(sk.fund(l[k] as int), old.fund(l[k] as int))) by {
                reveal(FundModule::user_walk_left);
            }
            assert(tr.results[k] == f(sk.fund(l[k] as int).user_id, sk.fund(l[k] as int).fund_desc));
            Self::lemma_user_converting_step(old, u, src, dir, f, k, sk, tr.mids[k], tr.states[k + 1], tr.results[k], m, tr.maxes[k].unwrap(), tr.maxes[k + 1], tr.extracted[k]);
            if i < tr.cursors.len() {
                Self::lemma_user_trace_at(old, u, src, dir, g, tr, i);
            }
        }
    }

    /// A walk of `split_convert_max_by_user` over the list of user `u` and type `src` with a
    /// maximum `m`, converting to other types what `f` converts, that ran to its end converts
    /// `min(m, E)`, where `E` is the stake of the user's funds of that type that `f` converts.
    pub proof fn law_user_walk_converts_min(
        old: FundModule,
        u: usize,
        src: FundType,
        dir: SwapDirection,
        f: spec_fn(usize, FundDescription) -> Option<FundDescription>,
        g: spec_fn(FundDescription, Option<FundDescription>) -> bool,
        tr: ConvertTrace,
        m: u128,
    )
        requires
            old.wf(),
            forall|x: FundDescription, o: Option<FundDescription>| #[trigger] g(x, o) ==> o == f(u, x),
            forall|w: usize, x: FundDescription| #[trigger] f(w, x) matches Some(d) ==> spec_fund_type(d) != src,
            Self::user_walk(old, u, src, dir, g, tr),
            tr.maxes[0] == Some(m),
            Self::user_walk_next(old, u, src, dir, tr) == 0 || tr.maxes.last() == Some(0u128),
        ensures
            tr.maxes.last() is Some,
            m - tr.maxes.last().unwrap() == min_of_int(m as int, accepted_sum(old, walk_order(old.user_list(u, src), dir), f)),
    {
        let s0 = old.user_list(u, src);
        let l = walk_order(s0, dir);
        let n = tr.cursors.len() as int;
        old.lemma_user_list_shape(u, src);
        lemma_order_facts(s0, dir, 0);
        Self::lemma_user_trace_start(old, u, src, dir, g, tr);
        Self::lemma_user_walk_converts(old, u, src, dir, f, g, tr, m, n);
        lemma_accepted_bounds(old, l, f, n);
        assert(tr.maxes.last() == tr.maxes[n]);
        if tr.maxes.last() != Some(0u128) {
            if n == 0 {
                assert(s0.len() == 0);
            } else {
                assert(Self::user_walk_left(old, tr.states[n - 1], u, src, dir, f, n - 1));
                Self::lemma_user_next_visited(old, tr.states[n - 1], u, src, dir, f, n - 1);
                assert(tr.cursors[n - 1] == l[n - 1]);
                if n < l.len() {
                    assert(s0.contains(l[n]));
                    let q = choose|q: int| 0 <= q < s0.len() && s0[q] == l[n];
                }
            }
            assert(n == l.len());
            assert(l.take(n) =~= l);
        }
    }

    /// Id that the walk over the type list described by `tr` would visit next.
    pub open spec fn type_walk_next(old: FundModule, src: FundType, dir: SwapDirection, tr: ConvertTrace) -> usize {
        let n = tr.cursors.len();
        if n == 0 {
            walk_start(old.type_list(src), dir)
        } else {
            walk_next(tr.states[n - 1].type_list(src), tr.cursors[n - 1], dir)
        }
    }

    /// Owners of the funds visited by the walk `tr`, in the order of the visits.
    pub open spec fn visited_users(tr: ConvertTrace) -> Seq<usize> {
        Seq::new(tr.cursors.len(), |i: int| tr.states[i].fund(tr.cursors[i] as int).user_id)
    }

    /// One visited fund of a type list: where the walk goes next and that it gets shorter.
    #[verifier::spinoff_prover]
    proof fn lemma_type_walk_step(
        before: FundModule,
        mid: FundModule,
        after: FundModule,
        id: usize,
        res: Option<FundDescription>,
        max_b: Option<u128>,
        max_a: Option<u128>,
        ext: u128,
        src: FundType,
        dir: SwapDirection,
        dry: bool,
    )
        requires
            before.wf(),
            res is Some && !dry ==> mid.wf(),
            before.type_list(src).contains(id),
            Self::walk_step(dry, before, mid, after, id as int, res, max_b, max_a, ext),
            res matches Some(d) ==> spec_fund_type(d) != src,
        ensures
            walk_next(before.type_list(src), id, dir) == 0 || after.type_list(src).contains(
                walk_next(before.type_list(src), id, dir),
            ),
            walk_remaining(after.type_list(src), walk_next(before.type_list(src), id, dir), dir)
                < walk_remaining(before.type_list(src), id, dir),
    {
        reveal(FundModule::walk_step);
        reveal(FundModule::converted);
        let s = before.type_list(src);
        before.lemma_type_list_shape(src);
        let k = s.index_of(id);
        assert(0 <= k < s.len() && s[k] == id);
        assert(spec_fund_type(before.fund(id as int).fund_desc) == src);
        let nx = walk_next(s, id, dir);
        let ms: Seq<usize> = if dry {
            s
        } else {
            match res {
                None => s,
                Some(d) => mid.type_list(src),
            }
        };
        if !dry {
            match res {
                None => {},
                Some(d) => {
                    Self::lemma_increase_keeps_other(mid, after, before.fund(id as int).user_id, d, ext, src);
                },
            }
        }
        assert(after.type_list(src) == ms);
        let full = !dry && match res {
            None => false,
            Some(d) => match max_b {
                Some(m) => m >= before.fund(id as int).balance,
                None => true,
            },
        };
        if full {
            assert(ms == s.remove(k));
            lemma_remove_index(s, k);
            if dir == SwapDirection::Forwards {
                if k + 1 < s.len() {
                    assert(ms[k] == nx);
                    lemma_index_of_unique(ms, k);
                }
            } else {
                if k > 0 {
                    assert(ms[k - 1] == nx);
                    lemma_index_of_unique(ms, k - 1);
                }
            }
        } else {
            assert(ms == s);
            if dir == SwapDirection::Forwards {
                if k + 1 < s.len() {
                    lemma_index_of_unique(s, k + 1);
                }
            } else {
                if k > 0 {
                    lemma_index_of_unique(s, k - 1);
                }
            }
        }
    }

    #[verifier::spinoff_prover]
    #[verifier::rlimit(60)]
    proof fn lemma_type_trace_push(
        old: FundModule,
        src: FundType,
        dir: SwapDirection,
        g: spec_fn(usize, FundDescription, Option<FundDescription>) -> bool,
        dry: bool,
        tr: ConvertTrace,
        mid: FundModule,
        after: FundModule,
        id: usize,
        res: Option<FundDescription>,
        max_a: Option<u128>,
        ext: u128,
    )
        requires
            Self::type_walk(old, src, dir, g, dry, tr),
            id != 0,
            id == Self::type_walk_next(old, src, dir, tr),
            tr.maxes.last() != Some(0u128),
            g(tr.states.last().fund(id as int).user_id, tr.states.last().fund(id as int).fund_desc, res),
            Self::walk_step(dry, tr.states.last(), mid, after, id as int, res, tr.maxes.last(), max_a, ext),
        ensures
            Self::type_walk(old, src, dir, g, dry, Self::trace_push(tr, mid, after, id, res, max_a, ext)),
            Self::type_walk_next(old, src, dir, Self::trace_push(tr, mid, after, id, res, max_a, ext))
                == walk_next(tr.states.last().type_list(src), id, dir),
            Self::trace_push(tr, mid, after, id, res, max_a, ext).states.last() == after,
            Self::trace_push(tr, mid, after, id, res, max_a, ext).maxes.last() == max_a,
            Self::trace_push(tr, mid, after, id, res, max_a, ext).maxes[0] == tr.maxes[0],
            Self::visited_users(Self::trace_push(tr, mid, after, id, res, max_a, ext)) == Self::visited_users(tr).push(
                tr.states.last().fund(id as int).user_id,
            ),
    {
        reveal(FundModule::type_walk);
        let n = tr.cursors.len();
        let tr2 = Self::trace_push(tr, mid, after, id, res, max_a, ext);
        assert(tr.states.last() == tr.states[n as int]);
        assert(tr.maxes.last() == tr.maxes[n as int]);
        assert forall|i: int| 0 <= i < n + 1 implies Self::walk_step(
            dry,
            tr2.states[i],
            tr2.mids[i],
            tr2.states[i + 1],
            #[trigger] tr2.cursors[i] as int,
            tr2.results[i],
            tr2.maxes[i],
            tr2.maxes[i + 1],
            tr2.extracted[i],
        ) by {
            if i < n {
                assert(tr2.cursors[i] == tr.cursors[i]);
            }
        }
        assert forall|i: int| 0 <= i < n + 1 implies g(
            tr2.states[i].fund(#[trigger] tr2.cursors[i] as int).user_id,
            tr2.states[i].fund(tr2.cursors[i] as int).fund_desc,
            tr2.results[i],
        ) by {
            if i < n {
                assert(tr2.cursors[i] == tr.cursors[i]);
            }
        }
        assert forall|i: int| 0 <= i < n + 1 implies #[trigger] tr2.maxes[i] != Some(0u128) by {
            if i < n {
                assert(tr2.maxes[i] == tr.maxes[i]);
            }
        }
        assert forall|i: int| 0 <= i < n + 1 implies #[trigger] tr2.cursors[i] != 0 by {
            if i < n {
                assert(tr2.cursors[i] == tr.cursors[i]);
            }
        }
        assert forall|i: int| 0 <= i < n + 1 implies #[trigger] tr2.cursors[i] == (if i == 0 {
            walk_start(old.type_list(src), dir)
        } else {
            walk_next(tr2.states[i - 1].type_list(src), tr2.cursors[i - 1], dir)
        }) by {
            if i < n {
                assert(tr2.cursors[i] == tr.cursors[i]);
                if i > 0 {
                    assert(tr2.cursors[i - 1] == tr.cursors[i - 1]);
                }
            }
        }
        assert(Self::visited_users(tr2) =~= Self::visited_users(tr).push(tr.states.last().fund(id as int).user_id));
    }
}

pub proof fn lemma_push_contains(s: Seq<usize>, u: usize)
    ensures
        forall|x: usize| #[trigger] s.push(u).contains(x) <==> (s.contains(x) || x == u),
{
    assert forall|x: usize| #[trigger] s.push(u).contains(x) <==> (s.contains(x) || x == u) by {
        if s.contains(x) {
            assert(s.push(u)[s.index_of(x)] == x);
        }
        if s.push(u).contains(x) {
            let j = s.push(u).index_of(x);
            if j < s.len() {
                assert(s[j] == x);
            }
        }
        assert(s.push(u)[s.len() as int] == u);
    }
}

/// The ids of `s` in the order of a walk in direction `dir`.
pub open spec fn walk_order(s: Seq<usize>, dir: SwapDirection) -> Seq<usize> {
    if dir == SwapDirection::Forwards {
        s
    } else {
        s.reverse()
    }
}

/// The ids `1` to `n`, in increasing order.
pub open spec fn all_ids(n: int) -> Seq<usize> {
    Seq::new(n as nat, |k: int| (k + 1) as usize)
}

pub proof fn lemma_sum_concat(items: Seq<FundItem>, a: Seq<usize>, b: Seq<usize>)
    ensures
        sum_balances(items, a + b) == sum_balances(items, a) + sum_balances(items, b),
    decreases b.len(),
{
    if b.len() > 0 {
        lemma_sum_concat(items, a, b.drop_last());
        assert((a + b).drop_last() =~= a + b.drop_last());
    } else {
        assert(a + b =~= a);
    }
}

/// Sum of the balances of the items with the ids in `s` whose entry in `keep` is true.
pub open spec fn filtered_sum(items: Seq<FundItem>, s: Seq<usize>, keep: Seq<bool>) -> int
    decreases s.len(),
{
    if s.len() == 0 {
        0
    } else {
        filtered_sum(items, s.drop_last(), keep.drop_last()) + (if keep.last() {
            items[s.last() as int].balance as int
        } else {
            0
        })
    }
}

/// Number of true entries in `keep`.
pub open spec fn count_kept(keep: Seq<bool>) -> int
    decreases keep.len(),
{
    if keep.len() == 0 {
        0
    } else {
        count_kept(keep.drop_last()) + (if keep.last() {
            1int
        } else {
            0
        })
    }
}

pub proof fn lemma_filtered_le(items: Seq<FundItem>, s: Seq<usize>, keep: Seq<bool>)
    ensures
        0 <= filtered_sum(items, s, keep) <= sum_balances(items, s),
    decreases s.len(),
{
    if s.len() > 0 {
        lemma_filtered_le(items, s.drop_last(), keep.drop_last());
    }
}

pub proof fn lemma_prefix_sum_le(items: Seq<FundItem>, s: Seq<usize>, k: int)
    requires
        0 <= k <= s.len(),
    ensures
        sum_balances(items, s.take(k)) <= sum_balances(items, s),
    decreases s.len() - k,
{
    if k < s.len() {
        lemma_prefix_sum_le(items, s, k + 1);
        assert(s.take(k + 1).drop_last() =~= s.take(k));
    } else {
        assert(s.take(k) =~= s);
    }
}

/// A list of distinct ids in `[lo, hi)` is no longer than `hi - lo`.
pub proof fn lemma_distinct_bounded_len(s: Seq<usize>, lo: int, hi: int)
    requires
        lo <= hi,
        no_dup(s),
        forall|k: int| 0 <= k < s.len() ==> lo <= #[trigger] s[k] < hi,
    ensures
        s.len() <= hi - lo,
{
    let m = s.map_values(|x: usize| x as int);
    assert(m.no_duplicates()) by {
        assert forall|i: int, j: int| 0 <= i < m.len() && 0 <= j < m.len() && i != j implies m[i] != m[j] by {
            if i < j {
                assert(s[i] != s[j]);
            } else {
                assert(s[j] != s[i]);
            }
        }
    }
    m.unique_seq_to_set();
    vstd::set_lib::lemma_int_range(lo, hi);
    assert(m.to_set().subset_of(vstd::set_lib::set_int_range(lo, hi))) by {
        assert forall|x: int| m.to_set().contains(x) implies vstd::set_lib::set_int_range(lo, hi).contains(x) by {
            let k = m.index_of(x);
            assert(m[k] == s[k] as int);
        }
    }
    vstd::set_lib::lemma_len_subset(m.to_set(), vstd::set_lib::set_int_range(lo, hi));
}

/// Whether `s` is strictly increasing.
pub open spec fn strictly_increasing(s: Seq<usize>) -> bool {
    forall|i: int, j: int| 0 <= i < j < s.len() ==> s[i] < s[j]
}

/// The ids in `s` of the funds that user `u` owns, in order.
pub open spec fn owned(items: Seq<FundItem>, s: Seq<usize>, u: usize) -> Seq<usize>
    decreases s.len(),
{
    if s.len() == 0 {
        s
    } else if items[s.last() as int].user_id == u {
        owned(items, s.drop_last(), u).push(s.last())
    } else {
        owned(items, s.drop_last(), u)
    }
}

/// Sum over users `1 ..= n` of the balances in `s` that each owns.
pub open spec fn owner_sums(items: Seq<FundItem>, s: Seq<usize>, n: int) -> int
    decreases n,
{
    if n <= 0 {
        0
    } else {
        owner_sums(items, s, n - 1) + sum_balances(items, owned(items, s, n as usize))
    }
}

/// What `owned` keeps: exactly the ids of `s` owned by `u`, each once when `s` has none twice.
proof fn lemma_owned(items: Seq<FundItem>, s: Seq<usize>, u: usize)
    requires
        no_dup(s),
    ensures
        no_dup(owned(items, s, u)),
        forall|x: usize| owned(items, s, u).contains(x) <==> (s.contains(x) && items[x as int].user_id == u),
    decreases s.len(),
{
    if s.len() > 0 {
        let d = s.drop_last();
        assert(no_dup(d)) by {
            assert forall|a: int, b: int| 0 <= a < b < d.len() implies d[a] != d[b] by {
                assert(d[a] == s[a] && d[b] == s[b]);
            }
        }
        lemma_owned(items, d, u);
        let o = owned(items, d, u);
        let x = s.last();
        assert(!d.contains(x)) by {
            if d.contains(x) {
                let k = choose|k: int| 0 <= k < d.len() && d[k] == x;
                assert(s[k] == s[s.len() - 1]);
            }
        }
        assert forall|y: usize| s.contains(y) <==> (d.contains(y) || y == x) by {
            if s.contains(y) {
                let k = choose|k: int| 0 <= k < s.len() && s[k] == y;
                if k < s.len() - 1 {
                    assert(d[k] == y);
                }
            }
            if d.contains(y) {
                let k = choose|k: int| 0 <= k < d.len() && d[k] == y;
                assert(s[k] == y);
            }
            if y == x {
                assert(s[s.len() - 1] == y);
            }
        }
        if items[x as int].user_id == u {
            let o2 = o.push(x);
            assert(no_dup(o2)) by {
                assert forall|a: int, b: int| 0 <= a < b < o2.len() implies o2[a] != o2[b] by {
                    if b == o2.len() - 1 {
                        assert(o.contains(o2[a]));
                    }
                }
            }
            assert forall|y: usize| o2.contains(y) <==> (o.contains(y) || y == x) by {
                if o2.contains(y) {
                    let k = choose|k: int| 0 <= k < o2.len() && o2[k] == y;
                    if k < o.len() {
                        assert(o[k] == y);
                    }
                }
                if o.contains(y) {
                    let k = choose|k: int| 0 <= k < o.len() && o[k] == y;
                    assert(o2[k] == y);
                }
                if y == x {
                    assert(o2[o.len() as int] == y);
                }
            }
        }
    }
}

/// Splitting the balances of `s` by owner, when every owner is among users `1 ..= n`, loses
/// nothing.
proof fn lemma_sum_by_owner(items: Seq<FundItem>, s: Seq<usize>, n: int)
    requires
        0 <= n <= usize::MAX,
        forall|k: int| 0 <= k < s.len() ==> 1 <= #[trigger] items[s[k] as int].user_id <= n,
    ensures
        sum_balances(items, s) == owner_sums(items, s, n),
    decreases s.len(),
{
    if s.len() == 0 {
        lemma_owner_sums_empty(items, s, n);
    } else {
        let d = s.drop_last();
        assert forall|k: int| 0 <= k < d.len() implies 1 <= #[trigger] items[d[k] as int].user_id <= n by {
            assert(d[k] == s[k]);
        }
        lemma_sum_by_owner(items, d, n);
        let x = s.last();
        assert(1 <= items[s[s.len() - 1] as int].user_id <= n);
        lemma_owner_sums_step(items, s, n, items[x as int].user_id as int);
    }
}

proof fn lemma_owner_sums_empty(items: Seq<FundItem>, s: Seq<usize>, m: int)
    requires
        s.len() == 0,
    ensures
        owner_sums(items, s, m) == 0,
    decreases m,
{
    if m > 0 {
        lemma_owner_sums_empty(items, s, m - 1);
    }
}

/// Adding the last id of `s` to the sums by owner adds its balance once, to its owner `w`.
proof fn lemma_owner_sums_step(items: Seq<FundItem>, s: Seq<usize>, m: int, w: int)
    requires
        s.len() > 0,
        0 <= m <= usize::MAX,
        w == items[s.last() as int].user_id,
        w >= 1,
    ensures
        owner_sums(items, s, m) == owner_sums(items, s.drop_last(), m) + (if w <= m {
            items[s.last() as int].balance as int
        } else {
            0
        }),
    decreases m,
{
    if m > 0 {
        lemma_owner_sums_step(items, s, m - 1, w);
        let d = s.drop_last();
        if m == w {
            assert(owned(items, s, m as usize) == owned(items, d, m as usize).push(s.last()));
            assert(owned(items, d, m as usize).push(s.last()).drop_last() =~= owned(items, d, m as usize));
        } else {
            assert(owned(items, s, m as usize) == owned(items, d, m as usize));
        }
    }
}

/// The next id after `id` in the walk order of `s`, or 0 after the last one.
pub open spec fn order_next(o: Seq<usize>, id: usize) -> usize {
    let j = o.index_of(id);
    if j + 1 < o.len() {
        o[j + 1]
    } else {
        0
    }
}

/// A list without repeated ids read in either direction has no repeated ids, holds the same
/// ids, starts the walk and goes on as the walk does.
proof fn lemma_order_facts(s: Seq<usize>, dir: SwapDirection, id: usize)
    requires
        no_dup(s),
    ensures
        no_dup(walk_order(s, dir)),
        walk_order(s, dir).len() == s.len(),
        forall|x: usize| walk_order(s, dir).contains(x) <==> s.contains(x),
        walk_start(s, dir) == (if s.len() == 0 { 0 } else { walk_order(s, dir)[0] }),
        s.contains(id) ==> walk_next(s, id, dir) == order_next(walk_order(s, dir), id),
{
    let o = walk_order(s, dir);
    if dir == SwapDirection::Backwards {
        assert(no_dup(o)) by {
            assert forall|a: int, b: int| 0 <= a < b < o.len() implies o[a] != o[b] by {
                assert(o[a] == s[s.len() - 1 - a] && o[b] == s[s.len() - 1 - b]);
            }
        }
        assert forall|x: usize| o.contains(x) <==> s.contains(x) by {
            if o.contains(x) {
                let k = choose|k: int| 0 <= k < o.len() && o[k] == x;
                assert(s[s.len() - 1 - k] == x);
            }
            if s.contains(x) {
                let k = choose|k: int| 0 <= k < s.len() && s[k] == x;
                assert(o[s.len() - 1 - k] == x);
            }
        }
        if s.contains(id) {
            let k = s.index_of(id);
            assert(o[s.len() - 1 - k] == id);
            lemma_index_of_unique(o, s.len() - 1 - k);
            if k > 0 {
                assert(o[s.len() - 1 - k + 1] == s[k - 1]);
            }
        }
    } else {
        if s.contains(id) {
            let k = s.index_of(id);
            assert(s[k] == id);
        }
    }
}

/// Taking an id out of a list takes it out of its walk order.
proof fn lemma_order_remove(s: Seq<usize>, dir: SwapDirection, id: usize)
    requires
        no_dup(s),
        s.contains(id),
    ensures
        walk_order(s.remove(s.index_of(id)), dir) == walk_order(s, dir).remove(walk_order(s, dir).index_of(id)),
{
    let k = s.index_of(id);
    assert(s[k] == id);
    let o = walk_order(s, dir);
    lemma_order_facts(s, dir, id);
    if dir == SwapDirection::Backwards {
        let j = s.len() - 1 - k;
        assert(o[j] == id);
        lemma_index_of_unique(o, j);
        assert(s.remove(k).reverse() =~= o.remove(j));
    }
}

/// Taking `rest[0]` out of a list whose walk order is `p + rest` leaves the walk order
/// `p + rest.skip(1)`.
proof fn lemma_order_take_out(ss: Seq<usize>, dir: SwapDirection, p: Seq<usize>, rest: Seq<usize>)
    requires
        no_dup(ss),
        walk_order(ss, dir) == p + rest,
        rest.len() > 0,
    ensures
        ss.contains(rest[0]),
        no_dup(ss.remove(ss.index_of(rest[0]))),
        walk_order(ss.remove(ss.index_of(rest[0])), dir) == p + rest.skip(1),
{
    let id = rest[0];
    let o = walk_order(ss, dir);
    lemma_order_facts(ss, dir, id);
    assert(o[p.len() as int] == id);
    assert(o.contains(id));
    lemma_index_of_unique(o, p.len() as int);
    lemma_order_remove(ss, dir, id);
    lemma_remove_index(ss, ss.index_of(id));
    assert(o.remove(p.len() as int) =~= p + rest.skip(1));
}

/// The smaller of two integers.
pub open spec fn min_of_int(a: int, b: int) -> int {
    if a <= b {
        a
    } else {
        b
    }
}

/// The balances of the funds of `l` that `f` converts.
pub open spec fn accepted_sum(old: FundModule, l: Seq<usize>, f: spec_fn(usize, FundDescription) -> Option<FundDescription>) -> int
    decreases l.len(),
{
    if l.len() == 0 {
        0
    } else {
        accepted_sum(old, l.drop_last(), f) + (if f(old.fund(l.last() as int).user_id, old.fund(l.last() as int).fund_desc) is Some {
            old.fund(l.last() as int).balance as int
        } else {
            0
        })
    }
}

/// The ids of `l` whose funds `f` leaves alone, in order.
pub open spec fn rejected(old: FundModule, l: Seq<usize>, f: spec_fn(usize, FundDescription) -> Option<FundDescription>) -> Seq<usize>
    decreases l.len(),
{
    if l.len() == 0 {
        l
    } else if f(old.fund(l.last() as int).user_id, old.fund(l.last() as int).fund_desc) is None {
        rejected(old, l.drop_last(), f).push(l.last())
    } else {
        rejected(old, l.drop_last(), f)
    }
}

proof fn lemma_accepted_step(
    old: FundModule,
    l: Seq<usize>,
    f: spec_fn(usize, FundDescription) -> Option<FundDescription>,
    i: int,
)
    requires
        0 <= i < l.len(),
    ensures
        accepted_sum(old, l.take(i + 1), f) == accepted_sum(old, l.take(i), f) + (if f(
            old.fund(l[i] as int).user_id,
            old.fund(l[i] as int).fund_desc,
        ) is Some {
            old.fund(l[i] as int).balance as int
        } else {
            0
        }),
        rejected(old, l.take(i + 1), f) == (if f(old.fund(l[i] as int).user_id, old.fund(l[i] as int).fund_desc) is None {
            rejected(old, l.take(i), f).push(l[i])
        } else {
            rejected(old, l.take(i), f)
        }),
{
    assert(l.take(i + 1).drop_last() =~= l.take(i));
    assert(l.take(i + 1).last() == l[i]);
}

proof fn lemma_accepted_bounds(old: FundModule, l: Seq<usize>, f: spec_fn(usize, FundDescription) -> Option<FundDescription>, i: int)
    requires
        0 <= i <= l.len(),
    ensures
        0 <= accepted_sum(old, l.take(i), f) <= accepted_sum(old, l, f),
    decreases l.len() - i,
{
    if i == l.len() {
        assert(l.take(i) =~= l);
        lemma_accepted_nonneg(old, l, f);
    } else {
        lemma_accepted_bounds(old, l, f, i + 1);
        lemma_accepted_step(old, l, f, i);
        lemma_accepted_nonneg(old, l.take(i), f);
    }
}

proof fn lemma_accepted_nonneg(old: FundModule, l: Seq<usize>, f: spec_fn(usize, FundDescription) -> Option<FundDescription>)
    ensures
        0 <= accepted_sum(old, l, f),
    decreases l.len(),
{
    if l.len() > 0 {
        lemma_accepted_nonneg(old, l.drop_last(), f);
    }
}

/// The left-alone ids are ids of `l`, each once when `l` has none twice.
proof fn lemma_rejected_sub(old: FundModule, l: Seq<usize>, f: spec_fn(usize, FundDescription) -> Option<FundDescription>)
    requires
        no_dup(l),
    ensures
        no_dup(rejected(old, l, f)),
        forall|x: usize| rejected(old, l, f).contains(x) ==> l.contains(x),
    decreases l.len(),
{
    if l.len() > 0 {
        let d = l.drop_last();
        assert(no_dup(d)) by {
            assert forall|a: int, b: int| 0 <= a < b < d.len() implies d[a] != d[b] by {
                assert(d[a] == l[a] && d[b] == l[b]);
            }
        }
        lemma_rejected_sub(old, d, f);
        let r = rejected(old, d, f);
        assert forall|x: usize| r.contains(x) implies l.contains(x) by {
            assert(d.contains(x));
            let k = choose|k: int| 0 <= k < d.len() && d[k] == x;
            assert(d[k] == l[k]);
        }
        assert(!r.contains(l.last())) by {
            if r.contains(l.last()) {
                assert(d.contains(l.last()));
                let k = choose|k: int| 0 <= k < d.len() && d[k] == l.last();
                assert(d[k] == l[k]);
                assert(l[k] == l[l.len() - 1]);
            }
        }
        if f(old.fund(l.last() as int).user_id, old.fund(l.last() as int).fund_desc) is None {
            let r2 = r.push(l.last());
            assert(no_dup(r2)) by {
                assert forall|a: int, b: int| 0 <= a < b < r2.len() implies r2[a] != r2[b] by {
                    if b == r2.len() - 1 {
                        assert(r.contains(r2[a]));
                    }
                }
            }
            assert forall|x: usize| r2.contains(x) implies l.contains(x) by {
                let k = choose|k: int| 0 <= k < r2.len() && r2[k] == x;
                if k < r.len() {
                    assert(r.contains(x));
                } else {
                    assert(l[l.len() - 1] == x);
                }
            }
        }
    }
}

/// Two strictly increasing sequences with the same elements are equal.
pub proof fn lemma_sorted_same_elements(a: Seq<usize>, b: Seq<usize>)
    requires
        strictly_increasing(a),
        strictly_increasing(b),
        forall|x: usize| a.contains(x) <==> b.contains(x),
    ensures
        a == b,
    decreases a.len(),
{
    if a.len() == 0 {
        if b.len() > 0 {
            assert(b.contains(b[0]));
        }
        assert(a =~= b);
    } else {
        assert(a.contains(a[0]));
        assert(b.len() > 0);
        assert(b.contains(b[0]));
        let ia = choose|k: int| 0 <= k < a.len() && a[k] == b[0];
        let ib = choose|k: int| 0 <= k < b.len() && b[k] == a[0];
        assert(a[0] == b[0]) by {
            if ia > 0 {
                assert(a[0] < a[ia]);
            }
            if ib > 0 {
                assert(b[0] < b[ib]);
            }
        }
        let a1 = a.drop_first();
        let b1 = b.drop_first();
        assert forall|x: usize| a1.contains(x) <==> b1.contains(x) by {
            if a1.contains(x) {
                let k = choose|k: int| 0 <= k < a1.len() && a1[k] == x;
                assert(a[k + 1] == x && a[0] < a[k + 1]);
                assert(b.contains(x));
                let j = choose|j: int| 0 <= j < b.len() && b[j] == x;
                assert(j != 0);
                assert(b1[j - 1] == x);
            }
            if b1.contains(x) {
                let k = choose|k: int| 0 <= k < b1.len() && b1[k] == x;
                assert(b[k + 1] == x && b[0] < b[k + 1]);
                assert(a.contains(x));
                let j = choose|j: int| 0 <= j < a.len() && a[j] == x;
                assert(j != 0);
                assert(a1[j - 1] == x);
            }
        }
        lemma_sorted_same_elements(a1, b1);
        assert(a =~= seq![a[0]] + a1);
        assert(b =~= seq![b[0]] + b1);
    }
}

/// Inserts `x` into the strictly increasing vector `v`, unless it is there already.
pub fn insert_sorted_unique(v: &mut Vec<usize>, x: usize)
    requires
        strictly_increasing(old(v)@),
    ensures
        strictly_increasing(final(v)@),
        forall|y: usize| final(v)@.contains(y) <==> (old(v)@.contains(y) || y == x),
{
    let mut i: usize = 0;
    while i < v.len()
        invariant
            i <= v@.len(),
            v@ == old(v)@,
            strictly_increasing(v@),
            forall|j: int| 0 <= j < i ==> v@[j] < x,
        ensures
            i < v@.len() ==> v@[i as int] >= x,
        decreases v@.len() - i,
    {
        if v[i] >= x {
            break;
        }
        i = i + 1;
    }
    let ghost ov = v@;
    if i < v.len() && v[i] == x {
        return;
    }
    assert(forall|j: int| i <= j < ov.len() ==> ov[j] > x);
    v.insert(i, x);
    assert(strictly_increasing(v@)) by {
        assert forall|a: int, b: int| 0 <= a < b < v@.len() implies v@[a] < v@[b] by {
            if a < i && b > i {
                assert(v@[a] == ov[a] && v@[b] == ov[b - 1]);
            }
        }
    }
    assert forall|y: usize| v@.contains(y) <==> (ov.contains(y) || y == x) by {
        if v@.contains(y) {
            let j = v@.index_of(y);
            if j != i {
                if j < i {
                    assert(ov[j] == y);
                } else {
                    assert(ov[j - 1] == y);
                }
            }
        }
        if ov.contains(y) {
            let j = ov.index_of(y);
            if j < i {
                assert(v@[j] == y);
            } else {
                assert(v@[j + 1] == y);
            }
        }
        if y == x {
            assert(v@[i as int] == x);
        }
    }
}

} // verus!
