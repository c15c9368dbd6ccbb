use vstd::prelude::*;
use crate::fund_type::FundDescription;

verus! {

/// A unit of balance, usually stake, stored under its id.
/// It belongs to two doubly linked lists: the list of all funds of its type,
/// and the list of the funds of its type owned by its user. Link value 0 means "none".
#[derive(PartialEq, Eq, Structural, Clone, Copy, Debug)]
pub struct FundItem {
    pub fund_desc: FundDescription,
    pub user_id: usize,
    pub balance: u128,
    pub type_list_next: usize,
    pub type_list_prev: usize,
    pub user_list_next: usize,
    pub user_list_prev: usize,
}

/// Head of a fund list: sum of the balances in it, first and last id (0 when empty).
#[derive(PartialEq, Eq, Structural, Clone, Copy, Debug)]
pub struct FundsListInfo {
    pub total_balance: u128,
    pub first: usize,
    pub last: usize,
}

/// The value that an absent fund item reads as.
pub open spec fn default_item() -> FundItem {
    FundItem {
        fund_desc: FundDescription::WithdrawOnly,
        user_id: 0,
        balance: 0,
        type_list_next: 0,
        type_list_prev: 0,
        user_list_next: 0,
        user_list_prev: 0,
    }
}

pub open spec fn empty_list_info() -> FundsListInfo {
    FundsListInfo { total_balance: 0, first: 0, last: 0 }
}

impl FundItem {
    /// An item whose storage entry would be empty.
    pub open spec fn spec_is_default(self) -> bool {
        &&& self.balance == 0
        &&& self.type_list_next == 0
        &&& self.type_list_prev == 0
        &&& self.user_list_next == 0
        &&& self.user_list_prev == 0
    }

    pub fn is_default(&self) -> (r: bool)
        ensures
            r == self.spec_is_default(),
    {
        self.balance == 0 && self.type_list_next == 0 && self.type_list_prev == 0
            && self.user_list_next == 0 && self.user_list_prev == 0
    }

    /// The value that an absent fund item reads as.
    pub fn default() -> (r: FundItem)
        ensures
            r == default_item(),
    {
        FundItem {
            fund_desc: FundDescription::WithdrawOnly,
            user_id: 0,
            balance: 0,
            type_list_next: 0,
            type_list_prev: 0,
            user_list_next: 0,
            user_list_prev: 0,
        }
    }
}

impl FundsListInfo {
    pub open spec fn spec_is_empty(self) -> bool {
        self.total_balance == 0 && self.first == 0 && self.last == 0
    }

    pub fn is_empty(&self) -> (r: bool)
        ensures
            r == self.spec_is_empty(),
    {
        self.total_balance == 0 && self.first == 0 && self.last == 0
    }

    /// The value that an absent list head reads as.
    pub fn zero_value() -> (r: FundsListInfo)
        ensures
            r == empty_list_info(),
    {
        FundsListInfo { total_balance: 0, first: 0, last: 0 }
    }
}

/// Link to the next item in the list of the given kind (`by_type`: type list, else user list).
pub open spec fn next_link(it: FundItem, by_type: bool) -> usize {
    if by_type {
        it.type_list_next
    } else {
        it.user_list_next
    }
}

pub open spec fn prev_link(it: FundItem, by_type: bool) -> usize {
    if by_type {
        it.type_list_prev
    } else {
        it.user_list_prev
    }
}

pub open spec fn with_next(it: FundItem, by_type: bool, v: usize) -> FundItem {
    if by_type {
        FundItem { type_list_next: v, ..it }
    } else {
        FundItem { user_list_next: v, ..it }
    }
}

pub open spec fn with_prev(it: FundItem, by_type: bool, v: usize) -> FundItem {
    if by_type {
        FundItem { type_list_prev: v, ..it }
    } else {
        FundItem { user_list_prev: v, ..it }
    }
}

/// Everything but the links of the given kind agree.
pub open spec fn same_but_links(a: FundItem, b: FundItem, by_type: bool) -> bool {
    &&& a.fund_desc == b.fund_desc
    &&& a.user_id == b.user_id
    &&& a.balance == b.balance
    &&& (by_type ==> a.user_list_next == b.user_list_next && a.user_list_prev == b.user_list_prev)
    &&& (!by_type ==> a.type_list_next == b.type_list_next && a.type_list_prev == b.type_list_prev)
}

pub open spec fn no_dup(s: Seq<usize>) -> bool {
    forall|i: int, j: int| 0 <= i < j < s.len() ==> s[i] != s[j]
}

/// The list head `info` and the links of kind `by_type` stored in `items` spell out
/// the sequence of ids `s`, and `s` holds valid, distinct, nonzero ids.
pub open spec fn links_wf(items: Seq<FundItem>, info: FundsListInfo, s: Seq<usize>, by_type: bool) -> bool {
    &&& no_dup(s)
    &&& forall|k: int| 0 <= k < s.len() ==> 1 <= #[trigger] s[k] < items.len()
    &&& info.first == (if s.len() == 0 { 0usize } else { s[0] })
    &&& info.last == (if s.len() == 0 { 0usize } else { s[s.len() - 1] })
    &&& forall|k: int|
        0 <= k < s.len() ==> next_link(items[#[trigger] s[k] as int], by_type) == (if k + 1 < s.len() {
            s[k + 1]
        } else {
            0usize
        })
    &&& forall|k: int|
        0 <= k < s.len() ==> prev_link(items[#[trigger] s[k] as int], by_type) == (if k > 0 {
            s[k - 1]
        } else {
            0usize
        })
}

/// Sum of the balances of the items with the ids in `s`.
pub open spec fn sum_balances(items: Seq<FundItem>, s: Seq<usize>) -> int
    decreases s.len(),
{
    if s.len() == 0 {
        0
    } else {
        sum_balances(items, s.drop_last()) + items[s.last() as int].balance
    }
}

/// The items with ids in `s` have the same links of kind `by_type` and the same balances.
pub open spec fn agree_on(items1: Seq<FundItem>, items2: Seq<FundItem>, s: Seq<usize>, by_type: bool) -> bool {
    forall|k: int|
        0 <= k < s.len() ==> {
            &&& next_link(items2[#[trigger] s[k] as int], by_type) == next_link(items1[s[k] as int], by_type)
            &&& prev_link(items2[s[k] as int], by_type) == prev_link(items1[s[k] as int], by_type)
            &&& items2[s[k] as int].balance == items1[s[k] as int].balance
        }
}

pub proof fn lemma_sum_nonneg(items: Seq<FundItem>, s: Seq<usize>)
    ensures
        sum_balances(items, s) >= 0,
    decreases s.len(),
{
    if s.len() > 0 {
        lemma_sum_nonneg(items, s.drop_last());
    }
}

pub proof fn lemma_sum_frame(items1: Seq<FundItem>, items2: Seq<FundItem>, s: Seq<usize>)
    requires
        forall|k: int| 0 <= k < s.len() ==> items2[#[trigger] s[k] as int].balance == items1[s[k] as int].balance,
    ensures
        sum_balances(items2, s) == sum_balances(items1, s),
    decreases s.len(),
{
    if s.len() > 0 {
        let d = s.drop_last();
        assert forall|k: int| 0 <= k < d.len() implies items2[#[trigger] d[k] as int].balance
            == items1[d[k] as int].balance by {
            assert(d[k] == s[k]);
        }
        lemma_sum_frame(items1, items2, d);
        assert(s.last() == s[s.len() - 1]);
    }
}

/// A well-formed list stays well-formed, with the same sum, when its items keep their links and balances.
pub proof fn lemma_list_frame(
    items1: Seq<FundItem>,
    items2: Seq<FundItem>,
    info: FundsListInfo,
    s: Seq<usize>,
    by_type: bool,
)
    requires
        links_wf(items1, info, s, by_type),
        items2.len() >= items1.len(),
        agree_on(items1, items2, s, by_type),
    ensures
        links_wf(items2, info, s, by_type),
        sum_balances(items2, s) == sum_balances(items1, s),
{
    lemma_sum_frame(items1, items2, s);
    assert forall|k: int| 0 <= k < s.len() implies next_link(items2[#[trigger] s[k] as int], by_type) == (if k
        + 1 < s.len() {
        s[k + 1]
    } else {
        0usize
    }) by {
        assert(next_link(items2[s[k] as int], by_type) == next_link(items1[s[k] as int], by_type));
    }
    assert forall|k: int| 0 <= k < s.len() implies prev_link(items2[#[trigger] s[k] as int], by_type) == (if k
        > 0 {
        s[k - 1]
    } else {
        0usize
    }) by {
        assert(prev_link(items2[s[k] as int], by_type) == prev_link(items1[s[k] as int], by_type));
    }
}

/// Well-formedness of a list depends only on the links of its items.
pub proof fn lemma_links_frame(
    items1: Seq<FundItem>,
    items2: Seq<FundItem>,
    info: FundsListInfo,
    s: Seq<usize>,
    by_type: bool,
)
    requires
        links_wf(items1, info, s, by_type),
        items2.len() >= items1.len(),
        forall|j: int|
            0 <= j < items1.len() ==> next_link(#[trigger] items2[j], by_type) == next_link(items1[j], by_type)
                && prev_link(items2[j], by_type) == prev_link(items1[j], by_type),
    ensures
        links_wf(items2, info, s, by_type),
{
    assert forall|k: int| 0 <= k < s.len() implies next_link(items2[#[trigger] s[k] as int], by_type) == (if k
        + 1 < s.len() {
        s[k + 1]
    } else {
        0usize
    }) by {
        assert(next_link(items2[s[k] as int], by_type) == next_link(items1[s[k] as int], by_type));
    }
    assert forall|k: int| 0 <= k < s.len() implies prev_link(items2[#[trigger] s[k] as int], by_type) == (if k
        > 0 {
        s[k - 1]
    } else {
        0usize
    }) by {
        assert(prev_link(items2[s[k] as int], by_type) == prev_link(items1[s[k] as int], by_type));
    }
}

/// Removing the element at `k` takes its balance out of the sum.
pub proof fn lemma_sum_remove(items: Seq<FundItem>, s: Seq<usize>, k: int)
    requires
        0 <= k < s.len(),
    ensures
        sum_balances(items, s) == sum_balances(items, s.remove(k)) + items[s[k] as int].balance,
    decreases s.len(),
{
    if k == s.len() - 1 {
        assert(s.remove(k) =~= s.drop_last());
    } else {
        let d = s.drop_last();
        lemma_sum_remove(items, d, k);
        let r = s.remove(k);
        assert(r.drop_last() =~= d.remove(k));
        assert(r.last() == s.last());
        assert(d[k] == s[k]);
    }
}

pub proof fn lemma_sum_push(items: Seq<FundItem>, s: Seq<usize>, x: usize)
    ensures
        sum_balances(items, s.push(x)) == sum_balances(items, s) + items[x as int].balance,
{
    assert(s.push(x).drop_last() =~= s);
}

/// The sum over distinct ids that all occur in another list of distinct ids is at most that list's sum.
pub proof fn lemma_sum_subset(items: Seq<FundItem>, s1: Seq<usize>, s2: Seq<usize>)
    requires
        no_dup(s1),
        no_dup(s2),
        forall|i: int| 0 <= i < s1.len() ==> s2.contains(#[trigger] s1[i]),
    ensures
        sum_balances(items, s1) <= sum_balances(items, s2),
    decreases s1.len(),
{
    if s1.len() == 0 {
        lemma_sum_nonneg(items, s2);
    } else {
        let x = s1.last();
        assert(s2.contains(s1[s1.len() - 1]));
        let k = choose|k: int| 0 <= k < s2.len() && s2[k] == x;
        let d1 = s1.drop_last();
        let r2 = s2.remove(k);
        assert forall|i: int| 0 <= i < d1.len() implies r2.contains(#[trigger] d1[i]) by {
            assert(d1[i] == s1[i]);
            assert(s2.contains(s1[i]));
            let j = choose|j: int| 0 <= j < s2.len() && s2[j] == s1[i];
            assert(s1[i] != x);
            assert(j != k);
            if j < k {
                assert(r2[j] == s2[j]);
            } else {
                assert(r2[j - 1] == s2[j]);
            }
        }
        assert(no_dup(r2)) by {
            assert forall|i: int, j: int| 0 <= i < j < r2.len() implies r2[i] != r2[j] by {
                let ii = if i < k { i } else { i + 1 };
                let jj = if j < k { j } else { j + 1 };
                assert(r2[i] == s2[ii]);
                assert(r2[j] == s2[jj]);
            }
        }
        assert(no_dup(d1));
        lemma_sum_subset(items, d1, r2);
        lemma_sum_remove(items, s2, k);
    }
}

/// Changing the balance of one item of a list of distinct ids changes the sum by the difference.
pub proof fn lemma_sum_update(items1: Seq<FundItem>, items2: Seq<FundItem>, s: Seq<usize>, id: usize)
    requires
        no_dup(s),
        forall|k: int| 0 <= k < s.len() ==> #[trigger] s[k] < items1.len(),
        0 <= id < items1.len(),
        items2.len() == items1.len(),
        forall|j: int| 0 <= j < items1.len() && j != id ==> items2[j].balance == items1[j].balance,
    ensures
        s.contains(id) ==> sum_balances(items2, s) == sum_balances(items1, s) - items1[id as int].balance
            + items2[id as int].balance,
        !s.contains(id) ==> sum_balances(items2, s) == sum_balances(items1, s),
{
    if s.contains(id) {
        let k = choose|k: int| 0 <= k < s.len() && s[k] == id;
        let r = s.remove(k);
        assert forall|i: int| 0 <= i < r.len() implies items2[#[trigger] r[i] as int].balance
            == items1[r[i] as int].balance by {
            let ii = if i < k { i } else { i + 1 };
            assert(r[i] == s[ii]);
            assert(ii != k);
        }
        lemma_sum_frame(items1, items2, r);
        lemma_sum_remove(items1, s, k);
        lemma_sum_remove(items2, s, k);
    } else {
        assert forall|i: int| 0 <= i < s.len() implies items2[#[trigger] s[i] as int].balance
            == items1[s[i] as int].balance by {
            assert(s[i] != id);
        }
        lemma_sum_frame(items1, items2, s);
    }
}

} // verus!

verus! {

pub fn next_of(it: &FundItem, by_type: bool) -> (r: usize)
    ensures
        r == next_link(*it, by_type),
{
    if by_type {
        it.type_list_next
    } else {
        it.user_list_next
    }
}

pub fn prev_of(it: &FundItem, by_type: bool) -> (r: usize)
    ensures
        r == prev_link(*it, by_type),
{
    if by_type {
        it.type_list_prev
    } else {
        it.user_list_prev
    }
}

fn set_next(it: FundItem, by_type: bool, v: usize) -> (r: FundItem)
    ensures
        r == with_next(it, by_type, v),
{
    let mut r = it;
    if by_type {
        r.type_list_next = v;
    } else {
        r.user_list_next = v;
    }
    r
}

fn set_prev(it: FundItem, by_type: bool, v: usize) -> (r: FundItem)
    ensures
        r == with_prev(it, by_type, v),
{
    let mut r = it;
    if by_type {
        r.type_list_prev = v;
    } else {
        r.user_list_prev = v;
    }
    r
}

/// Appends `id` at the end of the list `s` whose head is `info`.
pub fn link_append(
    items: &mut Vec<FundItem>,
    info: &mut FundsListInfo,
    id: usize,
    by_type: bool,
    Ghost(s): Ghost<Seq<usize>>,
)
    requires
        links_wf(old(items)@, *old(info), s, by_type),
        1 <= id < old(items)@.len(),
        !s.contains(id),
        next_link(old(items)@[id as int], by_type) == 0,
        prev_link(old(items)@[id as int], by_type) == 0,
    ensures
        links_wf(final(items)@, *final(info), s.push(id), by_type),
        final(items)@.len() == old(items)@.len(),
        final(info).total_balance == old(info).total_balance,
        forall|j: int|
            0 <= j < old(items)@.len() ==> same_but_links(#[trigger] final(items)@[j], old(items)@[j], by_type),
        forall|j: int|
            0 <= j < old(items)@.len() && !s.push(id).contains(j as usize) ==> #[trigger] final(items)@[j]
                == old(items)@[j],
{
    let ghost old_items = items@;
    let ghost ns = s.push(id);
    if info.last == 0 {
        assert(s.len() == 0) by {
            if s.len() > 0 {
                assert(1 <= s[s.len() - 1]);
            }
        }
        info.first = id;
        info.last = id;
        assert(ns =~= seq![id]);
    } else {
        let last = info.last;
        assert(s.len() > 0);
        assert(last == s[s.len() - 1]);
        assert(last != id);
        let li = items[last];
        items.set(last, set_next(li, by_type, id));
        let ni = items[id];
        items.set(id, set_prev(ni, by_type, last));
        info.last = id;
        assert forall|k: int| 0 <= k < ns.len() implies next_link(items@[#[trigger] ns[k] as int], by_type)
            == (if k + 1 < ns.len() {
            ns[k + 1]
        } else {
            0usize
        }) by {
            if k < s.len() {
                assert(ns[k] == s[k]);
                if k + 1 < s.len() {
                    assert(s[k] != last);
                    assert(s[k] != id);
                }
            }
        }
        assert forall|k: int| 0 <= k < ns.len() implies prev_link(items@[#[trigger] ns[k] as int], by_type)
            == (if k > 0 {
            ns[k - 1]
        } else {
            0usize
        }) by {
            if k < s.len() {
                assert(ns[k] == s[k]);
                assert(s[k] != id);
            }
        }
    }
    assert forall|j: int|
        0 <= j < old_items.len() && !ns.contains(j as usize) implies #[trigger] items@[j] == old_items[j] by {
        if j == id as int {
            assert(ns[ns.len() - 1] == id);
        }
        if s.len() > 0 && j == s[s.len() - 1] as int {
            assert(ns[s.len() - 1] == s[s.len() - 1]);
        }
    }
}

/// Describes the items after `s[k]` has been unlinked from the list `s`.
pub open spec fn unlinked_items(
    old_items: Seq<FundItem>,
    new_items: Seq<FundItem>,
    s: Seq<usize>,
    k: int,
    by_type: bool,
) -> bool {
    let id = s[k];
    let prev: usize = if k > 0 { s[k - 1] } else { 0 };
    let next: usize = if k + 1 < s.len() { s[k + 1] } else { 0 };
    &&& new_items.len() == old_items.len()
    &&& forall|j: int|
        0 <= j < old_items.len() ==> #[trigger] new_items[j] == (if j == id as int {
            with_prev(with_next(old_items[j], by_type, 0), by_type, 0)
        } else if j == prev as int && prev != 0 {
            with_next(old_items[j], by_type, next)
        } else if j == next as int && next != 0 {
            with_prev(old_items[j], by_type, prev)
        } else {
            old_items[j]
        })
}

pub proof fn lemma_remove_index(s: Seq<usize>, k: int)
    requires
        0 <= k < s.len(),
        no_dup(s),
    ensures
        s.remove(k).len() == s.len() - 1,
        forall|i: int| 0 <= i < k ==> #[trigger] s.remove(k)[i] == s[i],
        forall|i: int| k <= i < s.len() - 1 ==> #[trigger] s.remove(k)[i] == s[i + 1],
        no_dup(s.remove(k)),
{
    s.remove_ensures(k);
    let ns = s.remove(k);
    assert forall|a: int, b: int| 0 <= a < b < ns.len() implies ns[a] != ns[b] by {
        let aa = if a < k { a } else { a + 1 };
        let bb = if b < k { b } else { b + 1 };
        assert(ns[a] == s[aa]);
        assert(ns[b] == s[bb]);
    }
}

#[verifier::rlimit(40)]
proof fn lemma_unlink_next(old_items: Seq<FundItem>, new_items: Seq<FundItem>, s: Seq<usize>, k: int, by_type: bool)
    requires
        no_dup(s),
        forall|i: int| 0 <= i < s.len() ==> 1 <= #[trigger] s[i] < old_items.len(),
        forall|i: int|
            0 <= i < s.len() ==> next_link(old_items[#[trigger] s[i] as int], by_type) == (if i + 1 < s.len() {
                s[i + 1]
            } else {
                0usize
            }),
        0 <= k < s.len(),
        unlinked_items(old_items, new_items, s, k, by_type),
    ensures
        forall|i: int|
            0 <= i < s.remove(k).len() ==> next_link(new_items[#[trigger] s.remove(k)[i] as int], by_type) == (
            if i + 1 < s.remove(k).len() {
                s.remove(k)[i + 1]
            } else {
                0usize
            }),
{
    lemma_remove_index(s, k);
    let ns = s.remove(k);
    assert forall|i: int| 0 <= i < ns.len() implies next_link(new_items[#[trigger] ns[i] as int], by_type)
        == (if i + 1 < ns.len() {
        ns[i + 1]
    } else {
        0usize
    }) by {
        let ii = if i < k { i } else { i + 1 };
        assert(ns[i] == s[ii]);
        assert(s[ii] != s[k]);
        if ii > 0 {
            assert(s[ii - 1] != s[ii]);
        }
        if ii + 1 < s.len() {
            assert(s[ii + 1] != s[ii]);
        }
        assert(new_items[s[ii] as int] == new_items[s[ii] as int]);
    }
}

#[verifier::rlimit(40)]
proof fn lemma_unlink_prev(old_items: Seq<FundItem>, new_items: Seq<FundItem>, s: Seq<usize>, k: int, by_type: bool)
    requires
        no_dup(s),
        forall|i: int| 0 <= i < s.len() ==> 1 <= #[trigger] s[i] < old_items.len(),
        forall|i: int|
            0 <= i < s.len() ==> prev_link(old_items[#[trigger] s[i] as int], by_type) == (if i > 0 {
                s[i - 1]
            } else {
                0usize
            }),
        0 <= k < s.len(),
        unlinked_items(old_items, new_items, s, k, by_type),
    ensures
        forall|i: int|
            0 <= i < s.remove(k).len() ==> prev_link(new_items[#[trigger] s.remove(k)[i] as int], by_type) == (
            if i > 0 {
                s.remove(k)[i - 1]
            } else {
                0usize
            }),
{
    lemma_remove_index(s, k);
    let ns = s.remove(k);
    assert forall|i: int| 0 <= i < ns.len() implies prev_link(new_items[#[trigger] ns[i] as int], by_type)
        == (if i > 0 {
        ns[i - 1]
    } else {
        0usize
    }) by {
        let ii = if i < k { i } else { i + 1 };
        assert(ns[i] == s[ii]);
        assert(s[ii] != s[k]);
        if ii > 0 {
            assert(s[ii - 1] != s[ii]);
        }
        if ii + 1 < s.len() {
            assert(s[ii + 1] != s[ii]);
        }
        assert(new_items[s[ii] as int] == new_items[s[ii] as int]);
    }
}

#[verifier::spinoff_prover]
#[verifier::rlimit(40)]
proof fn lemma_unlink(
    old_items: Seq<FundItem>,
    new_items: Seq<FundItem>,
    old_info: FundsListInfo,
    new_info: FundsListInfo,
    s: Seq<usize>,
    k: int,
    by_type: bool,
)
    requires
        links_wf(old_items, old_info, s, by_type),
        0 <= k < s.len(),
        unlinked_items(old_items, new_items, s, k, by_type),
        new_info.total_balance == old_info.total_balance,
        new_info.first == (if k == 0 { if k + 1 < s.len() { s[k + 1] } else { 0usize } } else { old_info.first }),
        new_info.last == (if k + 1 == s.len() { if k > 0 { s[k - 1] } else { 0usize } } else { old_info.last }),
    ensures
        links_wf(new_items, new_info, s.remove(k), by_type),
        forall|j: int|
            0 <= j < old_items.len() ==> same_but_links(#[trigger] new_items[j], old_items[j], by_type),
        forall|j: int|
            0 <= j < old_items.len() && !s.contains(j as usize) ==> #[trigger] new_items[j] == old_items[j],
        next_link(new_items[s[k] as int], by_type) == 0,
        prev_link(new_items[s[k] as int], by_type) == 0,
{
    let ns = s.remove(k);
    let id = s[k];
    lemma_remove_index(s, k);
    lemma_unlink_next(old_items, new_items, s, k, by_type);
    lemma_unlink_prev(old_items, new_items, s, k, by_type);
    assert forall|i: int| 0 <= i < ns.len() implies 1 <= #[trigger] ns[i] < new_items.len() by {
        let ii = if i < k { i } else { i + 1 };
        assert(ns[i] == s[ii]);
    }
    assert(new_info.first == (if ns.len() == 0 { 0usize } else { ns[0] })) by {
        if k > 0 {
            assert(ns[0] == s[0]);
        }
    }
    assert(new_info.last == (if ns.len() == 0 { 0usize } else { ns[ns.len() - 1] })) by {
        if k + 1 < s.len() {
            assert(ns[ns.len() - 1] == s[s.len() - 1]);
        }
    }
    assert forall|j: int|
        0 <= j < old_items.len() && !s.contains(j as usize) implies #[trigger] new_items[j] == old_items[j] by {
        if k > 0 && j == s[k - 1] as int {
            assert(s.contains(s[k - 1]));
        }
        if k + 1 < s.len() && j == s[k + 1] as int {
            assert(s.contains(s[k + 1]));
        }
        if j == id as int {
            assert(s.contains(s[k]));
        }
    }
    assert(new_items[id as int] == with_prev(with_next(old_items[id as int], by_type, 0), by_type, 0));
}

/// Takes `id` out of the list `s` whose head is `info`, and clears the links of `id`.
pub fn link_remove(
    items: &mut Vec<FundItem>,
    info: &mut FundsListInfo,
    id: usize,
    by_type: bool,
    Ghost(s): Ghost<Seq<usize>>,
)
    requires
        links_wf(old(items)@, *old(info), s, by_type),
        s.contains(id),
    ensures
        links_wf(final(items)@, *final(info), s.remove(s.index_of(id)), by_type),
        final(items)@.len() == old(items)@.len(),
        final(info).total_balance == old(info).total_balance,
        forall|j: int|
            0 <= j < old(items)@.len() ==> same_but_links(#[trigger] final(items)@[j], old(items)@[j], by_type),
        forall|j: int|
            0 <= j < old(items)@.len() && !s.contains(j as usize) ==> #[trigger] final(items)@[j]
                == old(items)@[j],
        next_link(final(items)@[id as int], by_type) == 0,
        prev_link(final(items)@[id as int], by_type) == 0,
{
    let ghost old_items = items@;
    let ghost old_info = *info;
    let ghost k = s.index_of(id);
    assert(0 <= k < s.len() && s[k] == id);
    assert(1 <= s[k] < items@.len());
    let it = items[id];
    let prev = prev_of(&it, by_type);
    let next = next_of(&it, by_type);
    assert(prev == (if k > 0 { s[k - 1] } else { 0usize }));
    assert(next == (if k + 1 < s.len() { s[k + 1] } else { 0usize }));
    if prev == 0 {
        info.first = next;
    } else {
        assert(1 <= s[k - 1] < items@.len());
        let p = items[prev];
        items.set(prev, set_next(p, by_type, next));
    }
    if next == 0 {
        info.last = prev;
    } else {
        assert(1 <= s[k + 1] < items@.len());
        assert(next != prev) by {
            if k > 0 {
                assert(s[k - 1] != s[k + 1]);
            }
        }
        let n = items[next];
        items.set(next, set_prev(n, by_type, prev));
    }
    assert(prev != id && next != id) by {
        if k > 0 {
            assert(s[k - 1] != s[k]);
        }
        if k + 1 < s.len() {
            assert(s[k + 1] != s[k]);
        }
    }
    let cur = items[id];
    let cleared = set_prev(set_next(cur, by_type, 0), by_type, 0);
    items.set(id, cleared);
    assert(unlinked_items(old_items, items@, s, k, by_type));
    proof {
        lemma_unlink(old_items, items@, old_info, *info, s, k, by_type);
    }
}

} // verus!
