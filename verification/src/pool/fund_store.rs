use vstd::prelude::*;
use crate::pool::fund::{
    FundType, FundInfo, FundItem, FundList, NUM_DISCRIMINANTS, spec_discriminant, pushed, items_sum, lemma_pushed_sum,
};

verus! {

/// The funds of the first storage layout: one list of items per discriminant, oldest first.
pub struct FundStore {
    lists: Vec<Vec<FundItem>>,
}

/// What a walk over `items` leaves, moves and has left of the maximum: items are visited
/// from the first while the maximum (none: no maximum) is not used up; an item for which `g`
/// gives new information gives up its balance, or what remains of the maximum, which moves
/// under the new information; items that reach a zero balance are dropped.
pub open spec fn process(
    items: Seq<FundItem>,
    max: Option<u128>,
    g: spec_fn(FundInfo) -> Option<FundInfo>,
) -> (Seq<FundItem>, Seq<FundItem>, Option<u128>)
    decreases items.len(),
{
    if items.len() == 0 || max == Some(0u128) {
        (items, Seq::empty(), max)
    } else {
        let it = items[0];
        let rest = items.subrange(1, items.len() as int);
        match g(it.info) {
            None => {
                let (k, m, left) = process(rest, max, g);
                (seq![it] + k, m, left)
            },
            Some(info) => {
                let x: u128 = match max {
                    Some(a) => if a < it.balance {
                        a
                    } else {
                        it.balance
                    },
                    None => it.balance,
                };
                let max2: Option<u128> = match max {
                    Some(a) => Some((a - x) as u128),
                    None => None,
                };
                let (k, m, left) = process(rest, max2, g);
                let kept = if it.balance > x {
                    seq![FundItem { balance: (it.balance - x) as u128, ..it }] + k
                } else {
                    k
                };
                (kept, seq![FundItem { info, balance: x }] + m, left)
            },
        }
    }
}

/// `list` after pushing the items of `moved` one by one.
pub open spec fn pushed_all(list: Seq<FundItem>, moved: Seq<FundItem>) -> Seq<FundItem>
    decreases moved.len(),
{
    if moved.len() == 0 {
        list
    } else {
        pushed(pushed_all(list, moved.drop_last()), moved.last())
    }
}

/// Sum of the balances of the items for which `p` holds.
pub open spec fn filtered_items_sum(s: Seq<FundItem>, p: spec_fn(FundInfo) -> bool) -> int
    decreases s.len(),
{
    if s.len() == 0 {
        0
    } else {
        filtered_items_sum(s.drop_last(), p) + if p(s.last().info) {
            s.last().balance as int
        } else {
            0
        }
    }
}

pub proof fn lemma_process_sums(items: Seq<FundItem>, max: Option<u128>, g: spec_fn(FundInfo) -> Option<FundInfo>)
    ensures
        items_sum(process(items, max, g).0) + items_sum(process(items, max, g).1) == items_sum(items),
        max matches Some(a) ==> process(items, max, g).2 matches Some(b) && b + items_sum(process(items, max, g).1) == a,
        max is None ==> process(items, max, g).2 is None,
    decreases items.len(),
{
    if items.len() == 0 || max == Some(0u128) {
    } else {
        let rest = items.subrange(1, items.len() as int);
        lemma_sum_front(items);
        match g(items[0].info) {
            None => {
                lemma_process_sums(rest, max, g);
                let (k, m, left) = process(rest, max, g);
                lemma_sum_front(seq![items[0]] + k);
                assert((seq![items[0]] + k).subrange(1, k.len() as int + 1) =~= k);
            },
            Some(info) => {
                let it = items[0];
                let x: u128 = match max {
                    Some(a) => if a < it.balance {
                        a
                    } else {
                        it.balance
                    },
                    None => it.balance,
                };
                let max2: Option<u128> = match max {
                    Some(a) => Some((a - x) as u128),
                    None => None,
                };
                lemma_process_sums(rest, max2, g);
                let (k, m, left) = process(rest, max2, g);
                let moved_item = FundItem { info, balance: x };
                lemma_sum_front(seq![moved_item] + m);
                assert((seq![moved_item] + m).subrange(1, m.len() as int + 1) =~= m);
                if it.balance > x {
                    let kept_item = FundItem { balance: (it.balance - x) as u128, ..it };
                    lemma_sum_front(seq![kept_item] + k);
                    assert((seq![kept_item] + k).subrange(1, k.len() as int + 1) =~= k);
                }
            },
        }
    }
}

/// The filtered sum of a nonempty list is that of its first item plus that of the rest.
pub proof fn lemma_filtered_front(s: Seq<FundItem>, p: spec_fn(FundInfo) -> bool)
    requires
        s.len() > 0,
    ensures
        filtered_items_sum(s, p) == (if p(s[0].info) { s[0].balance as int } else { 0 }) + filtered_items_sum(
            s.subrange(1, s.len() as int),
            p,
        ),
    decreases s.len(),
{
    if s.len() == 1 {
        assert(s.subrange(1, 1) =~= Seq::<FundItem>::empty());
        assert(s.drop_last() =~= Seq::<FundItem>::empty());
    } else {
        lemma_filtered_front(s.drop_last(), p);
        assert(s.drop_last().subrange(1, s.len() - 1) =~= s.subrange(1, s.len() as int).drop_last());
    }
}

/// A walk whose transformation maps the funds that `p` selects to funds that `q` selects, and
/// no others, splits the stake selected by `p` between what it keeps (still selected by `p`)
/// and what it moves (selected by `q`).
pub proof fn lemma_process_filtered(
    items: Seq<FundItem>,
    max: Option<u128>,
    g: spec_fn(FundInfo) -> Option<FundInfo>,
    p: spec_fn(FundInfo) -> bool,
    q: spec_fn(FundInfo) -> bool,
)
    requires
        forall|i: FundInfo| #[trigger] g(i) is Some ==> (p(i) <==> q(g(i).unwrap())),
    ensures
        filtered_items_sum(process(items, max, g).0, p) + filtered_items_sum(process(items, max, g).1, q)
            == filtered_items_sum(items, p),
    decreases items.len(),
{
    if items.len() == 0 || max == Some(0u128) {
        assert(filtered_items_sum(Seq::<FundItem>::empty(), q) == 0);
    } else {
        let it = items[0];
        let rest = items.subrange(1, items.len() as int);
        lemma_filtered_front(items, p);
        match g(it.info) {
            None => {
                lemma_process_filtered(rest, max, g, p, q);
                let (k, m, left) = process(rest, max, g);
                lemma_filtered_front(seq![it] + k, p);
                assert((seq![it] + k).subrange(1, k.len() as int + 1) =~= k);
            },
            Some(info) => {
                let x: u128 = match max {
                    Some(a) => if a < it.balance {
                        a
                    } else {
                        it.balance
                    },
                    None => it.balance,
                };
                let max2: Option<u128> = match max {
                    Some(a) => Some((a - x) as u128),
                    None => None,
                };
                lemma_process_filtered(rest, max2, g, p, q);
                let (k, m, left) = process(rest, max2, g);
                let moved_item = FundItem { info, balance: x };
                lemma_filtered_front(seq![moved_item] + m, q);
                assert((seq![moved_item] + m).subrange(1, m.len() as int + 1) =~= m);
                if it.balance > x {
                    let kept_item = FundItem { balance: (it.balance - x) as u128, ..it };
                    lemma_filtered_front(seq![kept_item] + k, p);
                    assert((seq![kept_item] + k).subrange(1, k.len() as int + 1) =~= k);
                }
            },
        }
    }
}

/// Pushing an item adds its balance to the filtered sum when the filter selects it.
pub proof fn lemma_filtered_pushed(list: Seq<FundItem>, item: FundItem, q: spec_fn(FundInfo) -> bool)
    requires
        list.len() > 0 && list.last().info == item.info ==> list.last().balance + item.balance <= u128::MAX,
    ensures
        filtered_items_sum(pushed(list, item), q) == filtered_items_sum(list, q) + (if q(item.info) {
            item.balance as int
        } else {
            0
        }),
{
    let r = pushed(list, item);
    if list.len() > 0 && list.last().info == item.info {
        assert(r.drop_last() =~= list.drop_last());
        assert(r.last().info == list.last().info);
    } else {
        assert(r.drop_last() =~= list);
    }
}

/// Pushing the items `mv` one after the other adds their sum, and their filtered sum.
pub proof fn lemma_pushed_all_filtered(list: Seq<FundItem>, mv: Seq<FundItem>, q: spec_fn(FundInfo) -> bool)
    requires
        items_sum(list) + items_sum(mv) <= u128::MAX,
    ensures
        items_sum(pushed_all(list, mv)) == items_sum(list) + items_sum(mv),
        filtered_items_sum(pushed_all(list, mv), q) == filtered_items_sum(list, q) + filtered_items_sum(mv, q),
    decreases mv.len(),
{
    if mv.len() > 0 {
        let d = mv.drop_last();
        lemma_sum_nonneg(d);
        lemma_pushed_all_filtered(list, d, q);
        let pl = pushed_all(list, d);
        if pl.len() > 0 {
            lemma_last_le_sum(pl);
        }
        lemma_pushed_sum(pl, mv.last());
        lemma_filtered_pushed(pl, mv.last(), q);
    }
}

/// A walk from list `source` to list `dest` whose transformation maps the funds that `p`
/// selects to funds that `q` selects, and no others: the stake selected by `q` in `dest` grew
/// by exactly the stake selected by `p` that left `source`.
pub proof fn law_walk_moves_selected(
    old: FundStore,
    new: FundStore,
    source: int,
    dest: int,
    max: Option<u128>,
    g: spec_fn(FundInfo) -> Option<FundInfo>,
    left: Option<u128>,
    moved: int,
    p: spec_fn(FundInfo) -> bool,
    q: spec_fn(FundInfo) -> bool,
)
    requires
        old.wf(),
        0 <= source < NUM_DISCRIMINANTS,
        0 <= dest < NUM_DISCRIMINANTS,
        source != dest,
        walked(old, new, source, Some(dest), max, g, left, moved),
        forall|i: FundInfo| #[trigger] g(i) is Some ==> (p(i) <==> q(g(i).unwrap())),
    ensures
        filtered_items_sum(new.list(dest), q) - filtered_items_sum(old.list(dest), q) == filtered_items_sum(
            old.list(source),
            p,
        ) - filtered_items_sum(new.list(source), p),
{
    let src = old.list(source);
    lemma_process_filtered(src, max, g, p, q);
    lemma_process_sums(src, max, g);
    let mv = process(src, max, g).1;
    lemma_sum_nonneg(process(src, max, g).0);
    FundStore::lemma_two_lists_le_total(old, dest, source);
    old.lemma_list_fits(dest);
    lemma_pushed_all_filtered(old.list(dest), mv, q);
}

/// The sum of a nonempty list is its first balance plus the sum of the rest.
pub proof fn lemma_sum_front(s: Seq<FundItem>)
    requires
        s.len() > 0,
    ensures
        items_sum(s) == s[0].balance + items_sum(s.subrange(1, s.len() as int)),
    decreases s.len(),
{
    if s.len() == 1 {
        assert(s.subrange(1, 1) =~= Seq::<FundItem>::empty());
        assert(s.drop_last() =~= Seq::<FundItem>::empty());
    } else {
        lemma_sum_front(s.drop_last());
        assert(s.drop_last().subrange(1, s.len() - 1) =~= s.subrange(1, s.len() as int).drop_last());
    }
}

/// Items of `s` all have a positive balance and discriminant `d`.
pub open spec fn list_ok(s: Seq<FundItem>, d: int) -> bool {
    forall|i: int| 0 <= i < s.len() ==> #[trigger] s[i].balance > 0 && spec_discriminant(s[i].info.fund_type) == d
}

impl FundStore {
    /// The list of discriminant `d`, oldest item first.
    pub closed spec fn list(&self, d: int) -> Seq<FundItem> {
        self.lists@[d]@
    }

    /// Sum of all balances.
    pub closed spec fn total(&self) -> int {
        self.total_upto(NUM_DISCRIMINANTS as int)
    }

    closed spec fn total_upto(&self, k: int) -> int
        decreases k,
    {
        if k <= 0 {
            0
        } else {
            self.total_upto(k - 1) + items_sum(self.lists@[k - 1]@)
        }
    }

    /// Every list holds items of its discriminant with positive balances, and all balances
    /// together fit in a `u128`.
    pub closed spec fn wf(&self) -> bool {
        &&& self.lists@.len() == NUM_DISCRIMINANTS
        &&& forall|d: int| 0 <= d < NUM_DISCRIMINANTS ==> list_ok(#[trigger] self.lists@[d]@, d)
        &&& self.total() <= u128::MAX
    }

    /// No funds.
    pub fn new() -> (r: FundStore)
        ensures
            r.wf(),
            forall|d: int| 0 <= d < NUM_DISCRIMINANTS ==> r.list(d).len() == 0,
    {
        let mut lists: Vec<Vec<FundItem>> = Vec::new();
        let mut i: usize = 0;
        while i < NUM_DISCRIMINANTS
            invariant
                i <= NUM_DISCRIMINANTS,
                lists@.len() == i,
                forall|d: int| 0 <= d < i ==> (#[trigger] lists@[d])@.len() == 0,
            decreases NUM_DISCRIMINANTS - i,
        {
            lists.push(Vec::new());
            i = i + 1;
        }
        let r = FundStore { lists };
        proof {
            r.lemma_total_zero(NUM_DISCRIMINANTS as int);
        }
        r
    }

    proof fn lemma_total_zero(&self, k: int)
        requires
            0 <= k <= self.lists@.len(),
            forall|d: int| 0 <= d < self.lists@.len() ==> (#[trigger] self.lists@[d])@.len() == 0,
        ensures
            self.total_upto(k) == 0,
        decreases k,
    {
        if k > 0 {
            self.lemma_total_zero(k - 1);
        }
    }

    /// Changing list `d` from `a` to `b` changes the running total by the difference.
    proof fn lemma_total_change(old: FundStore, new: FundStore, d: int, k: int)
        requires
            old.lists@.len() == new.lists@.len(),
            0 <= k <= old.lists@.len(),
            forall|e: int| 0 <= e < old.lists@.len() && e != d ==> (#[trigger] new.lists@[e])@ == old.lists@[e]@,
        ensures
            new.total_upto(k) == old.total_upto(k) + if 0 <= d < k {
                items_sum(new.lists@[d]@) - items_sum(old.lists@[d]@)
            } else {
                0
            },
        decreases k,
    {
        if k > 0 {
            Self::lemma_total_change(old, new, d, k - 1);
        }
    }

    proof fn lemma_list_le_total(&self, d: int, k: int)
        requires
            self.lists@.len() == NUM_DISCRIMINANTS,
            forall|e: int| 0 <= e < NUM_DISCRIMINANTS ==> list_ok(#[trigger] self.lists@[e]@, e),
            0 <= k <= NUM_DISCRIMINANTS,
        ensures
            0 <= self.total_upto(k),
            0 <= d < k ==> items_sum(self.lists@[d]@) <= self.total_upto(k),
        decreases k,
    {
        if k > 0 {
            self.lemma_list_le_total(d, k - 1);
            lemma_sum_nonneg(self.lists@[k - 1]@);
        }
    }

    fn copy_list(&self, d: usize) -> (r: Vec<FundItem>)
        requires
            d < self.lists@.len(),
        ensures
            r@ == self.lists@[d as int]@,
    {
        let mut r: Vec<FundItem> = Vec::new();
        let mut i: usize = 0;
        while i < self.lists[d].len()
            invariant
                d < self.lists@.len(),
                i <= self.lists@[d as int]@.len(),
                r@ == self.lists@[d as int]@.take(i as int),
            decreases self.lists@[d as int]@.len() - i,
        {
            r.push(self.lists[d][i]);
            i = i + 1;
            assert(r@ =~= self.lists@[d as int]@.take(i as int));
        }
        assert(self.lists@[d as int]@.take(i as int) =~= self.lists@[d as int]@);
        r
    }

    /// The list of discriminant `discriminant`, oldest item first; empty for an unknown one.
    pub fn get_fund_list(&self, discriminant: u8) -> (r: FundList)
        requires
            self.wf(),
        ensures
            discriminant < NUM_DISCRIMINANTS ==> r.0@ == self.list(discriminant as int),
            discriminant >= NUM_DISCRIMINANTS ==> r.0@.len() == 0,
    {
        if (discriminant as usize) < NUM_DISCRIMINANTS {
            FundList(self.copy_list(discriminant as usize))
        } else {
            FundList(Vec::new())
        }
    }

    /// Adds `balance` of funds described by `info`, merged into the last item of its list when
    /// that has the same owner and type.
    pub fn create_fund(&mut self, info: FundInfo, balance: u128)
        requires
            old(self).wf(),
            old(self).total() + balance <= u128::MAX,
        ensures
            final(self).wf(),
            balance > 0 ==> final(self).list(spec_discriminant(info.fund_type) as int) == pushed(
                old(self).list(spec_discriminant(info.fund_type) as int),
                FundItem { info, balance },
            ),
            balance == 0 ==> *final(self) == *old(self),
            forall|d: int| 0 <= d < NUM_DISCRIMINANTS && d != spec_discriminant(info.fund_type) ==> #[trigger] final(self).list(d) == old(self).list(d),
            final(self).total() == old(self).total() + balance,
    {
        if balance == 0 {
            return;
        }
        let d = info.fund_type.discriminant() as usize;
        let mut list = FundList(self.copy_list(d));
        proof {
            self.lemma_list_le_total(d as int, NUM_DISCRIMINANTS as int);
            let ghost s = self.lists@[d as int]@;
            if s.len() > 0 {
                lemma_last_le_sum(s);
            }
        }
        let ghost old_self = *self;
        list.push(FundItem { info, balance });
        proof {
            lemma_pushed_sum(old_self.lists@[d as int]@, FundItem { info, balance });
        }
        self.lists.set(d, list.0);
        proof {
            Self::lemma_total_change(old_self, *self, d as int, NUM_DISCRIMINANTS as int);
            let ghost s = self.lists@[d as int]@;
            let o = old_self.lists@[d as int]@;
            assert(list_ok(s, d as int)) by {
                assert forall|i: int| 0 <= i < s.len() implies #[trigger] s[i].balance > 0 && spec_discriminant(s[i].info.fund_type)
                    == d as int by {
                    if i < o.len() {
                        assert(o[i].balance > 0);
                    }
                }
            }
            assert forall|e: int| 0 <= e < NUM_DISCRIMINANTS implies list_ok(#[trigger] self.lists@[e]@, e) by {
                if e != d as int {
                    assert(self.lists@[e] == old_self.lists@[e]);
                }
            }
        }
    }
}

pub proof fn lemma_sum_nonneg(s: Seq<FundItem>)
    ensures
        items_sum(s) >= 0,
    decreases s.len(),
{
    if s.len() > 0 {
        lemma_sum_nonneg(s.drop_last());
    }
}

pub proof fn lemma_last_le_sum(s: Seq<FundItem>)
    requires
        s.len() > 0,
    ensures
        s.last().balance <= items_sum(s),
{
    lemma_sum_nonneg(s.drop_last());
}

/// A pushed item with a positive balance and the list's discriminant keeps the list well formed.
pub proof fn lemma_pushed_ok(list: Seq<FundItem>, item: FundItem, d: int)
    requires
        list_ok(list, d),
        item.balance > 0,
        spec_discriminant(item.info.fund_type) == d,
        list.len() > 0 && list.last().info == item.info ==> list.last().balance + item.balance <= u128::MAX,
    ensures
        list_ok(pushed(list, item), d),
{
    let p = pushed(list, item);
    assert forall|i: int| 0 <= i < p.len() implies #[trigger] p[i].balance > 0 && spec_discriminant(p[i].info.fund_type) == d by {
        if list.len() > 0 && list.last().info == item.info {
            if i == list.len() - 1 {
                assert(list[i].balance > 0);
                assert(p[i].info == list.last().info);
            } else {
                assert(list[i].balance > 0);
            }
        } else if i < list.len() {
            assert(list[i].balance > 0);
        }
    }
}

/// How much of a balance `bal` a walk with maximum `max` takes.
pub open spec fn taken(max: Option<u128>, bal: u128) -> u128 {
    match max {
        Some(a) => if a < bal {
            a
        } else {
            bal
        },
        None => bal,
    }
}

impl FundStore {
    /// Walks the list of discriminant `source` as `process` says with the transformation `g`
    /// that `filter_transform` computes, and pushes what moves onto the list of `dest` (or
    /// drops it when there is none). Returns the sum moved and what is left of the maximum.
    #[verifier::spinoff_prover]
    #[verifier::rlimit(100)]
    fn walk_list<F: Fn(FundInfo) -> Option<FundInfo>>(
        &mut self,
        max: Option<u128>,
        source: usize,
        dest: Option<usize>,
        filter_transform: F,
        Ghost(g): Ghost<spec_fn(FundInfo) -> Option<FundInfo>>,
    ) -> (r: (u128, Option<u128>))
        requires
            old(self).wf(),
            source < NUM_DISCRIMINANTS,
            dest matches Some(d) ==> d < NUM_DISCRIMINANTS && d != source,
            forall|info: FundInfo| filter_transform.requires((info,)),
            forall|info: FundInfo, o: Option<FundInfo>| filter_transform.ensures((info,), o) ==> o == g(info),
            forall|info: FundInfo|
                #[trigger] g(info) is Some ==> (dest matches Some(d) && spec_discriminant(g(info).unwrap().fund_type)
                    == d) || dest is None,
        ensures
            final(self).wf(),
            final(self).list(source as int) == process(old(self).list(source as int), max, g).0,
            dest matches Some(d) ==> final(self).list(d as int) == pushed_all(
                old(self).list(d as int),
                process(old(self).list(source as int), max, g).1,
            ),
            forall|e: int|
                0 <= e < NUM_DISCRIMINANTS && e != source && (dest matches Some(d) ==> e != d) ==> #[trigger] final(self).list(
                    e,
                ) == old(self).list(e),
            r.0 == items_sum(process(old(self).list(source as int), max, g).1),
            r.1 == process(old(self).list(source as int), max, g).2,
            final(self).total() == old(self).total() - (if dest is None {
                r.0 as int
            } else {
                0
            }),
    {
        let ghost old_self = *self;
        let src = self.copy_list(source);
        let mut dest_list: FundList = match dest {
            Some(d) => FundList(self.copy_list(d)),
            None => FundList(Vec::new()),
        };
        let ghost old_dest: Seq<FundItem> = dest_list.0@;
        let ghost d_int: int = match dest {
            Some(d) => d as int,
            None => 0,
        };
        let mut kept: Vec<FundItem> = Vec::new();
        let mut cur = max;
        let mut moved_total: u128 = 0;
        let ghost mut moved: Seq<FundItem> = Seq::empty();
        let mut i: usize = 0;
        proof {
            old_self.lemma_list_le_total(source as int, NUM_DISCRIMINANTS as int);
            match dest {
                Some(d) => {
                    Self::lemma_two_lists_le_total(old_self, source as int, d as int);
                    assert(list_ok(old_dest, d as int));
                    lemma_sum_nonneg(old_dest);
                },
                None => {
                    lemma_sum_nonneg(old_dest);
                },
            }
            assert(src@.skip(0) =~= src@);
            assert(kept@ + process(src@.skip(0), cur, g).0 =~= process(src@, max, g).0);
            assert(moved + process(src@.skip(0), cur, g).1 =~= process(src@, max, g).1);
        }
        while i < src.len()
            invariant
                old_self.wf(),
                src@ == old_self.list(source as int),
                i <= src@.len(),
                list_ok(src@, source as int),
                forall|info: FundInfo| filter_transform.requires((info,)),
                forall|info: FundInfo, o: Option<FundInfo>| filter_transform.ensures((info,), o) ==> o == g(info),
                forall|info: FundInfo|
                    #[trigger] g(info) is Some ==> (dest matches Some(d) && spec_discriminant(g(info).unwrap().fund_type)
                        == d) || dest is None,
                process(src@, max, g).0 == kept@ + process(src@.skip(i as int), cur, g).0,
                process(src@, max, g).1 == moved + process(src@.skip(i as int), cur, g).1,
                process(src@, max, g).2 == process(src@.skip(i as int), cur, g).2,
                dest matches Some(d) ==> dest_list.0@ == pushed_all(old_dest, moved),
                dest matches Some(d) ==> list_ok(dest_list.0@, d as int),
                dest matches Some(d) ==> items_sum(dest_list.0@) == items_sum(old_dest) + items_sum(moved),
                list_ok(kept@, source as int),
                items_sum(kept@) + items_sum(moved) + items_sum(src@.skip(i as int)) == items_sum(src@),
                items_sum(src@) + items_sum(old_dest) <= u128::MAX,
                items_sum(old_dest) >= 0,
                moved_total == items_sum(moved),
                max is None ==> cur is None,
            ensures
                i < src@.len() ==> cur == Some(0u128),
            decreases src@.len() - i,
        {
            if cur == Some(0u128) {
                break;
            }
            let it = src[i];
            let ghost rest = src@.skip(i + 1);
            proof {
                assert(src@.skip(i as int).subrange(1, src@.skip(i as int).len() as int) =~= rest);
                assert(src@.skip(i as int)[0] == it);
                lemma_sum_front(src@.skip(i as int));
                lemma_sum_nonneg(kept@);
                lemma_sum_nonneg(moved);
                lemma_sum_nonneg(rest);
                assert(it.balance > 0);
            }
            match filter_transform(it.info) {
                None => {
                    let ghost kb0 = kept@;
                    kept.push(it);
                    proof {
                        assert(kept@.drop_last() =~= kb0);
                        assert(list_ok(kept@, source as int)) by {
                            assert forall|j: int| 0 <= j < kept@.len() implies #[trigger] kept@[j].balance > 0
                                && spec_discriminant(kept@[j].info.fund_type) == source as int by {
                                if j < kept@.len() - 1 {
                                    assert(kept@[j] == kb0[j]);
                                }
                            }
                        }
                        assert(process(src@.skip(i as int), cur, g).0 =~= seq![it] + process(rest, cur, g).0);
                        assert(kept@ + process(rest, cur, g).0 =~= kb0 + (seq![it] + process(rest, cur, g).0));
                    }
                },
                Some(info) => {
                    let x: u128 = match cur {
                        Some(a) => if a < it.balance {
                            a
                        } else {
                            it.balance
                        },
                        None => it.balance,
                    };
                    let ghost cur_before = cur;
                    let ghost kept_before = kept@;
                    cur = match cur {
                        Some(a) => Some(a - x),
                        None => None,
                    };
                    if it.balance > x {
                        kept.push(FundItem { info: it.info, balance: it.balance - x });
                    }
                    let moved_item = FundItem { info, balance: x };
                    proof {
                        assert(x > 0);
                        lemma_sum_nonneg(dest_list.0@);
                        if dest_list.0@.len() > 0 {
                            lemma_last_le_sum(dest_list.0@);
                        }
                    }
                    match dest {
                        Some(d) => {
                            dest_list.push(moved_item);
                            proof {
                                lemma_pushed_sum(pushed_all(old_dest, moved), moved_item);
                                lemma_pushed_ok(pushed_all(old_dest, moved), moved_item, d as int);
                                assert(moved.push(moved_item).drop_last() =~= moved);
                            }
                        },
                        None => {},
                    }
                    moved_total = moved_total + x;
                    proof {
                        let kept_item = FundItem { balance: (it.balance - x) as u128, ..it };
                        if it.balance > x {
                            assert(kept@.drop_last() =~= kept_before);
                            assert(kept@ + process(rest, cur, g).0 =~= kept_before + (seq![kept_item] + process(rest, cur, g).0));
                            assert(items_sum(kept@) == items_sum(kept_before) + kept_item.balance);
                            assert(list_ok(kept@, source as int)) by {
                                assert forall|j: int| 0 <= j < kept@.len() implies #[trigger] kept@[j].balance > 0
                                    && spec_discriminant(kept@[j].info.fund_type) == source as int by {
                                    if j < kept@.len() - 1 {
                                        assert(kept@[j] == kept_before[j]);
                                    }
                                }
                            }
                        }
                        assert(moved.push(moved_item) + process(rest, cur, g).1 =~= moved + (seq![moved_item] + process(rest, cur, g).1));
                        assert(moved.push(moved_item).drop_last() =~= moved);
                        moved = moved.push(moved_item);
                    }
                },
            }
            i = i + 1;
        }
        proof {
            let tail = src@.skip(i as int);
            if i < src@.len() {
                assert(cur == Some(0u128));
            } else {
                assert(tail =~= Seq::<FundItem>::empty());
            }
        }
        let ghost kept_mid = kept@;
        let ghost i_mid = i;
        while i < src.len()
            invariant
                i <= src@.len(),
                kept@ + src@.skip(i as int) == kept_mid + src@.skip(i_mid as int),
                list_ok(kept@, source as int),
                list_ok(src@, source as int),
                items_sum(kept@) + items_sum(src@.skip(i as int)) == items_sum(kept_mid) + items_sum(src@.skip(i_mid as int)),
            decreases src@.len() - i,
        {
            let ghost kb = kept@;
            let it = src[i];
            kept.push(it);
            proof {
                assert(src@.skip(i as int) =~= seq![it] + src@.skip(i + 1));
                lemma_sum_front(src@.skip(i as int));
                assert(src@.skip(i as int).subrange(1, src@.skip(i as int).len() as int) =~= src@.skip(i + 1));
                assert(kept@.drop_last() =~= kb);
                assert(kept@ + src@.skip(i + 1) =~= kb + src@.skip(i as int));
                assert forall|j: int| 0 <= j < kept@.len() implies #[trigger] kept@[j].balance > 0
                    && spec_discriminant(kept@[j].info.fund_type) == source as int by {
                    if j < kept@.len() - 1 {
                        assert(kept@[j] == kb[j]);
                    } else {
                        assert(src@[i as int].balance > 0);
                    }
                }
            }
            i = i + 1;
        }
        proof {
            assert(src@.skip(i as int) =~= Seq::<FundItem>::empty());
            assert(kept@ =~= process(src@, max, g).0);
        }
        let ghost mid = *self;
        self.lists.set(source, kept);
        proof {
            Self::lemma_total_change(old_self, *self, source as int, NUM_DISCRIMINANTS as int);
        }
        let ghost mid2 = *self;
        match dest {
            Some(d) => {
                self.lists.set(d, dest_list.0);
                proof {
                    Self::lemma_total_change(mid2, *self, d as int, NUM_DISCRIMINANTS as int);
                }
            },
            None => {},
        }
        proof {
            assert forall|e: int| 0 <= e < NUM_DISCRIMINANTS implies list_ok(#[trigger] self.lists@[e]@, e) by {
                if e != source as int && (dest matches Some(d) ==> e != d) {
                    assert(self.lists@[e] == old_self.lists@[e]);
                }
            }
            lemma_process_sums(src@, max, g);
        }
        (moved_total, cur)
    }

    /// Two different lists together hold no more than all lists.
    pub proof fn lemma_two_lists_le_total(s: FundStore, a: int, b: int)
        requires
            s.wf(),
            0 <= a < NUM_DISCRIMINANTS,
            0 <= b < NUM_DISCRIMINANTS,
            a != b,
        ensures
            items_sum(s.list(a)) + items_sum(s.list(b)) <= s.total(),
    {
        s.lemma_two_upto(a, b, NUM_DISCRIMINANTS as int);
    }

    proof fn lemma_two_upto(&self, a: int, b: int, k: int)
        requires
            self.lists@.len() == NUM_DISCRIMINANTS,
            forall|e: int| 0 <= e < NUM_DISCRIMINANTS ==> list_ok(#[trigger] self.lists@[e]@, e),
            0 <= k <= NUM_DISCRIMINANTS,
            a != b,
        ensures
            (if 0 <= a < k {
                items_sum(self.lists@[a]@)
            } else {
                0
            }) + (if 0 <= b < k {
                items_sum(self.lists@[b]@)
            } else {
                0
            }) <= self.total_upto(k),
        decreases k,
    {
        if k > 0 {
            self.lemma_two_upto(a, b, k - 1);
            lemma_sum_nonneg(self.lists@[k - 1]@);
            if 0 <= a < k - 1 {
                lemma_sum_nonneg(self.lists@[a]@);
            }
            if 0 <= b < k - 1 {
                lemma_sum_nonneg(self.lists@[b]@);
            }
        }
    }
}

/// `new` is `old` after walking the list of `source` with maximum `max` and transformation
/// `g`, pushing what moved onto the list of `dest` (dropping it when there is none); `left` is
/// what remains of the maximum and `moved` the sum that moved.
pub open spec fn walked(
    old: FundStore,
    new: FundStore,
    source: int,
    dest: Option<int>,
    max: Option<u128>,
    g: spec_fn(FundInfo) -> Option<FundInfo>,
    left: Option<u128>,
    moved: int,
) -> bool {
    let (kept, mv, l) = process(old.list(source), max, g);
    &&& new.list(source) == kept
    &&& (dest matches Some(d) ==> new.list(d) == pushed_all(old.list(d), mv))
    &&& forall|e: int|
        0 <= e < NUM_DISCRIMINANTS && e != source && (dest matches Some(d) ==> e != d) ==> #[trigger] new.list(e)
            == old.list(e)
    &&& left == l
    &&& moved == items_sum(mv)
    &&& new.total() == old.total() - (if dest is None {
        moved
    } else {
        0
    })
}

/// Keeps the funds for which `p` holds, as a transformation that leaves their information as is.
pub open spec fn keep_if(p: spec_fn(FundInfo) -> bool) -> spec_fn(FundInfo) -> Option<FundInfo> {
    |info: FundInfo| if p(info) {
        Some(info)
    } else {
        None
    }
}

impl FundStore {
    /// Moves up to `max_amount` from the funds of discriminant `source_discriminant` that
    /// `filter_transform` transforms (as `g` describes it), oldest first, to the list of
    /// `dest_discriminant`; `max_amount` is lowered by what moved.
    pub fn split_convert_max<F: Fn(FundInfo) -> Option<FundInfo>>(
        &mut self,
        max_amount: &mut u128,
        source_discriminant: u8,
        dest_discriminant: u8,
        filter_transform: F,
        Ghost(g): Ghost<spec_fn(FundInfo) -> Option<FundInfo>>,
    )
        requires
            old(self).wf(),
            source_discriminant < NUM_DISCRIMINANTS,
            dest_discriminant < NUM_DISCRIMINANTS,
            source_discriminant != dest_discriminant,
            forall|info: FundInfo| filter_transform.requires((info,)),
            forall|info: FundInfo, o: Option<FundInfo>| filter_transform.ensures((info,), o) ==> o == g(info),
            forall|info: FundInfo|
                #[trigger] g(info) is Some ==> spec_discriminant(g(info).unwrap().fund_type) == dest_discriminant,
        ensures
            final(self).wf(),
            exists|moved: int|
                walked(
                    *old(self),
                    *final(self),
                    source_discriminant as int,
                    Some(dest_discriminant as int),
                    Some(*old(max_amount)),
                    g,
                    Some(*final(max_amount)),
                    moved,
                ),
    {
        let (moved, left) = self.walk_list(
            Some(*max_amount),
            source_discriminant as usize,
            Some(dest_discriminant as usize),
            filter_transform,
            Ghost(g),
        );
        proof {
            lemma_process_sums(old(self).list(source_discriminant as int), Some(*max_amount), g);
        }
        *max_amount = match left {
            Some(v) => v,
            None => 0,
        };
        assert(walked(
            *old(self),
            *self,
            source_discriminant as int,
            Some(dest_discriminant as int),
            Some(*old(max_amount)),
            g,
            Some(*max_amount),
            moved as int,
        ));
    }

    /// Moves all the funds of discriminant `source_discriminant` that `filter_transform`
    /// transforms to the list of `dest_discriminant`; returns the sum moved.
    pub fn split_convert_all<F: Fn(FundInfo) -> Option<FundInfo>>(
        &mut self,
        source_discriminant: u8,
        dest_discriminant: u8,
        filter_transform: F,
        Ghost(g): Ghost<spec_fn(FundInfo) -> Option<FundInfo>>,
    ) -> (r: Result<u128, &'static str>)
        requires
            old(self).wf(),
            source_discriminant < NUM_DISCRIMINANTS,
            dest_discriminant < NUM_DISCRIMINANTS,
            source_discriminant != dest_discriminant,
            forall|info: FundInfo| filter_transform.requires((info,)),
            forall|info: FundInfo, o: Option<FundInfo>| filter_transform.ensures((info,), o) ==> o == g(info),
            forall|info: FundInfo|
                #[trigger] g(info) is Some ==> spec_discriminant(g(info).unwrap().fund_type) == dest_discriminant,
        ensures
            final(self).wf(),
            r matches Ok(moved) && walked(
                *old(self),
                *final(self),
                source_discriminant as int,
                Some(dest_discriminant as int),
                None,
                g,
                None,
                moved as int,
            ),
    {
        let (moved, left) = self.walk_list(
            None,
            source_discriminant as usize,
            Some(dest_discriminant as usize),
            filter_transform,
            Ghost(g),
        );
        proof {
            lemma_process_sums(old(self).list(source_discriminant as int), None, g);
        }
        Ok(moved)
    }

    /// Takes up to `max_amount` out of the funds of discriminant `discriminant` that `filter`
    /// keeps (as `p` describes it), oldest first; `max_amount` is lowered by what was taken.
    pub fn destroy_max<F: Fn(FundInfo) -> bool>(
        &mut self,
        max_amount: &mut u128,
        discriminant: u8,
        filter: F,
        Ghost(p): Ghost<spec_fn(FundInfo) -> bool>,
    )
        requires
            old(self).wf(),
            discriminant < NUM_DISCRIMINANTS,
            forall|info: FundInfo| filter.requires((info,)),
            forall|info: FundInfo, b: bool| filter.ensures((info,), b) ==> b == p(info),
        ensures
            final(self).wf(),
            exists|moved: int|
                walked(
                    *old(self),
                    *final(self),
                    discriminant as int,
                    None,
                    Some(*old(max_amount)),
                    keep_if(p),
                    Some(*final(max_amount)),
                    moved,
                ),
    {
        let fr = &filter;
        let f = move |info: FundInfo| -> (o: Option<FundInfo>)
            requires
                fr.requires((info,)),
            ensures
                exists|b: bool| fr.ensures((info,), b) && o == (if b {
                    Some(info)
                } else {
                    None
                }),
            {
                if fr(info) {
                    Some(info)
                } else {
                    None
                }
            };
        proof {
            assert forall|info: FundInfo, o: Option<FundInfo>| f.ensures((info,), o) implies o == keep_if(p)(info) by {
                let b = choose|b: bool| fr.ensures((info,), b) && o == (if b {
                    Some(info)
                } else {
                    None
                });
            }
        }
        let (moved, left) = self.walk_list(Some(*max_amount), discriminant as usize, None, f, Ghost(keep_if(p)));
        proof {
            lemma_process_sums(old(self).list(discriminant as int), Some(*max_amount), keep_if(p));
        }
        *max_amount = match left {
            Some(v) => v,
            None => 0,
        };
        assert(walked(
            *old(self),
            *self,
            discriminant as int,
            None,
            Some(*old(max_amount)),
            keep_if(p),
            Some(*max_amount),
            moved as int,
        ));
    }

    /// Sum of the balances of the funds of discriminant `discriminant` that `filter` keeps.
    pub fn query_list<F: Fn(FundInfo) -> bool>(&self, discriminant: u8, filter: F, Ghost(p): Ghost<spec_fn(FundInfo) -> bool>) -> (r: u128)
        requires
            self.wf(),
            discriminant < NUM_DISCRIMINANTS,
            forall|info: FundInfo| filter.requires((info,)),
            forall|info: FundInfo, b: bool| filter.ensures((info,), b) ==> b == p(info),
        ensures
            r == filtered_items_sum(self.list(discriminant as int), p),
    {
        let d = discriminant as usize;
        let mut sum: u128 = 0;
        let mut i: usize = 0;
        proof {
            self.lemma_list_le_total(d as int, NUM_DISCRIMINANTS as int);
        }
        while i < self.lists[d].len()
            invariant
                self.wf(),
                d < NUM_DISCRIMINANTS,
                i <= self.lists@[d as int]@.len(),
                forall|info: FundInfo| filter.requires((info,)),
                forall|info: FundInfo, b: bool| filter.ensures((info,), b) ==> b == p(info),
                sum == filtered_items_sum(self.lists@[d as int]@.take(i as int), p),
                items_sum(self.lists@[d as int]@) <= u128::MAX,
            decreases self.lists@[d as int]@.len() - i,
        {
            let it = self.lists[d][i];
            let ghost s = self.lists@[d as int]@;
            proof {
                assert(s.take(i + 1).drop_last() =~= s.take(i as int));
                lemma_filtered_le(s.take(i + 1), p);
                lemma_prefix_items_sum_le(s, i + 1);
            }
            if filter(it.info) {
                sum = sum + it.balance;
            }
            i = i + 1;
        }
        proof {
            assert(self.lists@[d as int]@.take(i as int) =~= self.lists@[d as int]@);
        }
        sum
    }
}

pub proof fn lemma_filtered_le(s: Seq<FundItem>, p: spec_fn(FundInfo) -> bool)
    ensures
        0 <= filtered_items_sum(s, p) <= items_sum(s),
    decreases s.len(),
{
    if s.len() > 0 {
        lemma_filtered_le(s.drop_last(), p);
    }
}

pub proof fn lemma_prefix_items_sum_le(s: Seq<FundItem>, k: int)
    requires
        0 <= k <= s.len(),
    ensures
        items_sum(s.take(k)) <= items_sum(s),
    decreases s.len() - k,
{
    if k < s.len() {
        lemma_prefix_items_sum_le(s, k + 1);
        assert(s.take(k + 1).drop_last() =~= s.take(k));
    } else {
        assert(s.take(k) =~= s);
    }
}

impl FundStore {
    /// Sum over the first `k` lists of the balances of the funds for which `p` holds.
    pub open spec fn filtered_total(&self, p: spec_fn(FundInfo) -> bool, k: int) -> int
        decreases k,
    {
        if k <= 0 {
            0
        } else {
            self.filtered_total(p, k - 1) + filtered_items_sum(self.list(k - 1), p)
        }
    }

    proof fn lemma_filtered_total_le(&self, p: spec_fn(FundInfo) -> bool, k: int)
        requires
            0 <= k <= NUM_DISCRIMINANTS,
        ensures
            0 <= self.filtered_total(p, k) <= self.total_upto(k),
        decreases k,
    {
        if k > 0 {
            self.lemma_filtered_total_le(p, k - 1);
            lemma_filtered_le(self.list(k - 1), p);
        }
    }

    /// Sum of the balances of all funds that `filter` keeps.
    pub fn query_all<F: Fn(FundInfo) -> bool>(&self, filter: F, Ghost(p): Ghost<spec_fn(FundInfo) -> bool>) -> (r: u128)
        requires
            self.wf(),
            forall|info: FundInfo| filter.requires((info,)),
            forall|info: FundInfo, b: bool| filter.ensures((info,), b) ==> b == p(info),
        ensures
            r == self.filtered_total(p, NUM_DISCRIMINANTS as int),
    {
        let mut sum: u128 = 0;
        let mut d: usize = 0;
        proof {
            self.lemma_filtered_total_le(p, NUM_DISCRIMINANTS as int);
        }
        while d < NUM_DISCRIMINANTS
            invariant
                self.wf(),
                d <= NUM_DISCRIMINANTS,
                forall|info: FundInfo| filter.requires((info,)),
                forall|info: FundInfo, b: bool| filter.ensures((info,), b) ==> b == p(info),
                sum == self.filtered_total(p, d as int),
                self.filtered_total(p, NUM_DISCRIMINANTS as int) <= u128::MAX,
            decreases NUM_DISCRIMINANTS - d,
        {
            proof {
                self.lemma_filtered_total_mono(p, d + 1, NUM_DISCRIMINANTS as int);
            }
            let fr = &filter;
            let part = self.query_list(d as u8, fr, Ghost(p));
            sum = sum + part;
            d = d + 1;
        }
        sum
    }

    proof fn lemma_filtered_total_mono(&self, p: spec_fn(FundInfo) -> bool, j: int, k: int)
        requires
            0 <= j <= k,
        ensures
            self.filtered_total(p, j) <= self.filtered_total(p, k),
        decreases k - j,
    {
        if j < k {
            self.lemma_filtered_total_mono(p, j, k - 1);
            lemma_filtered_le(self.list(k - 1), p);
        }
    }
}

impl FundStore {
    /// The sum of one list is part of the sum of all balances, which fits in a `u128`.
    pub proof fn lemma_list_fits(&self, d: int)
        requires
            self.wf(),
            0 <= d < NUM_DISCRIMINANTS,
        ensures
            0 <= items_sum(self.list(d)) <= self.total() <= u128::MAX,
    {
        self.lemma_list_le_total(d, NUM_DISCRIMINANTS as int);
        lemma_sum_nonneg(self.list(d));
    }
}
impl FundStore {
    /// Whether two stores hold the same lists.
    pub open spec fn same_lists(&self, other: &FundStore) -> bool {
        forall|d: int| 0 <= d < NUM_DISCRIMINANTS ==> #[trigger] self.list(d) == other.list(d)
    }

    /// Stores with the same lists have the same total and are equally well formed.
    proof fn lemma_same_lists(a: &FundStore, b: &FundStore)
        requires
            a.wf(),
            a.same_lists(b),
            b.lists@.len() == NUM_DISCRIMINANTS,
        ensures
            b.wf(),
            b.total() == a.total(),
    {
        Self::lemma_same_upto(a, b, NUM_DISCRIMINANTS as int);
        assert forall|d: int| 0 <= d < NUM_DISCRIMINANTS implies list_ok(#[trigger] b.lists@[d]@, d) by {
            assert(a.list(d) == b.list(d));
        }
    }

    proof fn lemma_same_upto(a: &FundStore, b: &FundStore, k: int)
        requires
            a.same_lists(b),
            0 <= k <= NUM_DISCRIMINANTS,
        ensures
            b.total_upto(k) == a.total_upto(k),
        decreases k,
    {
        if k > 0 {
            Self::lemma_same_upto(a, b, k - 1);
            assert(a.list(k - 1) == b.list(k - 1));
        }
    }

    /// A copy of the store.
    pub fn duplicate(&self) -> (r: FundStore)
        requires
            self.wf(),
        ensures
            r.wf(),
            r.same_lists(self),
            self.same_lists(&r),
            r.total() == self.total(),
    {
        let mut lists: Vec<Vec<FundItem>> = Vec::new();
        let mut d: usize = 0;
        while d < NUM_DISCRIMINANTS
            invariant
                self.wf(),
                d <= NUM_DISCRIMINANTS,
                lists@.len() == d,
                forall|e: int| 0 <= e < d ==> (#[trigger] lists@[e])@ == self.lists@[e]@,
            decreases NUM_DISCRIMINANTS - d,
        {
            lists.push(self.copy_list(d));
            d = d + 1;
        }
        let r = FundStore { lists };
        proof {
            Self::lemma_same_lists(self, &r);
        }
        r
    }
}

/// Walking a store depends only on its lists.
pub proof fn lemma_walked_same_lists(
    a: FundStore,
    b: FundStore,
    new: FundStore,
    source: int,
    dest: Option<int>,
    max: Option<u128>,
    g: spec_fn(FundInfo) -> Option<FundInfo>,
    left: Option<u128>,
    moved: int,
)
    requires
        a.same_lists(&b),
        a.total() == b.total(),
        0 <= source < NUM_DISCRIMINANTS,
        dest matches Some(d) ==> 0 <= d < NUM_DISCRIMINANTS,
        walked(a, new, source, dest, max, g, left, moved),
    ensures
        walked(b, new, source, dest, max, g, left, moved),
{
    assert(a.list(source) == b.list(source));
    if let Some(d) = dest {
        assert(a.list(d) == b.list(d));
    }
}

} // verus!
