use vstd::prelude::*;

verus! {

/// An account address, as its bytes. Empty bytes stand for "no address".
pub type Address = Vec<u8>;

/// One entry of the address-to-id mapping.
pub struct UserIdEntry {
    pub address: Vec<u8>,
    pub user_id: usize,
}

/// What the user data storage holds: the number of users, the id registered for each
/// address (absent means 0), and the address stored for each id (absent means empty).
pub struct UserView {
    pub num_users: nat,
    pub ids: Map<Seq<u8>, usize>,
    pub addresses: Map<usize, Seq<u8>>,
}

/// Id registered for address `a` (0 when none).
pub open spec fn id_of(v: UserView, a: Seq<u8>) -> usize {
    if v.ids.contains_key(a) {
        v.ids[a]
    } else {
        0
    }
}

/// Address stored for user `id` (empty when none).
pub open spec fn address_of(v: UserView, id: usize) -> Seq<u8> {
    if v.addresses.contains_key(id) {
        v.addresses[id]
    } else {
        Seq::empty()
    }
}

/// `v` with address `a` stored for user `id`; storing empty bytes clears the entry.
pub open spec fn with_address(v: UserView, id: usize, a: Seq<u8>) -> UserView {
    UserView {
        addresses: if a.len() == 0 {
            v.addresses.remove(id)
        } else {
            v.addresses.insert(id, a)
        },
        ..v
    }
}

/// What registering address `a` makes of `v`: the id of its user (a new one, with the next
/// id, when the address is unknown) and the new view, where the address is stored for that
/// user unless one was stored already.
pub open spec fn user_registration(v: UserView, a: Seq<u8>) -> (usize, UserView) {
    if id_of(v, a) == 0 {
        let r = (v.num_users + 1) as usize;
        (r, with_address(UserView { num_users: r as nat, ids: v.ids.insert(a, r), addresses: v.addresses }, r, a))
    } else {
        let r = id_of(v, a);
        (
            r,
            if address_of(v, r).len() == 0 {
                with_address(v, r, a)
            } else {
                v
            },
        )
    }
}

/// Registering the same address again gives the same id and changes nothing more.
pub proof fn law_registration_idempotent(v: UserView, a: Seq<u8>)
    requires
        id_of(v, a) == 0 ==> v.num_users < usize::MAX,
    ensures
        ({
            let (r1, v1) = user_registration(v, a);
            let (r2, v2) = user_registration(v1, a);
            r2 == r1 && v2 == v1 && r1 != 0
        }),
{
    let (r1, v1) = user_registration(v, a);
    assert(id_of(v1, a) == r1);
    if a.len() == 0 && address_of(v1, r1).len() == 0 {
        assert(!v1.addresses.contains_key(r1));
        assert(v1.addresses.remove(r1) =~= v1.addresses);
    }
}

/// One step of an address update: the new view, and which counter it increments
/// (0: updated, 1: already had an address, 2: unknown address).
pub open spec fn update_step(v: UserView, a: Seq<u8>) -> (UserView, int) {
    let id = id_of(v, a);
    if id > 0 {
        if address_of(v, id).len() == 0 {
            (with_address(v, id, a), 0)
        } else {
            (v, 1)
        }
    } else {
        (v, 2)
    }
}

/// The view and the three counters after updating the addresses in `s`, one after the other.
pub open spec fn update_all(v: UserView, s: Seq<Seq<u8>>) -> (UserView, (int, int, int))
    decreases s.len(),
{
    if s.len() == 0 {
        (v, (0, 0, 0))
    } else {
        let (v1, c) = update_all(v, s.drop_last());
        let (v2, which) = update_step(v1, s.last());
        (
            v2,
            (
                c.0 + (if which == 0 {
                    1int
                } else {
                    0
                }),
                c.1 + (if which == 1 {
                    1int
                } else {
                    0
                }),
                c.2 + (if which == 2 {
                    1int
                } else {
                    0
                }),
            ),
        )
    }
}

/// Storage of data about delegators: ids by address, addresses by id, number of users.
pub struct UserDataModule {
    num_users: usize,
    user_ids: Vec<UserIdEntry>,
    user_addresses: Vec<Vec<u8>>,
    ids: Ghost<Map<Seq<u8>, usize>>,
}

/// Whether two byte vectors hold the same bytes.
pub fn bytes_eq(a: &Vec<u8>, b: &Vec<u8>) -> (r: bool)
    ensures
        r == (a@ == b@),
{
    if a.len() != b.len() {
        return false;
    }
    let mut i: usize = 0;
    while i < a.len()
        invariant
            i <= a@.len(),
            a@.len() == b@.len(),
            forall|j: int| 0 <= j < i ==> a@[j] == b@[j],
        decreases a@.len() - i,
    {
        if a[i] != b[i] {
            return false;
        }
        i = i + 1;
    }
    assert(a@ =~= b@);
    true
}

/// Copy of a byte vector.
pub fn copy_bytes(a: &Vec<u8>) -> (r: Vec<u8>)
    ensures
        r@ == a@,
{
    let mut r: Vec<u8> = Vec::new();
    let mut i: usize = 0;
    while i < a.len()
        invariant
            i <= a@.len(),
            r@ == a@.take(i as int),
        decreases a@.len() - i,
    {
        r.push(a[i]);
        i = i + 1;
        assert(r@ =~= a@.take(i as int));
    }
    assert(a@.take(a@.len() as int) =~= a@);
    r
}

impl View for UserDataModule {
    type V = UserView;

    /// What the storage holds.
    closed spec fn view(&self) -> UserView {
        UserView {
            num_users: self.num_users as nat,
            ids: self.ids@,
            addresses: Map::new(
                |id: usize| id < self.user_addresses@.len() && self.user_addresses@[id as int]@.len() > 0,
                |id: usize| self.user_addresses@[id as int]@,
            ),
        }
    }
}

impl UserDataModule {
    /// The storage invariant: the id mapping holds each address at most once and the ghost
    /// map says what it holds.
    pub closed spec fn wf(&self) -> bool {
        &&& forall|i: int, j: int|
            0 <= i < j < self.user_ids@.len() ==> (#[trigger] self.user_ids@[i]).address@ != (
            #[trigger] self.user_ids@[j]).address@
        &&& forall|i: int|
            0 <= i < self.user_ids@.len() ==> #[trigger] self.ids@.contains_key(self.user_ids@[i].address@)
                && self.ids@[self.user_ids@[i].address@] == self.user_ids@[i].user_id
        &&& forall|a: Seq<u8>|
            #[trigger] self.ids@.contains_key(a) ==> exists|i: int|
                0 <= i < self.user_ids@.len() && self.user_ids@[i].address@ == a
    }

    /// Empty storage: no users, no ids, no addresses.
    pub fn new() -> (r: UserDataModule)
        ensures
            r.wf(),
            r.view().num_users == 0,
            r.view().ids == Map::<Seq<u8>, usize>::empty(),
            r.view().addresses == Map::<usize, Seq<u8>>::empty(),
    {
        let r = UserDataModule {
            num_users: 0,
            user_ids: Vec::new(),
            user_addresses: Vec::new(),
            ids: Ghost(Map::empty()),
        };
        assert(r.view().addresses =~= Map::<usize, Seq<u8>>::empty());
        r
    }

    fn find_entry(&self, address: &Vec<u8>) -> (r: Option<usize>)
        requires
            self.wf(),
        ensures
            r matches Some(k) ==> k < self.user_ids@.len() && self.user_ids@[k as int].address@ == address@,
            r is None ==> !self.ids@.contains_key(address@),
    {
        let mut k: usize = 0;
        while k < self.user_ids.len()
            invariant
                self.wf(),
                k <= self.user_ids@.len(),
                forall|j: int| 0 <= j < k ==> (#[trigger] self.user_ids@[j]).address@ != address@,
            decreases self.user_ids@.len() - k,
        {
            if bytes_eq(&self.user_ids[k].address, address) {
                return Some(k);
            }
            k = k + 1;
        }
        None
    }

    /// Id registered for `address`, 0 when none.
    pub fn get_user_id(&self, address: &Vec<u8>) -> (r: usize)
        requires
            self.wf(),
        ensures
            r == id_of(self.view(), address@),
    {
        match self.find_entry(address) {
            Some(k) => self.user_ids[k].user_id,
            None => 0,
        }
    }

    proof fn lemma_wf_frame(a: &UserDataModule, b: &UserDataModule)
        requires
            a.wf(),
            a.user_ids@ == b.user_ids@,
            a.ids@ == b.ids@,
        ensures
            b.wf(),
    {
        assert forall|x: Seq<u8>| #[trigger] b.ids@.contains_key(x) implies exists|i: int|
            0 <= i < b.user_ids@.len() && b.user_ids@[i].address@ == x by {
            assert(a.ids@.contains_key(x));
        }
    }

    /// Registers `user_id` for `address`.
    pub fn set_user_id(&mut self, address: &Vec<u8>, user_id: usize)
        requires
            old(self).wf(),
        ensures
            final(self).wf(),
            final(self).view() == (UserView { ids: old(self).view().ids.insert(address@, user_id), ..old(self).view() }),
    {
        let ghost old_entries = self.user_ids@;
        let ghost old_ids = self.ids@;
        match self.find_entry(address) {
            Some(k) => {
                let a = copy_bytes(address);
                self.user_ids.set(k, UserIdEntry { address: a, user_id });
                proof {
                    self.ids@ = self.ids@.insert(address@, user_id);
                    assert forall|i: int, j: int| 0 <= i < j < self.user_ids@.len() implies (
                    #[trigger] self.user_ids@[i]).address@ != (#[trigger] self.user_ids@[j]).address@ by {
                        assert(old_entries[i].address@ != old_entries[j].address@);
                    }
                    assert forall|i: int| 0 <= i < self.user_ids@.len() implies #[trigger] self.ids@.contains_key(
                        self.user_ids@[i].address@,
                    ) && self.ids@[self.user_ids@[i].address@] == self.user_ids@[i].user_id by {
                        if i != k {
                            assert(old_entries[i].address@ != old_entries[k as int].address@ || i == k);
                            assert(old_ids.contains_key(old_entries[i].address@));
                        }
                    }
                    assert forall|a2: Seq<u8>| #[trigger] self.ids@.contains_key(a2) implies exists|i: int|
                        0 <= i < self.user_ids@.len() && self.user_ids@[i].address@ == a2 by {
                        if a2 != address@ {
                            assert(old_ids.contains_key(a2));
                            let i = choose|i: int| 0 <= i < old_entries.len() && old_entries[i].address@ == a2;
                            assert(self.user_ids@[i].address@ == a2);
                        } else {
                            assert(self.user_ids@[k as int].address@ == a2);
                        }
                    }
                }
            },
            None => {
                let a = copy_bytes(address);
                self.user_ids.push(UserIdEntry { address: a, user_id });
                proof {
                    self.ids@ = self.ids@.insert(address@, user_id);
                    let n = old_entries.len() as int;
                    assert forall|i: int, j: int| 0 <= i < j < self.user_ids@.len() implies (
                    #[trigger] self.user_ids@[i]).address@ != (#[trigger] self.user_ids@[j]).address@ by {
                        if j == n {
                            assert(old_ids.contains_key(old_entries[i].address@));
                        } else {
                            assert(old_entries[i].address@ != old_entries[j].address@);
                        }
                    }
                    assert forall|i: int| 0 <= i < self.user_ids@.len() implies #[trigger] self.ids@.contains_key(
                        self.user_ids@[i].address@,
                    ) && self.ids@[self.user_ids@[i].address@] == self.user_ids@[i].user_id by {
                        if i < n {
                            assert(old_ids.contains_key(old_entries[i].address@));
                        }
                    }
                    assert forall|a2: Seq<u8>| #[trigger] self.ids@.contains_key(a2) implies exists|i: int|
                        0 <= i < self.user_ids@.len() && self.user_ids@[i].address@ == a2 by {
                        if a2 != address@ {
                            assert(old_ids.contains_key(a2));
                            let i = choose|i: int| 0 <= i < old_entries.len() && old_entries[i].address@ == a2;
                            assert(self.user_ids@[i].address@ == a2);
                        } else {
                            assert(self.user_ids@[n].address@ == a2);
                        }
                    }
                }
            },
        }
        assert(self.view().addresses =~= old(self).view().addresses);
    }

    /// Address stored for `user_id`; empty when none.
    pub fn get_user_address(&self, user_id: usize) -> (r: Vec<u8>)
        ensures
            r@ == address_of(self.view(), user_id),
    {
        if user_id < self.user_addresses.len() {
            copy_bytes(&self.user_addresses[user_id])
        } else {
            Vec::new()
        }
    }

    /// Whether no address is stored for `user_id`.
    pub fn is_empty_user_address(&self, user_id: usize) -> (r: bool)
        ensures
            r == (address_of(self.view(), user_id).len() == 0),
            r == !self.view().addresses.contains_key(user_id),
    {
        if user_id < self.user_addresses.len() {
            self.user_addresses[user_id].len() == 0
        } else {
            true
        }
    }

    /// Stores `address` for `user_id`; empty bytes clear the entry.
    pub fn set_user_address(&mut self, user_id: usize, address: &Vec<u8>)
        requires
            old(self).wf(),
        ensures
            final(self).wf(),
            final(self).view() == with_address(old(self).view(), user_id, address@),
    {
        let ghost old_view = self.view();
        let ghost old_addrs = self.user_addresses@;
        while self.user_addresses.len() <= user_id
            invariant
                self.wf(),
                self.ids@ == old(self).ids@,
                self.num_users == old(self).num_users,
                self.user_ids@ == old(self).user_ids@,
                self.user_addresses@.len() >= old_addrs.len(),
                forall|j: int| 0 <= j < old_addrs.len() ==> #[trigger] self.user_addresses@[j] == old_addrs[j],
                forall|j: int| old_addrs.len() <= j < self.user_addresses@.len() ==> (#[trigger] self.user_addresses@[j])@.len() == 0,
            decreases user_id + 1 - self.user_addresses@.len(),
        {
            self.user_addresses.push(Vec::new());
            proof {
                Self::lemma_wf_frame(old(self), self);
            }
        }
        let a = copy_bytes(address);
        self.user_addresses.set(user_id, a);
        proof {
            Self::lemma_wf_frame(old(self), self);
        }
        assert(self.view().addresses =~= with_address(old_view, user_id, address@).addresses) by {
            assert forall|id: usize| #[trigger] self.view().addresses.contains_key(id) == with_address(old_view, user_id, address@).addresses.contains_key(id) by {
                if id != user_id && id < old_addrs.len() {
                    assert(self.user_addresses@[id as int] == old_addrs[id as int]);
                }
            }
            assert forall|id: usize| #[trigger] self.view().addresses.contains_key(id) implies self.view().addresses[id] == with_address(old_view, user_id, address@).addresses[id] by {
                if id != user_id {
                    assert(self.user_addresses@[id as int] == old_addrs[id as int]);
                }
            }
        }
    }

    /// Number of users, the owner included, even those with nothing left in the contract.
    pub fn get_num_users(&self) -> (r: usize)
        ensures
            r == self.view().num_users,
    {
        self.num_users
    }

    pub fn set_num_users(&mut self, num_users: usize)
        requires
            old(self).wf(),
        ensures
            final(self).wf(),
            final(self).view() == (UserView { num_users: num_users as nat, ..old(self).view() }),
    {
        self.num_users = num_users;
        proof {
            Self::lemma_wf_frame(old(self), self);
        }
        assert(self.view().addresses =~= old(self).view().addresses);
    }

    /// Hands out the next user id, one above the number of users, and counts it.
    pub fn new_user(&mut self) -> (r: usize)
        requires
            old(self).wf(),
            old(self).view().num_users < usize::MAX,
        ensures
            final(self).wf(),
            r == old(self).view().num_users + 1,
            final(self).view() == (UserView { num_users: r as nat, ..old(self).view() }),
    {
        let n = self.num_users + 1;
        self.set_num_users(n);
        n
    }

    /// The id of `address`, registering it as a new user when it has none. A known user
    /// without a stored address gets this one.
    pub fn get_or_create_user(&mut self, address: &Vec<u8>) -> (r: usize)
        requires
            old(self).wf(),
            id_of(old(self).view(), address@) == 0 ==> old(self).view().num_users < usize::MAX,
        ensures
            final(self).wf(),
            (r, final(self).view()) == user_registration(old(self).view(), address@),
    {
        let mut user_id = self.get_user_id(address);
        if user_id == 0 {
            user_id = self.new_user();
            self.set_user_id(address, user_id);
            self.set_user_address(user_id, address);
        } else if self.is_empty_user_address(user_id) {
            self.set_user_address(user_id, address);
        }
        user_id
    }

    /// Stores each address for its user where the user has none yet, in order. Returns how
    /// many were updated, how many users already had an address, and how many addresses
    /// belong to no user.
    pub fn update_user_address(&mut self, addresses: &Vec<Vec<u8>>) -> (r: (usize, usize, usize))
        requires
            old(self).wf(),
        ensures
            final(self).wf(),
            ({
                let (v, c) = update_all(old(self).view(), addresses@.map_values(|a: Vec<u8>| a@));
                &&& final(self).view() == v
                &&& r.0 == c.0
                &&& r.1 == c.1
                &&& r.2 == c.2
            }),
    {
        let ghost s = addresses@.map_values(|a: Vec<u8>| a@);
        let mut num_updated: usize = 0;
        let mut num_not_updated: usize = 0;
        let mut num_not_found: usize = 0;
        let mut i: usize = 0;
        proof {
            assert(s.take(0) =~= Seq::<Seq<u8>>::empty());
        }
        while i < addresses.len()
            invariant
                self.wf(),
                i <= addresses@.len(),
                s == addresses@.map_values(|a: Vec<u8>| a@),
                ({
                    let (v, c) = update_all(old(self).view(), s.take(i as int));
                    &&& self.view() == v
                    &&& num_updated == c.0
                    &&& num_not_updated == c.1
                    &&& num_not_found == c.2
                }),
                num_updated + num_not_updated + num_not_found == i,
            decreases addresses@.len() - i,
        {
            proof {
                assert(s.take(i + 1).drop_last() =~= s.take(i as int));
                assert(s.take(i + 1).last() == addresses@[i as int]@);
            }
            let address = &addresses[i];
            let user_id = self.get_user_id(address);
            if user_id > 0 {
                if self.is_empty_user_address(user_id) {
                    self.set_user_address(user_id, address);
                    num_updated = num_updated + 1;
                } else {
                    num_not_updated = num_not_updated + 1;
                }
            } else {
                num_not_found = num_not_found + 1;
            }
            i = i + 1;
        }
        proof {
            assert(s.take(addresses@.len() as int) =~= s);
        }
        (num_updated, num_not_updated, num_not_found)
    }

    /// Ids from 1 to the number of users that have no stored address, in increasing order.
    pub fn user_ids_without_address(&self) -> (r: Vec<usize>)
        ensures
            forall|i: int, j: int| 0 <= i < j < r@.len() ==> r@[i] < r@[j],
            forall|id: usize|
                r@.contains(id) <==> (1 <= id <= self.view().num_users && !self.view().addresses.contains_key(id)),
    {
        let mut result: Vec<usize> = Vec::new();
        let num_users = self.num_users;
        let mut i: usize = 0;
        while i < num_users
            invariant
                num_users == self.view().num_users,
                i <= num_users,
                forall|a: int, b: int| 0 <= a < b < result@.len() ==> result@[a] < result@[b],
                forall|a: int| 0 <= a < result@.len() ==> result@[a] <= i,
                forall|id: usize| result@.contains(id) <==> (1 <= id <= i && !self.view().addresses.contains_key(id)),
            decreases num_users - i,
        {
            let user_id = i + 1;
            let ghost old_result = result@;
            if self.is_empty_user_address(user_id) {
                result.push(user_id);
                proof {
                    assert forall|id: usize| result@.contains(id) <==> (1 <= id <= user_id
                        && !self.view().addresses.contains_key(id)) by {
                        if result@.contains(id) && id != user_id {
                            let k = result@.index_of(id);
                            assert(k < old_result.len());
                            assert(old_result[k] == id);
                        }
                        if old_result.contains(id) {
                            let k = old_result.index_of(id);
                            assert(result@[k] == id);
                        }
                        if id == user_id {
                            assert(result@[old_result.len() as int] == id);
                        }
                    }
                }
            } else {
                proof {
                    assert forall|id: usize| result@.contains(id) <==> (1 <= id <= user_id
                        && !self.view().addresses.contains_key(id)) by {
                        if result@.contains(id) {
                            let k = result@.index_of(id);
                            assert(result@[k] <= i);
                        }
                    }
                }
            }
            i = i + 1;
        }
        result
    }
}

} // verus!
