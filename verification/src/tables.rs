//! The in-memory tables: users and objectives, each a sequence of records
//! with pairwise-distinct ids. All business rules live here: id allocation
//! (dense count-based for users, max-plus-one for objectives), upsert
//! semantics keyed by id, idempotent removal, and the referential check
//! that an objective's owner must exist.

use vstd::prelude::*;
use crate::structs::{User, Objective, UserRegister, Money, ObjectiveRegister, UserV, ObjectiveV};
use crate::StoreError;

verus! {

/// Whether some record in the user table carries this id.
pub open spec fn contains_uid(s: Seq<UserV>, id: u64) -> bool {
    exists|i: int| 0 <= i < s.len() && s[i].id == id
}

/// The index of the record carrying this id; meaningful under
/// [`contains_uid`] and unambiguous under [`wf_users`].
pub open spec fn uidx(s: Seq<UserV>, id: u64) -> int {
    choose|i: int| 0 <= i < s.len() && s[i].id == id
}

/// User ids are pairwise distinct.
pub open spec fn wf_users(s: Seq<UserV>) -> bool {
    forall|i: int, j: int| 0 <= i < j < s.len() ==> s[i].id != s[j].id
}

/// Insert keyed by id: replace the record that carries the id, or append
/// the record if the id is absent.
pub open spec fn upsert_user(s: Seq<UserV>, u: UserV) -> Seq<UserV> {
    if contains_uid(s, u.id) {
        s.update(uidx(s, u.id), u)
    } else {
        s.push(u)
    }
}

/// What creating a user does: the new id is the current record count (the
/// dense, creation-order policy), the balance starts at zero.
pub open spec fn create_user_spec(s: Seq<UserV>, name: Seq<char>) -> Seq<UserV> {
    upsert_user(s, UserV { id: s.len() as u64, name, money: 0 })
}

/// What overwriting a balance does: the named user's balance becomes the
/// amount, the name stays; an absent user leaves the table untouched.
pub open spec fn set_money_spec(s: Seq<UserV>, user_id: u64, amount: u64) -> Seq<UserV> {
    if contains_uid(s, user_id) {
        let i = uidx(s, user_id);
        s.update(i, UserV { id: s[i].id, name: s[i].name, money: amount })
    } else {
        s
    }
}

/// Whether some record in the objective table carries this id.
pub open spec fn contains_oid(s: Seq<ObjectiveV>, id: u64) -> bool {
    exists|i: int| 0 <= i < s.len() && s[i].id == id
}

/// The index of the record carrying this id; meaningful under
/// [`contains_oid`] and unambiguous under [`wf_objs`].
pub open spec fn oidx(s: Seq<ObjectiveV>, id: u64) -> int {
    choose|i: int| 0 <= i < s.len() && s[i].id == id
}

/// Objective ids are pairwise distinct.
pub open spec fn wf_objs(s: Seq<ObjectiveV>) -> bool {
    forall|i: int, j: int| 0 <= i < j < s.len() ==> s[i].id != s[j].id
}

/// Insert keyed by id: replace the record that carries the id, or append
/// the record if the id is absent.
pub open spec fn upsert_obj(s: Seq<ObjectiveV>, o: ObjectiveV) -> Seq<ObjectiveV> {
    if contains_oid(s, o.id) {
        s.update(oidx(s, o.id), o)
    } else {
        s.push(o)
    }
}

/// Remove keyed by id; an absent id leaves the table untouched.
pub open spec fn remove_oid(s: Seq<ObjectiveV>, id: u64) -> Seq<ObjectiveV> {
    if contains_oid(s, id) {
        s.remove(oidx(s, id))
    } else {
        s
    }
}

/// The greatest id in the table; zero when the table is empty.
pub open spec fn max_oid(s: Seq<ObjectiveV>) -> u64
    decreases s.len(),
{
    if s.len() == 0 {
        0
    } else {
        let m = max_oid(s.drop_last());
        if s.last().id > m {
            s.last().id
        } else {
            m
        }
    }
}

/// The id the allocator hands out next: one above the greatest id present
/// (so one on an empty table), wrapping to zero past the greatest machine
/// word.
pub open spec fn next_free_id(s: Seq<ObjectiveV>) -> u64 {
    if max_oid(s) == u64::MAX {
        0
    } else {
        (max_oid(s) + 1) as u64
    }
}

/// The user table: records with pairwise-distinct ids.
pub struct UserTable {
    users: Vec<User>,
}

/// The objective table: records with pairwise-distinct ids.
pub struct ObjectiveTable {
    objectives: Vec<Objective>,
}

impl View for UserTable {
    type V = Seq<UserV>;

    closed spec fn view(&self) -> Seq<UserV> {
        self.users@.map_values(|u: User| u@)
    }
}

impl View for ObjectiveTable {
    type V = Seq<ObjectiveV>;

    closed spec fn view(&self) -> Seq<ObjectiveV> {
        self.objectives@.map_values(|o: Objective| o@)
    }
}

/// The index of the user record carrying an id, if any.
fn find_user_idx(v: &Vec<User>, id: u64) -> (r: Option<usize>)
    ensures
        match r {
            Some(i) => i < v@.len() && v@[i as int].id == id,
            None => forall|k: int| 0 <= k < v@.len() ==> v@[k].id != id,
        },
{
    let n = v.len();
    let mut i: usize = 0;
    while i < n
        invariant
            0 <= i <= n == v@.len(),
            forall|k: int| 0 <= k < i ==> v@[k].id != id,
        decreases n - i,
    {
        if v[i].id == id {
            return Some(i);
        }
        i = i + 1;
    }
    None
}

/// The index of the objective record carrying an id, if any.
fn find_obj_idx(v: &Vec<Objective>, id: u64) -> (r: Option<usize>)
    ensures
        match r {
            Some(i) => i < v@.len() && v@[i as int].id == id,
            None => forall|k: int| 0 <= k < v@.len() ==> v@[k].id != id,
        },
{
    let n = v.len();
    let mut i: usize = 0;
    while i < n
        invariant
            0 <= i <= n == v@.len(),
            forall|k: int| 0 <= k < i ==> v@[k].id != id,
        decreases n - i,
    {
        if v[i].id == id {
            return Some(i);
        }
        i = i + 1;
    }
    None
}

impl UserTable {
    /// The table is well formed: ids are pairwise distinct.
    pub open spec fn wf(&self) -> bool {
        wf_users(self@)
    }

    /// An empty user table.
    pub fn new() -> (t: Self)
        ensures
            t@ == Seq::<UserV>::empty(),
            t.wf(),
    {
        let t = UserTable { users: Vec::new() };
        proof {
            assert(t@ =~= Seq::<UserV>::empty());
        }
        t
    }

    /// Whether a user with this id exists.
    pub fn contains_user(&self, id: u64) -> (b: bool)
        ensures
            b == contains_uid(self@, id),
    {
        match find_user_idx(&self.users, id) {
            Some(i) => {
                proof {
                    assert(self@[i as int] == self.users@[i as int]@);
                    assert(self@[i as int].id == id);
                }
                true
            },
            None => {
                proof {
                    assert(forall|k: int|
                        0 <= k < self@.len() ==> #[trigger] self@[k] == self.users@[k]@);
                    assert(forall|k: int| 0 <= k < self@.len() ==> #[trigger] self@[k].id != id);
                }
                false
            },
        }
    }

    /// The number of records.
    pub fn len(&self) -> (n: usize)
        ensures
            n == self@.len(),
    {
        self.users.len()
    }

    /// The record at a position, in table order.
    pub fn get(&self, i: usize) -> (u: &User)
        requires
            i < self@.len(),
        ensures
            u@ == self@[i as int],
    {
        proof {
            assert(self@[i as int] == self.users@[i as int]@);
        }
        &self.users[i]
    }

    /// Insert keyed by id: replace the record carrying `u.id`, or append.
    pub fn upsert(&mut self, u: User)
        requires
            old(self).wf(),
        ensures
            final(self)@ == upsert_user(old(self)@, u@),
            final(self).wf(),
    {
        let ghost s = self@;
        match find_user_idx(&self.users, u.id) {
            Some(i) => {
                proof {
                    assert(s[i as int] == self.users@[i as int]@);
                    assert(s[i as int].id == u@.id);
                    assert(contains_uid(s, u@.id));
                    let j = uidx(s, u@.id);
                    assert(0 <= j < s.len() && s[j].id == u@.id);
                    assert(j == i as int);
                }
                self.users[i] = u;
                proof {
                    assert(self@ =~= s.update(i as int, u@));
                    assert(forall|k: int|
                        0 <= k < self@.len() && k != i as int ==> #[trigger] self@[k] == s[k]);
                }
            },
            None => {
                proof {
                    assert(forall|k: int| 0 <= k < s.len() ==> #[trigger] s[k] == self.users@[k]@);
                    assert(!contains_uid(s, u@.id));
                }
                self.users.push(u);
                proof {
                    assert(self@ =~= s.push(u@));
                }
            },
        }
    }

    /// Allocates the next id — the current record count — and inserts a
    /// user with that id, the given name, and a zero balance.
    pub fn create_user(&mut self, user: UserRegister) -> (id: u64)
        requires
            old(self).wf(),
        ensures
            id == old(self)@.len() as u64,
            final(self)@ == create_user_spec(old(self)@, user.name@),
            final(self).wf(),
    {
        let id = self.users.len() as u64;
        self.upsert(User { id, name: user.name, money: 0 });
        id
    }

    /// Overwrites the named user's balance, preserving the name; does
    /// nothing when the user is absent.
    pub fn set_money(&mut self, money: Money)
        requires
            old(self).wf(),
        ensures
            final(self)@ == set_money_spec(old(self)@, money.user_id, money.money),
            final(self).wf(),
    {
        let ghost s = self@;
        match find_user_idx(&self.users, money.user_id) {
            Some(i) => {
                proof {
                    assert(s[i as int] == self.users@[i as int]@);
                    assert(s[i as int].id == money.user_id);
                    assert(contains_uid(s, money.user_id));
                    let j = uidx(s, money.user_id);
                    assert(0 <= j < s.len() && s[j].id == money.user_id);
                    assert(j == i as int);
                }
                let name = self.users[i].name.clone();
                let id = self.users[i].id;
                self.users[i] = User { id, name, money: money.money };
                proof {
                    assert(self@ =~= s.update(i as int, UserV {
                        id: s[i as int].id,
                        name: s[i as int].name,
                        money: money.money,
                    }));
                    assert(forall|k: int|
                        0 <= k < self@.len() && k != i as int ==> #[trigger] self@[k] == s[k]);
                }
            },
            None => {
                proof {
                    assert(forall|k: int| 0 <= k < s.len() ==> #[trigger] s[k] == self.users@[k]@);
                    assert(!contains_uid(s, money.user_id));
                    assert(self@ =~= s);
                }
            },
        }
    }
}

impl ObjectiveTable {
    /// The table is well formed: ids are pairwise distinct.
    pub open spec fn wf(&self) -> bool {
        wf_objs(self@)
    }

    /// An empty objective table.
    pub fn new() -> (t: Self)
        ensures
            t@ == Seq::<ObjectiveV>::empty(),
            t.wf(),
    {
        let t = ObjectiveTable { objectives: Vec::new() };
        proof {
            assert(t@ =~= Seq::<ObjectiveV>::empty());
        }
        t
    }

    /// The number of records.
    pub fn len(&self) -> (n: usize)
        ensures
            n == self@.len(),
    {
        self.objectives.len()
    }

    /// The record at a position, in table order.
    pub fn get(&self, i: usize) -> (o: &Objective)
        requires
            i < self@.len(),
        ensures
            o@ == self@[i as int],
    {
        proof {
            assert(self@[i as int] == self.objectives@[i as int]@);
        }
        &self.objectives[i]
    }

    /// Insert keyed by id: replace the record carrying `o.id`, or append.
    pub fn upsert(&mut self, o: Objective)
        requires
            old(self).wf(),
        ensures
            final(self)@ == upsert_obj(old(self)@, o@),
            final(self).wf(),
    {
        let ghost s = self@;
        match find_obj_idx(&self.objectives, o.id) {
            Some(i) => {
                proof {
                    assert(s[i as int] == self.objectives@[i as int]@);
                    assert(s[i as int].id == o@.id);
                    assert(contains_oid(s, o@.id));
                    let j = oidx(s, o@.id);
                    assert(0 <= j < s.len() && s[j].id == o@.id);
                    assert(j == i as int);
                }
                self.objectives[i] = o;
                proof {
                    assert(self@ =~= s.update(i as int, o@));
                    assert(forall|k: int|
                        0 <= k < self@.len() && k != i as int ==> #[trigger] self@[k] == s[k]);
                }
            },
            None => {
                proof {
                    assert(forall|k: int|
                        0 <= k < s.len() ==> #[trigger] s[k] == self.objectives@[k]@);
                    assert(!contains_oid(s, o@.id));
                }
                self.objectives.push(o);
                proof {
                    assert(self@ =~= s.push(o@));
                }
            },
        }
    }

    /// Removes the record carrying the id; an absent id is not an error and
    /// leaves the table untouched.
    pub fn remove(&mut self, id: u64)
        requires
            old(self).wf(),
        ensures
            final(self)@ == remove_oid(old(self)@, id),
            final(self).wf(),
    {
        let ghost s = self@;
        match find_obj_idx(&self.objectives, id) {
            Some(i) => {
                proof {
                    assert(s[i as int] == self.objectives@[i as int]@);
                    assert(s[i as int].id == id);
                    assert(contains_oid(s, id));
                    let j = oidx(s, id);
                    assert(0 <= j < s.len() && s[j].id == id);
                    assert(j == i as int);
                }
                self.objectives.remove(i);
                proof {
                    assert(self@ =~= s.remove(i as int));
                    assert(forall|k: int|
                        0 <= k < self@.len() ==> #[trigger] self@[k] == if k < i as int {
                            s[k]
                        } else {
                            s[k + 1]
                        });
                }
            },
            None => {
                proof {
                    assert(forall|k: int|
                        0 <= k < s.len() ==> #[trigger] s[k] == self.objectives@[k]@);
                    assert(!contains_oid(s, id));
                    assert(self@ =~= s);
                }
            },
        }
    }

    /// The objectives owned by a user, in table order; an unknown or
    /// objective-less user yields the empty sequence, not an error.
    pub fn by_user(&self, user_id: u64) -> (v: Vec<Objective>)
        ensures
            v@.map_values(|o: Objective| o@) == self@.filter(
                |o: ObjectiveV| o.user_id == user_id,
            ),
    {
        let ghost pred = |o: ObjectiveV| o.user_id == user_id;
        let n = self.objectives.len();
        let mut v: Vec<Objective> = Vec::new();
        let mut i: usize = 0;
        proof {
            reveal_with_fuel(Seq::filter, 2);
            assert(self@.take(0) =~= Seq::<ObjectiveV>::empty());
            assert(Seq::<ObjectiveV>::empty().filter(pred) =~= Seq::<ObjectiveV>::empty());
            assert(v@.map_values(|o: Objective| o@) =~= Seq::<ObjectiveV>::empty());
        }
        while i < n
            invariant
                0 <= i <= n == self.objectives@.len(),
                self@.len() == self.objectives@.len(),
                pred == (|o: ObjectiveV| o.user_id == user_id),
                v@.map_values(|o: Objective| o@) == self@.take(i as int).filter(pred),
            decreases n - i,
        {
            let ghost prefix = self@.take(i as int);
            let ghost next_prefix = self@.take(i + 1);
            proof {
                assert(self@[i as int] == self.objectives@[i as int]@);
                assert(next_prefix.drop_last() =~= prefix);
                assert(next_prefix.last() == self@[i as int]);
            }
            let cur = &self.objectives[i];
            if cur.user_id == user_id {
                let ghost old_v = v@;
                v.push(
                    Objective {
                        id: cur.id,
                        user_id: cur.user_id,
                        name: cur.name.clone(),
                        desc: cur.desc.clone(),
                        cost: cur.cost,
                    },
                );
                proof {
                    reveal_with_fuel(Seq::filter, 2);
                    assert(v@.map_values(|o: Objective| o@) =~= old_v.map_values(
                        |o: Objective| o@,
                    ).push(self@[i as int]));
                    assert(next_prefix.filter(pred) =~= prefix.filter(pred).push(
                        self@[i as int],
                    ));
                }
            } else {
                proof {
                    reveal_with_fuel(Seq::filter, 2);
                    assert(next_prefix.filter(pred) =~= prefix.filter(pred));
                }
            }
            i = i + 1;
        }
        proof {
            assert(self@.take(n as int) =~= self@);
        }
        v
    }

    /// The referential check and insert behind adding an objective: fails
    /// with [`StoreError::NotFound`], touching nothing, exactly when the
    /// owner does not exist; otherwise inserts the record under a freshly
    /// allocated id and returns that id.
    pub fn add_objective(&mut self, users: &UserTable, obj: ObjectiveRegister) -> (r: Result<
        u64,
        StoreError,
    >)
        requires
            old(self).wf(),
        ensures
            final(self).wf(),
            match r {
                Ok(id) => contains_uid(users@, obj.user_id) && id == next_free_id(old(self)@)
                    && final(self)@ == upsert_obj(
                    old(self)@,
                    ObjectiveV {
                        id,
                        user_id: obj.user_id,
                        name: obj.name@,
                        desc: obj.desc@,
                        cost: obj.cost,
                    },
                ),
                Err(e) => e == StoreError::NotFound && !contains_uid(users@, obj.user_id)
                    && final(self)@ == old(self)@,
            },
    {
        if !users.contains_user(obj.user_id) {
            return Err(StoreError::NotFound);
        }
        let id = get_last_free(self);
        self.upsert(
            Objective { id, user_id: obj.user_id, name: obj.name, desc: obj.desc, cost: obj.cost },
        );
        Ok(id)
    }

    /// The referential check and insert behind editing an objective: fails
    /// with [`StoreError::NotFound`], touching nothing, exactly when the
    /// owner does not exist; otherwise replaces the full record at the
    /// given id, inserting it if absent.
    pub fn edit_objective(&mut self, users: &UserTable, obj: Objective) -> (r: Result<
        (),
        StoreError,
    >)
        requires
            old(self).wf(),
        ensures
            final(self).wf(),
            match r {
                Ok(_) => contains_uid(users@, obj.user_id) && final(self)@ == upsert_obj(
                    old(self)@,
                    obj@,
                ),
                Err(e) => e == StoreError::NotFound && !contains_uid(users@, obj.user_id)
                    && final(self)@ == old(self)@,
            },
    {
        if !users.contains_user(obj.user_id) {
            return Err(StoreError::NotFound);
        }
        self.upsert(obj);
        Ok(())
    }
}

/// The next free objective id: one above the greatest id in use, one on an
/// empty table (ids can be sparse after removals, so the allocator scans
/// for the maximum rather than counting records).
pub fn get_last_free(list: &ObjectiveTable) -> (id: u64)
    ensures
        id == next_free_id(list@),
{
    let n = list.objectives.len();
    let mut prev: u64 = 0;
    let mut i: usize = 0;
    proof {
        assert(list@.take(0) =~= Seq::<ObjectiveV>::empty());
    }
    while i < n
        invariant
            0 <= i <= n == list.objectives@.len(),
            list@.len() == list.objectives@.len(),
            prev == max_oid(list@.take(i as int)),
        decreases n - i,
    {
        proof {
            assert(list@[i as int] == list.objectives@[i as int]@);
            assert(list@.take(i + 1).drop_last() =~= list@.take(i as int));
            assert(list@.take(i + 1).last() == list@[i as int]);
        }
        let cur = list.objectives[i].id;
        if cur > prev {
            prev = cur;
        }
        i = i + 1;
    }
    proof {
        assert(list@.take(n as int) =~= list@);
    }
    if prev == u64::MAX {
        0
    } else {
        prev + 1
    }
}

/// The table after a series of user creations, applied left to right.
pub open spec fn apply_creates(names: Seq<Seq<char>>) -> Seq<UserV>
    decreases names.len(),
{
    if names.len() == 0 {
        Seq::<UserV>::empty()
    } else {
        create_user_spec(apply_creates(names.drop_last()), names.last())
    }
}

/// Law: starting from an empty store, a series of user creations yields
/// records whose ids equal the call-order index starting at zero — so the
/// returned ids are pairwise distinct, and each equals the record count at
/// the time of its call.
pub proof fn lemma_create_user_ids(names: Seq<Seq<char>>)
    requires
        names.len() <= u64::MAX as int,
    ensures
        apply_creates(names).len() == names.len(),
        forall|i: int|
            0 <= i < names.len() ==> #[trigger] apply_creates(names)[i] == (UserV {
                id: i as u64,
                name: names[i],
                money: 0,
            }),
        forall|i: int, j: int|
            0 <= i < j < names.len() ==> apply_creates(names)[i].id != apply_creates(
                names,
            )[j].id,
        wf_users(apply_creates(names)),
    decreases names.len(),
{
    if names.len() > 0 {
        let prev = apply_creates(names.drop_last());
        let n = names.len() - 1;
        lemma_create_user_ids(names.drop_last());
        assert(forall|i: int|
            0 <= i < n ==> #[trigger] prev[i] == UserV {
                id: i as u64,
                name: names.drop_last()[i],
                money: 0,
            });
        let fresh = UserV { id: prev.len() as u64, name: names.last(), money: 0 };
        assert(!contains_uid(prev, fresh.id)) by {
            assert(forall|k: int| 0 <= k < n ==> #[trigger] prev[k].id == k as u64);
            assert(forall|k: int| 0 <= k < n ==> #[trigger] prev[k].id != n as u64);
        }
        assert(apply_creates(names) == prev.push(fresh));
        assert(forall|i: int|
            0 <= i < n ==> #[trigger] apply_creates(names)[i] == prev[i]);
        assert(forall|i: int| 0 <= i < n ==> names.drop_last()[i] == names[i]);
        assert(apply_creates(names)[n as int] == fresh);
    }
}

/// The greatest id is carried by some record and bounds every id.
pub proof fn lemma_max_oid_attained(s: Seq<ObjectiveV>)
    requires
        s.len() > 0,
    ensures
        contains_oid(s, max_oid(s)),
        forall|k: int| 0 <= k < s.len() ==> #[trigger] s[k].id <= max_oid(s),
    decreases s.len(),
{
    let rest = s.drop_last();
    let m = max_oid(rest);
    if s.len() == 1 {
        if s.last().id > m {
            assert(s[0] == s.last());
        } else {
            assert(s.last().id == 0);
            assert(s[0].id == max_oid(s));
        }
        assert(s[0].id <= max_oid(s));
        assert(forall|k: int| 0 <= k < s.len() ==> #[trigger] s[k].id <= max_oid(s));
    } else {
        lemma_max_oid_attained(rest);
        assert(forall|k: int| 0 <= k < rest.len() ==> #[trigger] rest[k] == s[k]);
        if s.last().id > m {
            assert(s[s.len() - 1] == s.last());
        } else {
            let w = choose|i: int| 0 <= i < rest.len() && rest[i].id == m;
            assert(s[w].id == max_oid(s));
        }
        assert forall|k: int| 0 <= k < s.len() implies #[trigger] s[k].id <= max_oid(s) by {
            if k < s.len() - 1 {
                assert(rest[k].id <= max_oid(rest));
                assert(rest[k] == s[k]);
            } else {
                assert(s[k] == s.last());
            }
        }
    }
}

/// Law: after removing the objective carrying the greatest id, the id the
/// allocator hands out next is one more than the greatest remaining id —
/// one on a now-empty table — showing a fresh max-scan rather than a
/// free-list reuse. (The reallocated id coincides with the removed one
/// exactly when the two greatest ids were adjacent.)
pub proof fn lemma_remove_max_next_id(t: Seq<ObjectiveV>)
    requires
        wf_objs(t),
        t.len() > 0,
    ensures
        next_free_id(remove_oid(t, max_oid(t))) == max_oid(remove_oid(t, max_oid(t))) + 1,
{
    let m = max_oid(t);
    lemma_max_oid_attained(t);
    let rest = remove_oid(t, m);
    let i = oidx(t, m);
    assert(0 <= i < t.len() && t[i].id == m);
    assert(rest == t.remove(i));
    assert(forall|k: int|
        0 <= k < rest.len() ==> #[trigger] rest[k] == (if k < i {
            t[k]
        } else {
            t[k + 1]
        }));
    if rest.len() > 0 {
        lemma_max_oid_attained(rest);
        let w = choose|k: int| 0 <= k < rest.len() && rest[k].id == max_oid(rest);
        assert(rest[w].id < m) by {
            if w < i {
                assert(rest[w] == t[w]);
            } else {
                assert(rest[w] == t[w + 1]);
            }
        }
        assert(max_oid(rest) < u64::MAX);
    } else {
        assert(max_oid(rest) == 0);
    }
}

/// Law: removal is idempotent — removing the same id a second time finds
/// nothing, reports no error, and leaves the table exactly as the first
/// removal left it.
pub proof fn lemma_remove_idempotent(t: Seq<ObjectiveV>, id: u64)
    requires
        wf_objs(t),
    ensures
        remove_oid(remove_oid(t, id), id) == remove_oid(t, id),
{
    if contains_oid(t, id) {
        let i = oidx(t, id);
        assert(0 <= i < t.len() && t[i].id == id);
        let rest = t.remove(i);
        assert(forall|k: int|
            0 <= k < rest.len() ==> #[trigger] rest[k] == (if k < i {
                t[k]
            } else {
                t[k + 1]
            }));
        assert(!contains_oid(rest, id)) by {
            assert(forall|k: int| 0 <= k < rest.len() ==> #[trigger] rest[k].id != id);
        }
    }
}

/// The table after a series of balance writes for one user, applied left
/// to right.
pub open spec fn apply_set_money(s: Seq<UserV>, user_id: u64, vals: Seq<u64>) -> Seq<UserV>
    decreases vals.len(),
{
    if vals.len() == 0 {
        s
    } else {
        set_money_spec(apply_set_money(s, user_id, vals.drop_last()), user_id, vals.last())
    }
}

/// A second balance write to the same user overwrites the first entirely.
pub proof fn lemma_set_money_twice(s: Seq<UserV>, user_id: u64, a: u64, b: u64)
    requires
        wf_users(s),
        contains_uid(s, user_id),
    ensures
        set_money_spec(set_money_spec(s, user_id, a), user_id, b) == set_money_spec(s, user_id, b),
        wf_users(set_money_spec(s, user_id, a)),
        contains_uid(set_money_spec(s, user_id, a), user_id),
{
    let i = uidx(s, user_id);
    assert(0 <= i < s.len() && s[i].id == user_id);
    let t = set_money_spec(s, user_id, a);
    assert(t == s.update(i, UserV { id: s[i].id, name: s[i].name, money: a }));
    assert(forall|k: int| 0 <= k < t.len() ==> #[trigger] t[k].id == s[k].id);
    assert(wf_users(t));
    assert(t[i].id == user_id);
    assert(contains_uid(t, user_id));
    let j = uidx(t, user_id);
    assert(0 <= j < t.len() && t[j].id == user_id);
    assert(j == i);
    assert(set_money_spec(t, user_id, b) =~= set_money_spec(s, user_id, b));
}

/// Law: balance writes race only for the write lock, which serializes
/// them; whatever order they are granted in, the user ends with the last
/// value applied in that order — one of the submitted values, never a
/// blend — with id and name intact and every other record untouched.
pub proof fn lemma_set_money_serialized(s: Seq<UserV>, user_id: u64, vals: Seq<u64>)
    requires
        wf_users(s),
        contains_uid(s, user_id),
        vals.len() > 0,
    ensures
        apply_set_money(s, user_id, vals) == set_money_spec(s, user_id, vals.last()),
        apply_set_money(s, user_id, vals)[uidx(s, user_id)].money == vals.last(),
        apply_set_money(s, user_id, vals)[uidx(s, user_id)].name == s[uidx(s, user_id)].name,
        apply_set_money(s, user_id, vals)[uidx(s, user_id)].id == user_id,
        forall|k: int|
            0 <= k < s.len() && k != uidx(s, user_id) ==> apply_set_money(s, user_id, vals)[k]
                == s[k],
        vals.contains(apply_set_money(s, user_id, vals)[uidx(s, user_id)].money),
    decreases vals.len(),
{
    let i = uidx(s, user_id);
    assert(0 <= i < s.len() && s[i].id == user_id);
    if vals.len() == 1 {
        assert(apply_set_money(s, user_id, vals.drop_last()) == s);
    } else {
        lemma_set_money_serialized(s, user_id, vals.drop_last());
        lemma_set_money_twice(s, user_id, vals.drop_last().last(), vals.last());
        assert(apply_set_money(s, user_id, vals) == set_money_spec(
            set_money_spec(s, user_id, vals.drop_last().last()),
            user_id,
            vals.last(),
        ));
    }
    let out = apply_set_money(s, user_id, vals);
    assert(out == s.update(i, UserV { id: s[i].id, name: s[i].name, money: vals.last() }));
    assert(vals.contains(vals.last())) by {
        assert(vals[vals.len() - 1] == vals.last());
    }
}

} // verus!
