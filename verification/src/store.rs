//! The concurrent entity store: both tables, each behind its own verified
//! reader/writer lock, so reads of one table never block writes to the
//! other. Every mutation takes the owning table's write lock for the whole
//! in-memory update, so concurrent mutations are fully serialized and a
//! reader can never observe a half-written record; each lock's invariant —
//! ids pairwise distinct — is re-established before every release.
//!
//! Persistence is snapshot-on-write: after a mutation the caller asks for
//! the snapshot text ([`Store::save_users`] / [`Store::save_objectives`])
//! and writes it out itself. The snapshot is rendered under a read lock
//! taken at the call, so it reflects a state no earlier than the mutation
//! that triggered it, never a stale table from before it.

use vstd::prelude::*;
use vstd::rwlock::{RwLock, RwLockPredicate};
use crate::structs::{Objective, UserRegister, Money, ObjectiveRegister, UserV, ObjectiveV};
use crate::tables::{UserTable, ObjectiveTable};
use crate::persist::{
    load_users, load_objectives, render_users, render_objectives, render_users_spec,
    render_objectives_spec,
};
use crate::tables::{wf_users, wf_objs};
use crate::StoreError;

verus! {

/// What may sit in the user-table lock: a well-formed table.
pub struct UserPred {}

impl RwLockPredicate<UserTable> for UserPred {
    open spec fn inv(self, t: UserTable) -> bool {
        t.wf()
    }
}

/// What may sit in the objective-table lock: a well-formed table.
pub struct ObjPred {}

impl RwLockPredicate<ObjectiveTable> for ObjPred {
    open spec fn inv(self, t: ObjectiveTable) -> bool {
        t.wf()
    }
}

/// The store: one reader/writer lock per table. Share it between request
/// handlers behind a reference-counted pointer; all methods take `&self`.
pub struct Store {
    user_list: RwLock<UserTable, UserPred>,
    objective_list: RwLock<ObjectiveTable, ObjPred>,
}

impl Store {
    #[verifier::type_invariant]
    spec fn locks_wf(self) -> bool {
        self.user_list.pred() == (UserPred {  }) && self.objective_list.pred() == (ObjPred {  })
    }

    /// Builds the store from the text of the two snapshot files, read by
    /// the caller at startup; an absent file is passed as `None` and
    /// yields an empty table. Each table is rebuilt line by line, skipping
    /// lines that fail to parse.
    pub fn new(user_text: Option<&str>, objective_text: Option<&str>) -> (s: Store) {
        let users = match user_text {
            Some(txt) => load_users(txt),
            None => UserTable::new(),
        };
        let objectives = match objective_text {
            Some(txt) => load_objectives(txt),
            None => ObjectiveTable::new(),
        };
        Store {
            user_list: RwLock::new(users, Ghost(UserPred {  })),
            objective_list: RwLock::new(objectives, Ghost(ObjPred {  })),
        }
    }

    /// Creates a user with the given name and a zero balance under the
    /// user write lock and returns the allocated id: the table's record
    /// count at the moment the lock was held (see
    /// [`UserTable::create_user`] for the exact effect on the table).
    pub fn create_user(&self, user: UserRegister) -> (id: u64) {
        proof {
            use_type_invariant(self);
        }
        let (mut t, h) = self.user_list.acquire_write();
        let id = t.create_user(user);
        h.release_write(t);
        id
    }

    /// Overwrites the named user's balance under the user write lock,
    /// preserving the name; silently does nothing when the user is absent
    /// (see [`UserTable::set_money`] for the exact effect on the table).
    pub fn set_money(&self, money: Money) {
        proof {
            use_type_invariant(self);
        }
        let (mut t, h) = self.user_list.acquire_write();
        t.set_money(money);
        h.release_write(t);
    }

    /// Adds an objective for an existing user under the objective write
    /// lock, holding a user read lock for the referential check; the
    /// allocated id is one above the greatest id in use. Fails with
    /// [`StoreError::NotFound`], touching nothing, exactly when the user
    /// does not exist (see [`ObjectiveTable::add_objective`]).
    pub fn add_objective(&self, obj: ObjectiveRegister) -> (r: Result<u64, StoreError>)
        ensures
            match r {
                Ok(_) => true,
                Err(e) => e == StoreError::NotFound,
            },
    {
        proof {
            use_type_invariant(self);
        }
        let rh = self.user_list.acquire_read();
        let (mut t, h) = self.objective_list.acquire_write();
        let r = t.add_objective(rh.borrow(), obj);
        h.release_write(t);
        rh.release_read();
        r
    }

    /// Replaces the full objective record at `obj.id` under the objective
    /// write lock, inserting it if absent, holding a user read lock for
    /// the referential check. Fails with [`StoreError::NotFound`],
    /// touching nothing, exactly when the user does not exist (see
    /// [`ObjectiveTable::edit_objective`]).
    pub fn edit_objective(&self, obj: Objective) -> (r: Result<(), StoreError>)
        ensures
            match r {
                Ok(_) => true,
                Err(e) => e == StoreError::NotFound,
            },
    {
        proof {
            use_type_invariant(self);
        }
        let rh = self.user_list.acquire_read();
        let (mut t, h) = self.objective_list.acquire_write();
        let r = t.edit_objective(rh.borrow(), obj);
        h.release_write(t);
        rh.release_read();
        r
    }

    /// Removes the objective with the given id under the objective write
    /// lock; absence is not an error, so removal is idempotent (see
    /// [`ObjectiveTable::remove`]).
    pub fn remove_objective(&self, obj: u64) {
        proof {
            use_type_invariant(self);
        }
        let (mut t, h) = self.objective_list.acquire_write();
        t.remove(obj);
        h.release_write(t);
    }

    /// The objectives owned by a user, copied out under an objective read
    /// lock; an unknown or objective-less user yields an empty list, not
    /// an error.
    pub fn get_objectives(&self, obj: u64) -> (list: Vec<Objective>)
        ensures
            forall|i: int| 0 <= i < list@.len() ==> #[trigger] list@[i].user_id == obj,
    {
        proof {
            use_type_invariant(self);
        }
        let rh = self.objective_list.acquire_read();
        let ghost tv = rh.view()@;
        let list = rh.borrow().by_user(obj);
        rh.release_read();
        proof {
            let pred = |o: ObjectiveV| o.user_id == obj;
            assert forall|i: int| 0 <= i < list@.len() implies #[trigger] list@[i].user_id
                == obj by {
                tv.lemma_filter_pred(pred, i);
                assert(list@.map_values(|o: Objective| o@)[i] == tv.filter(pred)[i]);
                assert(list@[i]@.user_id == obj);
            }
        }
        list
    }

    /// Renders the user snapshot under a user read lock taken now: the
    /// text of some well-formed table state no older than any mutation
    /// completed before this call.
    pub fn save_users(&self) -> (s: String)
        ensures
            exists|t: Seq<UserV>| wf_users(t) && s@ == #[trigger] render_users_spec(t),
    {
        proof {
            use_type_invariant(self);
        }
        let rh = self.user_list.acquire_read();
        let ghost witness = rh.view()@;
        let s = render_users(rh.borrow());
        rh.release_read();
        proof {
            assert(wf_users(witness) && s@ == render_users_spec(witness));
        }
        s
    }

    /// Renders the objective snapshot under an objective read lock taken
    /// now: the text of some well-formed table state no older than any
    /// mutation completed before this call.
    pub fn save_objectives(&self) -> (s: String)
        ensures
            exists|t: Seq<ObjectiveV>| wf_objs(t) && s@ == #[trigger] render_objectives_spec(t),
    {
        proof {
            use_type_invariant(self);
        }
        let rh = self.objective_list.acquire_read();
        let ghost witness = rh.view()@;
        let s = render_objectives(rh.borrow());
        rh.release_read();
        proof {
            assert(wf_objs(witness) && s@ == render_objectives_spec(witness));
        }
        s
    }
}

} // verus!
