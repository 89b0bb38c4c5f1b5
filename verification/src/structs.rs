//! Record types held by the store, the request shapes that mutations take,
//! and the mathematical views that contracts speak of.

use vstd::prelude::*;

verus! {

/// One user: a store-assigned id, a display name, and a cash balance.
#[derive(Debug, Clone, PartialEq, Eq)]
pub struct User {
    pub id: u64,
    pub name: String,
    pub money: u64,
}

/// One savings objective, tied to the user that owns it.
#[derive(Debug, Clone, PartialEq, Eq)]
pub struct Objective {
    pub id: u64,
    pub user_id: u64,
    pub name: String,
    pub desc: String,
    pub cost: u64,
}

/// Request shape for creating a user.
#[derive(Debug, Clone, PartialEq, Eq)]
pub struct UserRegister {
    pub name: String,
}

/// Request shape for overwriting a user's balance.
#[derive(Debug, Clone, PartialEq, Eq)]
pub struct Money {
    pub user_id: u64,
    pub money: u64,
}

/// Request shape for adding an objective; the store assigns the id.
#[derive(Debug, Clone, PartialEq, Eq)]
pub struct ObjectiveRegister {
    pub user_id: u64,
    pub name: String,
    pub desc: String,
    pub cost: u64,
}

/// The mathematical value of a [`User`].
pub ghost struct UserV {
    pub id: u64,
    pub name: Seq<char>,
    pub money: u64,
}

/// The mathematical value of an [`Objective`].
pub ghost struct ObjectiveV {
    pub id: u64,
    pub user_id: u64,
    pub name: Seq<char>,
    pub desc: Seq<char>,
    pub cost: u64,
}

impl View for User {
    type V = UserV;

    open spec fn view(&self) -> UserV {
        UserV { id: self.id, name: self.name@, money: self.money }
    }
}

impl View for Objective {
    type V = ObjectiveV;

    open spec fn view(&self) -> ObjectiveV {
        ObjectiveV {
            id: self.id,
            user_id: self.user_id,
            name: self.name@,
            desc: self.desc@,
            cost: self.cost,
        }
    }
}

} // verus!
