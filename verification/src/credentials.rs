//! The credentials that a client presents for proxy authorization.

use vstd::prelude::*;
use vstd::std_specs::cmp::PartialEqSpecImpl;
use vstd::string::*;

verus! {

/// A user name and a password, as mathematical values.
pub struct BasicView {
    pub username: Seq<char>,
    pub password: Seq<char>,
}

/// A user name and a password, as the `Basic` scheme carries them.
#[derive(Debug)]
pub struct Basic {
    username: String,
    password: String,
}

impl View for Basic {
    type V = BasicView;

    closed spec fn view(&self) -> BasicView {
        BasicView { username: self.username@, password: self.password@ }
    }
}

impl Basic {
    /// The credentials of `username` with `password`.
    pub fn new(username: &str, password: &str) -> (basic: Basic)
        ensures
            basic@ == (BasicView { username: username@, password: password@ }),
    {
        Basic { username: username.to_owned(), password: password.to_owned() }
    }

    /// The user name.
    pub fn username(&self) -> (name: &str)
        ensures
            name@ == self@.username,
    {
        self.username.as_str()
    }

    /// The password.
    pub fn password(&self) -> (word: &str)
        ensures
            word@ == self@.password,
    {
        self.password.as_str()
    }
}

impl Clone for Basic {
    fn clone(&self) -> (copy: Basic)
        ensures
            copy@ == self@,
    {
        Basic { username: self.username.clone(), password: self.password.clone() }
    }
}

impl PartialEq for Basic {
    fn eq(&self, other: &Basic) -> (equal: bool) {
        self.username == other.username && self.password == other.password
    }
}

impl Eq for Basic {

}

impl PartialEqSpecImpl for Basic {
    open spec fn obeys_eq_spec() -> bool {
        true
    }

    open spec fn eq_spec(&self, other: &Basic) -> bool {
        self@ == other@
    }
}

} // verus!
