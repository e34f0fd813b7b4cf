//! Plain identifiers and parameters exchanged with the user's model.

use vstd::prelude::*;
use crate::value::Value;

verus! {

/// One named actual parameter to an action call.
#[derive(Debug)]
pub struct Arg {
    pub name: String,
    pub value: Value,
}

/// Identifies one instance of a role: a role name and an index.
#[derive(Debug, Clone, PartialEq, Eq, Hash)]
pub struct RoleId {
    pub role_name: String,
    pub index: i32,
}

impl Default for RoleId {
    /// The default role id: the empty name with index 0.
    fn default() -> (r: RoleId)
        ensures
            r.role_name@ == Seq::<char>::empty(),
            r.index == 0,
    {
        RoleId { role_name: String::new(), index: 0 }
    }
}

} // verus!
