//! The two-collection container: one store of person records, one of
//! transaction records, each persisted independently.

use vstd::prelude::*;

use crate::cash::CashDatabase;
use crate::student::StudentDatabase;

verus! {

/// Both collections, as one value.
pub struct Database {
    /// The person collection.
    pub student: StudentDatabase,
    /// The transaction collection.
    pub cash: CashDatabase,
}

impl Database {
    /// Combine two loaded collections.
    pub fn new(student: StudentDatabase, cash: CashDatabase) -> (r: Database)
        ensures
            r.student == student,
            r.cash == cash,
    {
        Database { student, cash }
    }
}

} // verus!
