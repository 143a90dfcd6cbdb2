//! A small customer record and lookup: the data model of the sample project
//! that the scanner's test corpus exercises as a scan subject.

use vstd::prelude::*;

verus! {

broadcast use vstd::string::group_string_axioms;

/// A customer record of the sample project.
pub struct Customer {
    pub id: u64,
    pub name: String,
    pub email: String,
}

impl Customer {
    /// Builds a record carrying exactly the given fields.
    pub fn new(id: u64, name: String, email: String) -> (c: Customer)
        ensures
            c.id == id,
            c.name@ == name@,
            c.email@ == email@,
    {
        Customer { id, name, email }
    }
}

/// Looks a customer up by id; the sample store answers every id with the
/// same placeholder name and address.
pub fn get_customer(id: u64) -> (r: Option<Customer>)
    ensures
        r matches Option::Some(c) && c.id == id && c.name@ == "Test"@ && c.email@
            == "test@example.com"@,
{
    Some(Customer::new(id, "Test".to_string(), "test@example.com".to_string()))
}

} // verus!
