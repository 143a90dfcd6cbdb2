//! Tests of the sample data model that the scanner's test corpus exercises.

use scopescan::sample::{get_customer, Customer};

#[test]
fn customer_new_keeps_fields() {
    let c = Customer::new(42, String::from("Ada"), String::from("ada@example.com"));
    assert_eq!(c.id, 42);
    assert_eq!(c.name, "Ada");
    assert_eq!(c.email, "ada@example.com");
}

#[test]
fn get_customer_answers_every_id() {
    let c = get_customer(7).unwrap();
    assert_eq!(c.id, 7);
    assert_eq!(c.name, "Test");
    assert_eq!(c.email, "test@example.com");
}
