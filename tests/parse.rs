use genetic_knapsack::model::{Product, Requirement, Resource};

#[test]
fn resource_from_fields() {
    let r = Resource::new(&[" cpu ", " Processor time ", " 42 "]).unwrap();
    assert_eq!(r.id, "cpu");
    assert_eq!(r.title, "Processor time");
    assert_eq!(r.amount, 42);
    assert_eq!(Resource::new(&["x", "y", "-7"]).unwrap().amount, -7);
}

#[test]
fn resource_rejects_bad_input() {
    assert!(Resource::new(&["cpu", "Processor"]).is_none());
    assert!(Resource::new(&["cpu", "Processor", "4x"]).is_none());
    assert!(Resource::new(&["cpu", "Processor", ""]).is_none());
}

#[test]
fn requirement_from_text() {
    let q = Requirement::new("cpu=3").unwrap();
    assert_eq!(q.id, "cpu");
    assert_eq!(q.amount, 3);
    assert_eq!(Requirement::new("a=b=+9").map(|q| q.amount), None);
    assert_eq!(Requirement::new("a=+9").map(|q| q.amount), Some(9));
}

#[test]
fn requirement_rejects_bad_input() {
    assert!(Requirement::new("cpu").is_none());
    assert!(Requirement::new("cpu=-1").is_none());
    assert!(Requirement::new("cpu=4294967296").is_none());
}

#[test]
fn product_from_fields() {
    let p = Product::new(&[" A ", " 3 ", " r=2 ", "s=0"]).unwrap();
    assert_eq!(p.id, "A");
    assert_eq!(p.value, 3);
    assert_eq!(p.max, 0);
    assert_eq!(p.solution, 0);
    assert_eq!(p.requirements.len(), 2);
    assert_eq!(p.requirements[0].id, "r");
    assert_eq!(p.requirements[0].amount, 2);
    assert_eq!(p.requirements[1].id, "s");
    assert_eq!(p.requirements[1].amount, 0);
}

#[test]
fn product_rejects_bad_input() {
    assert!(Product::new(&["A"]).is_none());
    assert!(Product::new(&["A", "x"]).is_none());
    assert!(Product::new(&["A", "3", "r2"]).is_none());
    assert!(Product::new(&["A", "3", "r=two"]).is_none());
}
