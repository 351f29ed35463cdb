use compgraph::Builder;
use compgraph::DivHint;
use compgraph::NodeId;
use compgraph::SqrtHint;
use compgraph::ZeroHint;

#[test]
fn test_polynomial() {
    let mut builder = Builder::<ZeroHint>::new();
    let x = builder.init();
    let x_squared = builder.mul(&x, &x);
    let five = builder.constant(3);
    let x_squared_plus_x = builder.add(&x_squared, &x);
    let _y = builder.add(&x_squared_plus_x, &five);

    let inputs = vec![(x.id, 3)];
    builder.fill_nodes(inputs);
    assert!(builder.check_constraints());
}

#[test]
fn test_hint_division() {
    let mut builder = Builder::<DivHint>::new();
    let a = builder.init();
    let one = builder.constant(1);
    let b = builder.add(&a, &one);
    let c = builder.hint(vec![b.clone()], DivHint { divisor: 8 });
    let eight = builder.constant(8);
    let c_times_8 = builder.mul(&c, &eight);
    builder.assert_equal(&b, &c_times_8);

    let inputs = vec![(a.id, 7)];
    builder.fill_nodes(inputs);
    assert!(builder.check_constraints());
}

#[test]
fn test_hint_sqrt() {
    let mut builder = Builder::<SqrtHint>::new();
    let x = builder.init();
    let seven = builder.constant(7);
    let x_plus_seven = builder.add(&x, &seven);
    let sqrt_node = builder.hint(vec![x_plus_seven.clone()], SqrtHint);
    let computed_sq = builder.mul(&sqrt_node, &sqrt_node);
    builder.assert_equal(&computed_sq, &x_plus_seven);

    let inputs = vec![(x.id, 2)];
    builder.fill_nodes(inputs);
    assert!(builder.check_constraints());
}

#[test]
fn test_polynomial_values() {
    let mut builder = Builder::<ZeroHint>::new();
    let x = builder.init();
    let x_sq = builder.mul(&x, &x);
    let eight = builder.constant(8);
    let plus_x = builder.add(&x_sq, &x);
    let y = builder.add(&plus_x, &eight);

    builder.fill_nodes(vec![(x.id, 3)]);
    assert_eq!(builder.value_of(x.id), Some(3));
    assert_eq!(builder.value_of(x_sq.id), Some(9));
    assert_eq!(builder.value_of(plus_x.id), Some(12));
    assert_eq!(builder.value_of(y.id), Some(20));
    assert!(builder.check_constraints());
}

#[test]
fn test_wraparound_mul() {
    let mut builder = Builder::<ZeroHint>::new();
    let big = builder.constant(0x8000_0000);
    let two = builder.constant(2);
    let prod = builder.mul(&big, &two);
    builder.fill_nodes(vec![]);
    assert_eq!(builder.value_of(prod.id), Some(0));
}

#[test]
fn test_wraparound_add() {
    let mut builder = Builder::<ZeroHint>::new();
    let max = builder.constant(u32::MAX);
    let three = builder.constant(3);
    let sum = builder.add(&max, &three);
    builder.fill_nodes(vec![]);
    assert_eq!(builder.value_of(sum.id), Some(2));
}

#[test]
fn test_hint_division_multiple_of_eight_passes() {
    let mut builder = Builder::<DivHint>::new();
    let b = builder.init();
    let hint = builder.hint(vec![b.clone()], DivHint { divisor: 8 });
    let eight = builder.constant(8);
    let product = builder.mul(&hint, &eight);
    builder.assert_equal(&product, &b);

    builder.fill_nodes(vec![(b.id, 8)]);
    assert_eq!(builder.value_of(hint.id), Some(1));
    assert!(builder.check_constraints());
}

#[test]
fn test_hint_division_non_multiple_fails() {
    let mut builder = Builder::<DivHint>::new();
    let b = builder.init();
    let hint = builder.hint(vec![b.clone()], DivHint { divisor: 8 });
    let eight = builder.constant(8);
    let product = builder.mul(&hint, &eight);
    builder.assert_equal(&product, &b);

    builder.fill_nodes(vec![(b.id, 7)]);
    assert_eq!(builder.value_of(hint.id), Some(0));
    assert_eq!(builder.value_of(product.id), Some(0));
    assert!(!builder.check_constraints());
}

#[test]
fn test_unassigned_input_stays_absent() {
    let mut builder = Builder::<ZeroHint>::new();
    let x = builder.init();
    let one = builder.constant(1);
    let y = builder.add(&x, &one);
    builder.fill_nodes(vec![]);
    assert_eq!(builder.value_of(x.id), None);
    assert_eq!(builder.value_of(one.id), Some(1));
    assert_eq!(builder.value_of(y.id), None);
}

#[test]
fn test_sqrt_hint_round_trip() {
    let mut builder = Builder::<SqrtHint>::new();
    let x = builder.init();
    let seven = builder.constant(7);
    let s = builder.add(&x, &seven);
    let r = builder.hint(vec![s.clone()], SqrtHint);
    let check = builder.mul(&r, &r);
    builder.assert_equal(&check, &s);

    builder.fill_nodes(vec![(x.id, 2)]);
    assert_eq!(builder.value_of(s.id), Some(9));
    assert_eq!(builder.value_of(r.id), Some(3));
    assert_eq!(builder.value_of(check.id), Some(9));
    assert!(builder.check_constraints());
}

#[test]
fn test_repeated_evaluation_is_deterministic() {
    let mut first_values = Vec::new();
    let mut second_values = Vec::new();
    for round in 0..2 {
        let mut builder = Builder::<DivHint>::new();
        let a = builder.init();
        let one = builder.constant(1);
        let b = builder.add(&a, &one);
        let c = builder.hint(vec![b.clone()], DivHint { divisor: 8 });
        let d = builder.mul(&c, &b);
        builder.fill_nodes(vec![(a.id, 41)]);
        let values: Vec<Option<u32>> = vec![
            builder.value_of(a.id),
            builder.value_of(one.id),
            builder.value_of(b.id),
            builder.value_of(c.id),
            builder.value_of(d.id),
        ];
        if round == 0 {
            first_values = values;
        } else {
            second_values = values;
        }
    }
    assert_eq!(first_values, second_values);
    assert_eq!(first_values[4], Some(210));
}

#[test]
fn test_constraint_failures_reported() {
    let mut builder = Builder::<ZeroHint>::new();
    let a = builder.constant(4);
    let b = builder.constant(5);
    let c = builder.constant(4);
    let x = builder.init();
    builder.assert_equal(&a, &b);
    builder.assert_equal(&a, &c);
    builder.assert_equal(&a, &x);
    builder.fill_nodes(vec![]);
    assert!(!builder.check_constraints());
    let failures = builder.constraint_failures();
    assert_eq!(failures.len(), 2);
    assert_eq!(failures[0], (a.id, Some(4), b.id, Some(5)));
    assert_eq!(failures[1], (a.id, Some(4), x.id, None));
}

#[test]
fn test_two_absent_values_compare_equal() {
    let mut builder = Builder::<ZeroHint>::new();
    let x = builder.init();
    let y = builder.init();
    builder.assert_equal(&x, &y);
    builder.fill_nodes(vec![]);
    assert!(builder.check_constraints());
    assert_eq!(builder.constraint_failures().len(), 0);
}

#[test]
fn test_unknown_identifiers_are_ignored() {
    let mut builder = Builder::<ZeroHint>::new();
    let x = builder.init();
    builder.fill_nodes(vec![(NodeId(99), 5)]);
    assert_eq!(builder.value_of(x.id), None);
    assert_eq!(builder.value_of(NodeId(99)), None);
}

#[test]
fn test_last_assignment_wins() {
    let mut builder = Builder::<ZeroHint>::new();
    let x = builder.init();
    let one = builder.constant(1);
    let y = builder.add(&x, &one);
    builder.fill_nodes(vec![(x.id, 1), (x.id, 2)]);
    assert_eq!(builder.value_of(x.id), Some(2));
    assert_eq!(builder.value_of(y.id), Some(3));
}

#[test]
fn test_hint_with_several_operands() {
    let mut builder = Builder::<ZeroHint>::new();
    let a = builder.constant(10);
    let b = builder.init();
    let h = builder.hint(vec![a.clone(), b.clone()], ZeroHint);
    builder.fill_nodes(vec![(b.id, 1)]);
    assert_eq!(builder.value_of(h.id), Some(0));
}

#[test]
fn test_identifiers_increase_in_creation_order() {
    let mut builder = Builder::<ZeroHint>::new();
    let a = builder.init();
    let b = builder.constant(1);
    let c = builder.add(&a, &b);
    assert_eq!(a.id, NodeId(0));
    assert_eq!(b.id, NodeId(1));
    assert_eq!(c.id, NodeId(2));
}
