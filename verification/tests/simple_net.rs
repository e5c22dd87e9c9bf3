use petrinet_rs::execution::Execution;
use petrinet_rs::petrinet::{Petrinet, Transition};

// transition i represented as (i)
// place j represented as j
//
//                2 - 4
//              /  (1)  \
//  start -> 1 -(0)   (3)- 6
//              \  (2)  /
//                3 - 5
fn diamond() -> Petrinet {
    Petrinet::new(vec![
        Transition::new(vec![1], vec![2, 3]),
        Transition::new(vec![2], vec![4]),
        Transition::new(vec![3], vec![5]),
        Transition::new(vec![4, 5], vec![6]),
    ])
}

#[test]
fn petrinet_simple_net() {
    let net = diamond();
    let e = Execution::from(&net);
    assert_eq!(e.enabled(0), true, "transition 0 must be enabled");
    assert_eq!(e.enabled(1), false, "transition 1 must be disabled");
    assert_eq!(e.enabled(2), false, "transition 2 must be disabled");
    assert_eq!(e.enabled(3), false, "transition 3 must be disabled");
    assert_eq!(e.enabled(4), false, "transition 4 must be disabled");

    let e = e.fire(0);
    assert_eq!(e.enabled(0), false, "transition 0 must be disabled");
    assert_eq!(e.enabled(1), true, "transition 1 must be enabled");
    assert_eq!(e.enabled(2), true, "transition 2 must be enabled");
    assert_eq!(e.enabled(3), false, "transition 3 must be disabled");
    assert_eq!(e.enabled(4), false, "transition 4 must be disabled");

    let e = e.fire(2);
    assert_eq!(e.enabled(0), false, "transition 0 must be disabled");
    assert_eq!(e.enabled(1), true, "transition 1 must be enabled");
    assert_eq!(e.enabled(2), false, "transition 2 must be disabled");
    assert_eq!(e.enabled(3), false, "transition 3 must be disabled");
    assert_eq!(e.enabled(4), false, "transition 4 must be disabled");

    // can't fire transition without all its inputs activated
    let e = e.fire(3);
    assert_eq!(e.enabled(0), false, "transition 0 must be disabled");
    assert_eq!(e.enabled(1), true, "transition 1 must be enabled");
    assert_eq!(e.enabled(2), false, "transition 2 must be disabled");
    assert_eq!(e.enabled(3), false, "transition 3 must be disabled");
    assert_eq!(e.enabled(4), false, "transition 4 must be disabled");

    let e = e.fire(1);
    assert_eq!(e.enabled(0), false, "transition 0 must be disabled");
    assert_eq!(e.enabled(1), false, "transition 1 must be disabled");
    assert_eq!(e.enabled(2), false, "transition 2 must be disabled");
    assert_eq!(e.enabled(3), true, "transition 3 must be enabled");
    assert_eq!(e.enabled(4), false, "transition 4 must be disabled");

    let e = e.fire(3);
    assert_eq!(e.enabled(0), false, "transition 0 must be disabled");
    assert_eq!(e.enabled(1), false, "transition 1 must be disabled");
    assert_eq!(e.enabled(2), false, "transition 2 must be disabled");
    assert_eq!(e.enabled(3), false, "transition 3 must be disabled");
    assert_eq!(e.enabled(4), false, "transition 4 must be disabled");
}

#[test]
fn main_simple_net() {
    let net = diamond();
    let e = Execution::from(&net);
    assert_eq!(e.enabled(0), true, "transition 0 must be enabled");
    assert_eq!(e.enabled(1), false, "transition 1 must be disabled");
    assert_eq!(e.enabled(2), false, "transition 2 must be disabled");
    assert_eq!(e.enabled(3), false, "transition 3 must be disabled");
    assert_eq!(e.enabled(4), false, "transition 4 must be disabled");

    let e = e.fire(0);
    assert_eq!(e.enabled(0), false, "transition 0 must be disabled");
    assert_eq!(e.enabled(1), true, "transition 1 must be enabled");
    assert_eq!(e.enabled(2), true, "transition 2 must be enabled");
    assert_eq!(e.enabled(3), false, "transition 3 must be disabled");
    assert_eq!(e.enabled(4), false, "transition 4 must be disabled");

    let e = e.fire(2);
    assert_eq!(e.enabled(0), false, "transition 0 must be disabled");
    assert_eq!(e.enabled(1), true, "transition 1 must be enabled");
    assert_eq!(e.enabled(2), false, "transition 2 must be enabled");
    assert_eq!(e.enabled(3), false, "transition 3 must be disabled");
    assert_eq!(e.enabled(4), false, "transition 4 must be disabled");

    let e = e.fire(1);
    assert_eq!(e.enabled(0), false, "transition 0 must be disabled");
    assert_eq!(e.enabled(1), false, "transition 1 must be disabled");
    assert_eq!(e.enabled(2), false, "transition 2 must be disabled");
    assert_eq!(e.enabled(3), true, "transition 3 must be enabled");
    assert_eq!(e.enabled(4), false, "transition 4 must be disabled");

    let e = e.fire(3);
    assert_eq!(e.enabled(0), false, "transition 0 must be disabled");
    assert_eq!(e.enabled(1), false, "transition 1 must be disabled");
    assert_eq!(e.enabled(2), false, "transition 2 must be disabled");
    assert_eq!(e.enabled(3), false, "transition 3 must be disabled");
    assert_eq!(e.enabled(4), false, "transition 4 must be disabled");
}
