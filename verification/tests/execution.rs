use petrinet_rs::execution::Execution;
use petrinet_rs::petrinet::{Petrinet, Transition};

fn diamond() -> Petrinet {
    Petrinet::new(vec![
        Transition::new(vec![1], vec![2, 3]),
        Transition::new(vec![2], vec![4]),
        Transition::new(vec![3], vec![5]),
        Transition::new(vec![4, 5], vec![6]),
    ])
}

fn enabled_set(e: &Execution) -> Vec<bool> {
    vec![e.enabled(0), e.enabled(1), e.enabled(2), e.enabled(3)]
}

#[test]
fn initial_marking_has_one_token_at_place_one() {
    let net = diamond();
    let e = Execution::from(&net);
    assert_eq!(e.marking(), &vec![true, false, false, false, false, false]);
    assert_eq!(e.marking().len(), net.place_count());
    assert_eq!(e.net(), &net);
}

#[test]
fn initial_marking_of_a_net_without_places() {
    let net = Petrinet::new(vec![]);
    let e = Execution::from(&net);
    assert_eq!(e.marking(), &vec![true]);
    assert!(!e.enabled(0));
}

#[test]
fn diamond_scenario() {
    let net = diamond();
    let e = Execution::from(&net);
    assert_eq!(enabled_set(&e), vec![true, false, false, false]);
    let e = e.fire(0);
    assert_eq!(e.marking(), &vec![false, true, true, false, false, false]);
    assert_eq!(enabled_set(&e), vec![false, true, true, false]);
    let e = e.fire(2);
    assert_eq!(e.marking(), &vec![false, true, false, false, true, false]);
    assert_eq!(enabled_set(&e), vec![false, true, false, false]);
    let e = e.fire(1);
    assert_eq!(e.marking(), &vec![false, false, false, true, true, false]);
    assert_eq!(enabled_set(&e), vec![false, false, false, true]);
    let e = e.fire(3);
    assert_eq!(e.marking(), &vec![false, false, false, false, false, true]);
    assert_eq!(enabled_set(&e), vec![false, false, false, false]);
}

#[test]
fn firing_a_disabled_transition_changes_nothing() {
    let net = diamond();
    let e = Execution::from(&net).fire(0);
    let before = e.marking().clone();
    let e = e.fire(3);
    assert_eq!(e.marking(), &before);
    let e = e.fire(0);
    assert_eq!(e.marking(), &before);
}

#[test]
fn out_of_range_index_is_disabled_and_fires_nothing() {
    let net = diamond();
    let e = Execution::from(&net);
    assert!(!e.enabled(4));
    assert!(!e.enabled(usize::MAX));
    let before = e.marking().clone();
    let e = e.fire(4);
    assert_eq!(e.marking(), &before);
    let e = e.fire(usize::MAX);
    assert_eq!(e.marking(), &before);
}

#[test]
fn firing_is_deterministic() {
    let net = diamond();
    let one = Execution::from(&net).fire(0).fire(1);
    let two = Execution::from(&net).fire(0).fire(1);
    assert_eq!(one.marking(), two.marking());
    assert_eq!(one.marking(), &vec![false, false, true, true, false, false]);

    // The same transition at another position of another net leaves the same marking.
    let other = Petrinet::new(vec![
        Transition::new(vec![6], vec![1]),
        Transition::new(vec![1], vec![2, 3]),
    ]);
    let three = Execution::from(&other).fire(1);
    assert_eq!(three.marking(), Execution::from(&net).fire(0).marking());
}

#[test]
fn marking_keeps_one_entry_for_each_place() {
    let net = diamond();
    let mut e = Execution::from(&net);
    for t in [0, 0, 3, 2, 7, 1, 1, 3, 3, 0] {
        e = e.fire(t);
        assert_eq!(e.marking().len(), 6);
    }
    assert_eq!(e.marking(), &vec![false, false, false, false, false, true]);
}

#[test]
fn empty_consume_list_is_always_enabled() {
    let net = Petrinet::new(vec![Transition::new(vec![], vec![2])]);
    let e = Execution::from(&net);
    assert!(e.enabled(0));
    let e = e.fire(0);
    assert_eq!(e.marking(), &vec![true, true]);
    assert!(e.enabled(0));
    let e = e.fire(0);
    assert_eq!(e.marking(), &vec![true, true]);
}

#[test]
fn token_passes_through_a_place_both_consumed_and_produced() {
    let net = Petrinet::new(vec![Transition::new(vec![1], vec![1, 2])]);
    let e = Execution::from(&net).fire(0);
    assert_eq!(e.marking(), &vec![true, true]);
}

#[test]
fn each_place_is_decided_from_the_old_marking() {
    // Place 1 is consumed and place 2 produced, place 3 is left alone.
    let net = Petrinet::new(vec![
        Transition::new(vec![1], vec![3]),
        Transition::new(vec![3], vec![2]),
        Transition::new(vec![2, 3], vec![1]),
    ]);
    let e = Execution::from(&net).fire(0);
    assert_eq!(e.marking(), &vec![false, false, true]);
    let e = e.fire(2);
    assert_eq!(e.marking(), &vec![false, false, true]);
    let e = e.fire(1);
    assert_eq!(e.marking(), &vec![false, true, false]);
}

#[test]
fn place_zero_never_holds_a_token() {
    let net = Petrinet::new(vec![Transition::new(vec![0], vec![2]), Transition::new(vec![1], vec![0, 2])]);
    let e = Execution::from(&net);
    assert!(!e.enabled(0));
    let e = e.fire(0);
    assert_eq!(e.marking(), &vec![true, false]);
    let e = e.fire(1);
    assert_eq!(e.marking(), &vec![false, true]);
}
