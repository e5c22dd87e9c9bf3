use petrinet_rs::decode::decode;
use petrinet_rs::execution::Execution;
use petrinet_rs::nbpt::{trait_source, Nbpt};
use petrinet_rs::partition::{Partition, ValidPartition};
use petrinet_rs::petrinet::{Petrinet, Transition};

fn swap_protocol() -> Vec<usize> {
    vec![
        2, 15, 0, 3, 16, 0, 1, 6, 0, 2, 11, 0, 2, 4, 0, 19, 0, 7, 0, 4, 5, 0, 5, 0, 6, 0, 8, 9, 0,
        7, 0, 10, 0, 8, 9, 0, 19, 0, 3, 0, 19, 0, 1, 18, 0, 13, 11, 0, 12, 14, 0, 14, 0, 15, 0,
        12, 16, 0, 17, 0, 12, 18, 0, 13, 0,
    ]
}

fn swap_protocol_net() -> Petrinet {
    Petrinet::new(vec![
        Transition::new(vec![2, 15], vec![3, 16]),
        Transition::new(vec![1, 6], vec![2, 11]),
        Transition::new(vec![2, 4], vec![19]),
        Transition::new(vec![7], vec![4, 5]),
        Transition::new(vec![5], vec![6]),
        Transition::new(vec![8, 9], vec![7]),
        Transition::new(vec![10], vec![8, 9]),
        Transition::new(vec![19], vec![3]),
        Transition::new(vec![19], vec![1, 18]),
        Transition::new(vec![13, 11], vec![12, 14]),
        Transition::new(vec![14], vec![15]),
        Transition::new(vec![12, 16], vec![17]),
        Transition::new(vec![12, 18], vec![13]),
    ])
}

fn swap_protocol_nbpt() -> Nbpt {
    let names = [
        "alice_locks", "alice_funds", "bob_checks", "bob_splits", "bob_funds", "bob_joins",
        "bob_starts", "bob_refunds", "bob_redeems", "alice_joins", "alice_checks",
        "alice_redeems", "alice_refunds",
    ];
    Nbpt::new(
        "swap protocol both".to_string(),
        names.iter().map(|name| name.to_string()).collect(),
        Partition::new(swap_protocol()),
    )
}

#[test]
fn nbpt_deserialize_convert() {
    let nbpt = swap_protocol_nbpt();
    let valid_partition = ValidPartition::new(nbpt.clone().partition()).unwrap();
    let petrinet = Petrinet::from(valid_partition);
    let expected = swap_protocol_net();
    assert_eq!(petrinet, expected, "The two petrinets must be identical");
    trait_source(nbpt).unwrap();
}

#[test]
fn main_deserialize_convert() {
    let nbpt = swap_protocol_nbpt();
    let valid_partition = ValidPartition::new(nbpt.clone().partition()).unwrap();
    let petrinet = Petrinet::from(valid_partition);
    let expected = swap_protocol_net();
    assert_eq!(petrinet, expected, "The two petrinets must be identical");
    trait_source(nbpt).unwrap();
}

#[test]
fn swap_protocol_has_nineteen_places() {
    let valid_partition = ValidPartition::new(Partition::new(swap_protocol())).unwrap();
    let petrinet = Petrinet::from(valid_partition);
    assert_eq!(petrinet.place_count(), 19);
    assert_eq!(petrinet.transition_count(), 13);
    let text = trait_source(swap_protocol_nbpt()).unwrap();
    assert!(text.contains("trait swapprotocolboth<T01,T02,T03,T04,T05,T06,T07,T08,T09,T10,T11,T12,T13,T14,T15,T16,T17,T18,T19> {\n"));
    assert!(text.contains("  fn alice_locks(a00: T02, a01: T15) -> (T03, T16);\n"));
    assert!(text.contains("  fn alice_refunds(a00: AT12, a01: AT18) -> (AT13) {\n    Default::default()\n  }\n"));
}

#[test]
fn decode_alternates_consumed_and_produced_groups() {
    let transitions = decode(&vec![1, 0, 2, 3, 0, 2, 0, 4, 0]);
    assert_eq!(
        transitions,
        vec![Transition::new(vec![1], vec![2, 3]), Transition::new(vec![2], vec![4])]
    );
}

#[test]
fn decode_leaves_out_what_no_separator_closes() {
    let closed = vec![Transition::new(vec![1], vec![2])];
    assert_eq!(decode(&vec![1, 0, 2, 0]), closed);
    assert_eq!(decode(&vec![1, 0, 2, 0, 3]), closed);
    assert_eq!(decode(&vec![1, 0, 2, 0, 3, 0]), closed);
    assert_eq!(decode(&vec![1, 0, 2, 0, 3, 0, 4]), closed);
    assert_eq!(decode(&vec![1, 0, 2]), vec![]);
    assert_eq!(decode(&vec![1]), vec![]);
    assert_eq!(decode(&vec![]), vec![]);
}

#[test]
fn decode_accepts_empty_groups() {
    assert_eq!(decode(&vec![0, 0]), vec![Transition::new(vec![], vec![])]);
    assert_eq!(
        decode(&vec![0, 1, 0, 1, 0, 0]),
        vec![Transition::new(vec![], vec![1]), Transition::new(vec![1], vec![])]
    );
}

#[test]
fn valid_partition_decodes_to_places_of_its_numbering() {
    // places {1, 2, 3}; the open tail holds place 2 only
    let valid = ValidPartition::new(Partition::new(vec![1, 0, 3, 0, 2])).unwrap();
    let net = Petrinet::from(valid);
    assert_eq!(net, Petrinet::new(vec![Transition::new(vec![1], vec![3])]));
    for tr in net.transitions() {
        for place in tr.consume().iter().chain(tr.produce().iter()) {
            assert!(1 <= *place && *place <= 3);
        }
    }
    assert_eq!(net.place_count(), 3);
}

#[test]
fn decoded_net_runs() {
    let valid = ValidPartition::new(Partition::new(vec![1, 0, 2, 3, 0, 2, 0, 4, 0, 3, 0, 5, 0, 4, 5, 0, 6, 0])).unwrap();
    let net = Petrinet::from(valid);
    let e = Execution::from(&net).fire(0).fire(2).fire(1).fire(3);
    assert_eq!(e.marking(), &vec![false, false, false, false, false, true]);
}
