use currency_requester::routes::{chain_segments, Chains, Hop};

fn hop(from: usize, to: usize) -> Hop {
    Hop { from, to }
}

#[test]
fn a_new_table_has_an_empty_chain_for_each_currency() {
    let chains = Chains::new(3);
    assert_eq!(chains.len(), 3);
    assert_eq!(chains.into_chains(), vec![Vec::<Hop>::new(), Vec::new(), Vec::new()]);
}

#[test]
fn a_relaxation_extends_the_chain_of_the_nearer_currency() {
    let mut chains = Chains::new(4);
    chains.relax(0, 1);
    chains.relax(0, 2);
    chains.relax(1, 3);
    assert_eq!(chains.chain(3), &vec![hop(0, 1), hop(1, 3)]);
    chains.relax(2, 3);
    assert_eq!(chains.chain(3), &vec![hop(0, 2), hop(2, 3)]);
    assert_eq!(chains.chain(1), &vec![hop(0, 1)]);
    assert!(chains.chain(0).is_empty());
}

#[test]
fn a_relaxation_from_a_currency_without_chain_keeps_the_old_chain() {
    let mut chains = Chains::new(3);
    chains.relax(0, 2);
    chains.relax(1, 2);
    assert_eq!(chains.chain(2), &vec![hop(0, 2), hop(1, 2)]);
}

#[test]
fn the_stretches_of_a_route_come_by_start_then_end() {
    assert_eq!(
        chain_segments(4),
        vec![(0, 1), (0, 2), (0, 3), (1, 2), (1, 3), (2, 3)]
    );
    assert_eq!(chain_segments(2), vec![(0, 1)]);
    assert!(chain_segments(1).is_empty());
    assert!(chain_segments(0).is_empty());
}
