use safety_net::graph::{dependency_order, reachable_from};

#[test]
fn reachability_follows_edges_from_the_roots() {
    let adj = vec![vec![1, 2], vec![3], vec![], vec![1], vec![0], vec![5]];
    assert_eq!(
        reachable_from(&adj, &vec![0]),
        vec![true, true, true, true, false, false]
    );
    assert_eq!(
        reachable_from(&adj, &vec![]),
        vec![false, false, false, false, false, false]
    );
    assert_eq!(
        reachable_from(&adj, &vec![5, 2, 5]),
        vec![false, false, true, false, false, true]
    );
    assert_eq!(
        reachable_from(&adj, &vec![4]),
        vec![true, true, true, true, true, false]
    );
    assert_eq!(reachable_from(&vec![], &vec![]), Vec::<bool>::new());
}

#[test]
fn dependency_order_puts_dependencies_first() {
    let adj = vec![vec![1, 2], vec![2], vec![], vec![0, 0]];
    let order = dependency_order(&adj).unwrap();
    assert_eq!(order, vec![2, 1, 0, 3]);
    assert_eq!(dependency_order(&vec![]).unwrap(), Vec::<usize>::new());
    assert_eq!(
        dependency_order(&vec![vec![], vec![], vec![]]).unwrap(),
        vec![0, 1, 2]
    );
    assert_eq!(
        dependency_order(&vec![vec![1], vec![2], vec![]]).unwrap(),
        vec![2, 1, 0]
    );
}

#[test]
fn dependency_order_reports_what_leads_into_a_cycle() {
    let adj = vec![vec![], vec![2], vec![1], vec![1, 0], vec![0], vec![5]];
    assert_eq!(dependency_order(&adj).unwrap_err(), vec![1, 2, 3, 5]);
    assert_eq!(dependency_order(&vec![vec![0]]).unwrap_err(), vec![0]);
}
