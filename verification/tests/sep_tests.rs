use follow_graph::identity::Identity;
use follow_graph::network::base::Network;
use follow_graph::sep_degrees::find_sep_degrees;
use follow_graph::sep_degrees::select_message_targets;
use follow_graph::sep_degrees::verify_path;
use follow_graph::sep_degrees::SepDegreeError;
use follow_graph::sep_degrees::SepSearch;
use follow_graph::sep_degrees::SearchStep;
use follow_graph::sep_degrees::DEFAULT_ROUND_CAP;

fn id(n: u64) -> Identity {
    Identity::from_words(0, 0, 0, n)
}

/// Makes `a` and `b` follow each other on top of their current lists.
fn befriend(net: &mut Network, pairs: &[(u64, u64)]) {
    for &(a, b) in pairs {
        net.add_follow(id(a), id(b), 1);
        net.add_follow(id(b), id(a), 1);
        // mark both lists fresh, as a merge of fetched lists would
        let ca = net.get_user_contacts(&id(a));
        net.update_contact_list(id(a), &ca, 1);
        let cb = net.get_user_contacts(&id(b));
        net.update_contact_list(id(b), &cb, 1);
    }
}

#[test]
fn separation_of_identity_with_itself_is_zero() {
    let mut net = Network::new();
    net.update_contact_list(id(1), &vec![id(2)], 1);
    let (degree, path) = find_sep_degrees(&mut net, id(1), id(1), DEFAULT_ROUND_CAP).unwrap();
    assert_eq!(degree, 0);
    assert_eq!(path, vec![id(1)]);
}

#[test]
fn confirmed_mutuals_are_at_distance_one() {
    let mut net = Network::new();
    befriend(&mut net, &[(1, 2)]);
    let (degree, path) = find_sep_degrees(&mut net, id(1), id(2), DEFAULT_ROUND_CAP).unwrap();
    assert_eq!(degree, 1);
    assert_eq!(path, vec![id(1), id(2)]);
}

#[test]
fn chain_of_four_mutual_pairs() {
    // A–B–C–D–E as consecutive mutual pairs, no shortcut; a round cap
    // of four is enough for distance four
    let mut net = Network::new();
    befriend(&mut net, &[(1, 2), (2, 3), (3, 4), (4, 5)]);
    let (degree, path) = find_sep_degrees(&mut net, id(1), id(5), 4).unwrap();
    assert_eq!(degree, 4);
    assert_eq!(path, vec![id(1), id(2), id(3), id(4), id(5)]);

    let mut net = Network::new();
    befriend(&mut net, &[(1, 2), (2, 3), (3, 4), (4, 5)]);
    let (degree, path) = find_sep_degrees(&mut net, id(1), id(5), DEFAULT_ROUND_CAP).unwrap();
    assert_eq!(degree, 4);
    assert_eq!(path, vec![id(1), id(2), id(3), id(4), id(5)]);
}

#[test]
fn the_cap_itself_is_still_reachable() {
    // the search fails only when the round counter exceeds the cap, so
    // a cap of one still finds distance one — and a chain one longer
    // than the cap is not found
    let mut net = Network::new();
    befriend(&mut net, &[(1, 2)]);
    assert_eq!(
        find_sep_degrees(&mut net, id(1), id(2), 1),
        Ok((1, vec![id(1), id(2)]))
    );

    let mut net = Network::new();
    befriend(&mut net, &[(1, 2), (2, 3)]);
    assert_eq!(
        find_sep_degrees(&mut net, id(1), id(3), 1),
        Err(SepDegreeError::NotFound)
    );
    let mut net = Network::new();
    befriend(&mut net, &[(1, 2), (2, 3)]);
    assert_eq!(
        find_sep_degrees(&mut net, id(1), id(3), 2),
        Ok((2, vec![id(1), id(2), id(3)]))
    );
}

#[test]
fn unconnected_identities_are_not_found() {
    let mut net = Network::new();
    befriend(&mut net, &[(1, 2)]);
    befriend(&mut net, &[(3, 4)]);
    assert_eq!(
        find_sep_degrees(&mut net, id(1), id(4), DEFAULT_ROUND_CAP),
        Err(SepDegreeError::NotFound)
    );
}

#[test]
fn one_directional_follows_do_not_connect() {
    // mutuality gating: a one-way chain is no path
    let mut net = Network::new();
    net.update_contact_list(id(1), &vec![id(2)], 1);
    net.update_contact_list(id(2), &vec![id(3)], 1);
    net.update_contact_list(id(3), &Vec::new(), 1);
    assert_eq!(
        find_sep_degrees(&mut net, id(1), id(3), DEFAULT_ROUND_CAP),
        Err(SepDegreeError::NotFound)
    );
}

#[test]
fn missing_contact_list_fails_fast() {
    let mut net = Network::new();
    net.update_contact_list(id(1), &vec![id(2)], 1);
    // the second target never published a list
    assert_eq!(
        find_sep_degrees(&mut net, id(1), id(2), DEFAULT_ROUND_CAP),
        Err(SepDegreeError::MissingContactList(id(2)))
    );
    // the first target is checked first
    assert_eq!(
        find_sep_degrees(&mut net, id(3), id(2), DEFAULT_ROUND_CAP),
        Err(SepDegreeError::MissingContactList(id(3)))
    );
}

#[test]
fn stepped_search_reports_continue_then_found() {
    let mut net = Network::new();
    befriend(&mut net, &[(1, 2), (2, 3)]);
    let mut search = SepSearch::new(&mut net, id(1), id(3), DEFAULT_ROUND_CAP).unwrap();
    // nothing pending: every border identity has a fresh list
    assert!(search.pending_border(&net).is_empty());
    match search.step(&net) {
        SearchStep::Continue => {}
        other => panic!("expected Continue, got {:?}", other),
    }
    loop {
        match search.step(&net) {
            SearchStep::Continue => {}
            SearchStep::Found(degree, path) => {
                assert_eq!(degree, 2);
                assert_eq!(path, vec![id(1), id(2), id(3)]);
                break;
            }
            SearchStep::NotFound => panic!("expected the frontiers to meet"),
        }
    }
}

#[test]
fn verify_path_checks_every_hop() {
    let mut net = Network::new();
    befriend(&mut net, &[(1, 2), (2, 3)]);
    assert!(verify_path(&net, &vec![id(1), id(2), id(3)]));
    assert!(verify_path(&net, &vec![id(2)]));
    assert!(verify_path(&net, &Vec::new()));
    // a stale hop: the middle identity dropped its second half
    net.update_contact_list(id(2), &vec![id(1)], 2);
    assert!(!verify_path(&net, &vec![id(1), id(2), id(3)]));
    assert!(verify_path(&net, &vec![id(1), id(2)]));
}

#[test]
fn select_message_targets_counts_arguments() {
    let three = vec![id(9), id(1), id(2)];
    assert_eq!(select_message_targets(&three, 3), Ok((id(1), id(2))));
    assert_eq!(select_message_targets(&vec![id(1), id(2)], 2), Ok((id(1), id(2))));
    assert_eq!(
        select_message_targets(&vec![id(1)], 3),
        Err(SepDegreeError::TooFewArguments)
    );
    assert_eq!(
        select_message_targets(&vec![id(1), id(2), id(3), id(4)], 3),
        Err(SepDegreeError::TooMuchArguments)
    );
}
