use follow_graph::identity::Identity;
use follow_graph::network::base::Network;
use follow_graph::user::Profile;

fn id(n: u64) -> Identity {
    Identity::from_words(0, 0, 0, n)
}

fn profile(name: &str) -> Profile {
    Profile {
        name: Some(name.to_string()),
        display_name: None,
        about: None,
    }
}

#[test]
fn add_identity_idempotent() {
    let mut net = Network::new();
    let (h1, new1) = net.add_user(id(1));
    let (h2, new2) = net.add_user(id(1));
    assert_eq!(h1, h2);
    assert!(new1);
    assert!(!new2);
    assert!(net.contains_user(&id(1)));
    assert!(!net.contains_user(&id(2)));
}

#[test]
fn contact_list_round_trip() {
    let mut net = Network::new();
    let contacts = vec![id(2), id(3)];
    net.update_contact_list(id(1), &contacts, 100);
    let mut got = net.get_user_contacts(&id(1));
    got.sort();
    assert_eq!(got, vec![id(2), id(3)]);

    // a later list fully replaces the earlier one
    let newer = vec![id(4)];
    net.update_contact_list(id(1), &newer, 101);
    assert_eq!(net.get_user_contacts(&id(1)), vec![id(4)]);
}

#[test]
fn contacts_of_unknown_identity_are_empty() {
    let net = Network::new();
    assert!(net.get_user_contacts(&id(9)).is_empty());
    assert!(net.get_user_mutuals(&id(9)).is_empty());
    assert_eq!(net.does_user_follow(&id(9)), None);
}

#[test]
fn are_mutual_symmetric() {
    let mut net = Network::new();
    net.update_contact_list(id(1), &vec![id(2)], 1);
    net.update_contact_list(id(2), &vec![id(1)], 1);
    net.update_contact_list(id(3), &vec![id(1)], 1);
    // mutual pair, both directions agree
    assert_eq!(
        net.are_users_mutuals(&id(1), &id(2)),
        net.are_users_mutuals(&id(2), &id(1))
    );
    assert!(net.are_users_mutuals(&id(1), &id(2)));
    // one-directional pair, both directions agree
    assert_eq!(
        net.are_users_mutuals(&id(1), &id(3)),
        net.are_users_mutuals(&id(3), &id(1))
    );
    assert!(!net.are_users_mutuals(&id(1), &id(3)));
    // unknown identity: false, never an error
    assert!(!net.are_users_mutuals(&id(1), &id(9)));
}

#[test]
fn last_follow_update_recorded() {
    let mut net = Network::new();
    assert_eq!(net.does_user_follow(&id(1)), None);
    net.update_contact_list(id(1), &vec![id(2)], 500);
    assert_eq!(net.does_user_follow(&id(1)), Some(500));
    // an empty list still (re)establishes the edge set
    net.update_contact_list(id(1), &Vec::new(), 600);
    assert_eq!(net.does_user_follow(&id(1)), Some(600));
    assert!(net.get_user_contacts(&id(1)).is_empty());
}

#[test]
fn add_follow_idempotent_edge() {
    let mut net = Network::new();
    let e1 = net.add_follow(id(1), id(2), 10);
    assert_eq!(net.does_user_follow(&id(1)), Some(10));
    let e2 = net.add_follow(id(1), id(2), 20);
    // re-adding is a no-op on the edge set but still refreshes the
    // follower's last-follow-update timestamp
    assert_eq!(e1, e2);
    assert_eq!(net.does_user_follow(&id(1)), Some(20));
    assert_eq!(net.get_user_contacts(&id(1)), vec![id(2)]);
}

#[test]
fn node_handles_map_back_to_identities() {
    let mut net = Network::new();
    let (n1, _) = net.add_user(id(1));
    let (n2, _) = net.add_user(id(2));
    assert_eq!(net.node_to_pubkey(n1), Some(id(1)));
    assert_eq!(net.node_to_pubkey(n2), Some(id(2)));
    assert_eq!(net.pubkey_to_node(&id(2)), Some(n2));
    assert_eq!(net.pubkey_to_node(&id(3)), None);
    assert_eq!(net.node_to_pubkey(99), None);
}

#[test]
fn get_user_mutuals_intersects_directions() {
    let mut net = Network::new();
    net.update_contact_list(id(1), &vec![id(2), id(3), id(4)], 1);
    net.update_contact_list(id(2), &vec![id(1)], 1);
    net.update_contact_list(id(3), &vec![id(5)], 1);
    let mutuals = net.get_user_mutuals(&id(1));
    assert_eq!(mutuals.len(), 1);
    assert_eq!(net.node_to_pubkey(mutuals[0]), Some(id(2)));
}

#[test]
fn profile_cache_three_states() {
    let mut net = Network::new();
    // never queried
    assert!(net.get_pubkey_metadata(&id(1)).is_none());
    // queried, none found
    let prev = net.add_user_no_metadata(id(1));
    assert!(prev.is_none());
    assert!(net.get_pubkey_metadata(&id(1)).is_none());
    // a record found
    let prev = net.add_user_metadata(id(1), profile("alice"), 42);
    assert!(prev.is_none());
    let (p, t) = net.get_pubkey_metadata(&id(1)).unwrap();
    assert_eq!(p.name, Some("alice".to_string()));
    assert_eq!(*t, 42);
    // replacing hands the old record back
    let prev = net.add_user_metadata(id(1), profile("still alice"), 43);
    assert_eq!(prev.unwrap().1, 42);
}

#[test]
fn extend_users_metadata_later_entry_wins() {
    let mut net = Network::new();
    net.extend_users_metadata(vec![
        (id(1), Some((profile("one"), 1))),
        (id(2), None),
        (id(1), Some((profile("newer one"), 2))),
    ]);
    let (p, t) = net.get_pubkey_metadata(&id(1)).unwrap();
    assert_eq!(p.name, Some("newer one".to_string()));
    assert_eq!(*t, 2);
    assert!(net.get_pubkey_metadata(&id(2)).is_none());
}

#[test]
fn remove_contact_list_only_clears_one_identity() {
    let mut net = Network::new();
    net.update_contact_list(id(1), &vec![id(2)], 1);
    net.update_contact_list(id(2), &vec![id(1)], 1);
    net.remove_contact_list(id(1));
    assert!(net.get_user_contacts(&id(1)).is_empty());
    assert_eq!(net.get_user_contacts(&id(2)), vec![id(1)]);
    // removal adds a node for an unknown identity but nothing else
    net.remove_contact_list(id(7));
    assert!(net.contains_user(&id(7)));
}
