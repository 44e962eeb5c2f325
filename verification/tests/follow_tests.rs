use follow_graph::identity::Identity;
use follow_graph::network::base::Network;
use follow_graph::network::follow::FollowNetwork;
use follow_graph::network::follow::GetMetadataError;
use follow_graph::network::follow::RankReasons;
use follow_graph::network::follow::RecommendationError;
use follow_graph::user::Profile;

fn id(n: u64) -> Identity {
    Identity::from_words(0, 0, 0, n)
}

/// Root 10 follows 21 and 22 (level 1); both mutually follow 30.
fn ranked_scenario() -> (Network, FollowNetwork) {
    let mut net = Network::new();
    net.update_contact_list(id(10), &vec![id(21), id(22)], 1);
    net.update_contact_list(id(21), &vec![id(30)], 1);
    net.update_contact_list(id(22), &vec![id(30)], 1);
    net.update_contact_list(id(30), &vec![id(21), id(22)], 1);
    let mut neighborhood = FollowNetwork::new(id(10), None, &mut net);
    neighborhood.add_level(&mut net); // level 1: {21, 22}
    neighborhood.add_level(&mut net); // level 2: {30}
    (net, neighborhood)
}

#[test]
fn levels_grow_with_unplaced_followees_only() {
    let mut net = Network::new();
    // the root follows 2; 2 follows the root back and 3
    net.update_contact_list(id(1), &vec![id(2)], 1);
    net.update_contact_list(id(2), &vec![id(1), id(3)], 1);
    let mut neighborhood = FollowNetwork::new(id(1), None, &mut net);
    assert_eq!(neighborhood.top_level(), vec![id(1)]);
    neighborhood.add_level(&net);
    assert_eq!(neighborhood.top_level(), vec![id(2)]);
    neighborhood.add_level(&net);
    // the root is already placed at level 0: first discovery wins
    assert_eq!(neighborhood.top_level(), vec![id(3)]);
}

#[test]
fn add_metadata_names_the_level_members() {
    let (_, neighborhood) = ranked_scenario();
    let mut members = neighborhood.add_metadata(1).unwrap();
    members.sort();
    assert_eq!(members, vec![id(21), id(22)]);
    assert_eq!(neighborhood.add_metadata(0).unwrap(), vec![id(10)]);
    assert_eq!(
        neighborhood.add_metadata(5),
        Err(GetMetadataError::LevelNotPresent)
    );
}

#[test]
fn shared_mutuals_rank_twenty() {
    let (net, neighborhood) = ranked_scenario();
    let ranks = neighborhood.generate_user_ranks(&net).unwrap();
    assert_eq!(ranks.len(), 1);
    let (candidate, rank, reasons) = &ranks[0];
    assert_eq!(*candidate, id(30));
    assert_eq!(*rank, 20);
    assert_eq!(reasons.len(), 1);
    let RankReasons::MutualConnections(mutuals) = &reasons[0];
    let mut mutuals = mutuals.clone();
    mutuals.sort();
    assert_eq!(mutuals, vec![id(21), id(22)]);
}

#[test]
fn ranks_come_sorted_ascending() {
    let mut net = Network::new();
    // 31 shares one level-1 mutual, 32 shares two
    net.update_contact_list(id(10), &vec![id(21), id(22)], 1);
    net.update_contact_list(id(21), &vec![id(31), id(32)], 1);
    net.update_contact_list(id(22), &vec![id(32)], 1);
    net.update_contact_list(id(31), &vec![id(21)], 1);
    net.update_contact_list(id(32), &vec![id(21), id(22)], 1);
    let mut neighborhood = FollowNetwork::new(id(10), None, &mut net);
    neighborhood.add_level(&net);
    neighborhood.add_level(&net);
    let ranks = neighborhood.generate_user_ranks(&net).unwrap();
    assert_eq!(ranks.len(), 2);
    assert_eq!((ranks[0].0, ranks[0].1), (id(31), 10));
    assert_eq!((ranks[1].0, ranks[1].1), (id(32), 20));
}

#[test]
fn ranking_needs_three_levels() {
    let mut net = Network::new();
    net.update_contact_list(id(10), &vec![id(21)], 1);
    let mut neighborhood = FollowNetwork::new(id(10), None, &mut net);
    neighborhood.add_level(&net); // only levels 0 and 1 are built
    assert_eq!(
        neighborhood.generate_user_ranks(&net),
        Err(RecommendationError::NotEnoughLevels)
    );
}

fn named_profile(name: &str) -> Profile {
    Profile {
        name: Some(name.to_string()),
        display_name: None,
        about: None,
    }
}

#[test]
fn root_profile_attached_only_when_new() {
    let mut net = Network::new();
    // unknown root: the record is attached
    FollowNetwork::new(id(1), Some((named_profile("root"), 5)), &mut net);
    let (p, t) = net.get_pubkey_metadata(&id(1)).unwrap();
    assert_eq!(p.name, Some("root".to_string()));
    assert_eq!(*t, 5);
    // already-registered root: its data is left untouched
    FollowNetwork::new(id(1), Some((named_profile("imposter"), 9)), &mut net);
    let (p, t) = net.get_pubkey_metadata(&id(1)).unwrap();
    assert_eq!(p.name, Some("root".to_string()));
    assert_eq!(*t, 5);
}

#[test]
fn ranks_fit_reports_the_width_bound() {
    let mut net = Network::new();
    net.update_contact_list(id(10), &vec![id(21)], 1);
    let mut neighborhood = FollowNetwork::new(id(10), None, &mut net);
    assert!(neighborhood.ranks_fit());
    neighborhood.add_level(&net);
    assert!(neighborhood.ranks_fit());
}
