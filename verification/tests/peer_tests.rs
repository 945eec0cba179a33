use eigen_trust::epoch::Epoch;
use eigen_trust::peer::{Opinion, Peer, Rating, SCALE};
use eigen_trust::EigenError;

const NUM_CONNECTIONS: usize = 256;
const HALF: u64 = SCALE / 2;

#[test]
fn should_create_opinion() {
    let opinion = Opinion::new(Epoch(0), HALF, HALF, HALF);
    assert_eq!(opinion.get_epoch(), Epoch(0));
    assert_eq!(opinion.get_global_trust_score(), HALF);
    assert_eq!(opinion.get_local_trust_score(), HALF);
    assert_eq!(opinion.get_product(), HALF);
}

#[test]
fn should_create_peer() {
    let peer = Peer::new(NUM_CONNECTIONS, HALF, HALF);
    assert_eq!(peer.get_pre_trust_score(), HALF);
    assert_eq!(peer.get_pre_trust_weight(), HALF);
    assert_eq!(peer.get_sum_of_scores(), 0);
}

#[test]
fn should_cache_local_and_global_opinion() {
    let mut peer = Peer::new(NUM_CONNECTIONS, HALF, HALF);

    let epoch = Epoch(0);
    let neighbor_id = 42u64;
    let opinion = Opinion::new(epoch, HALF, HALF, SCALE / 4);
    peer.cache_local_opinion((neighbor_id, epoch), opinion);
    peer.cache_neighbor_opinion((neighbor_id, epoch), opinion);

    assert_eq!(peer.get_local_opinion(&(neighbor_id, epoch)), opinion);
    assert_eq!(peer.get_neighbor_opinion(&(neighbor_id, epoch)), opinion);
}

#[test]
fn should_add_and_remove_neghbours() {
    let mut peer = Peer::new(NUM_CONNECTIONS, HALF, HALF);
    let neighbor_id = 7u64;

    peer.add_neighbor(neighbor_id).unwrap();
    let num_neighbors = peer.neighbors().len();
    assert_eq!(num_neighbors, 1);

    peer.remove_neighbor(neighbor_id).unwrap();
    let num_neighbors = peer.neighbors().len();
    assert_eq!(num_neighbors, 0);
}

#[test]
fn should_add_neighbors_and_calculate_global_score() {
    let pre_trust_score = HALF;
    let pre_trust_weight = HALF;
    let mut peer = Peer::new(NUM_CONNECTIONS, pre_trust_score, pre_trust_weight);

    let epoch = Epoch(0);
    for id in 0..256u64 {
        peer.add_neighbor(id).unwrap();
        peer.set_score(id, 5);
        let opinion = Opinion::new(epoch, SCALE / 10, SCALE / 10, SCALE / 100);
        peer.cache_neighbor_opinion((id, epoch), opinion);
    }

    let global_score = peer.calculate_global_trust_score(epoch);

    let mut true_global_score: u64 = 0;
    for _ in 0..256 {
        true_global_score += SCALE / 100;
    }
    let boostrap_score = (((SCALE - pre_trust_weight) as u128 * true_global_score as u128
        + pre_trust_weight as u128 * pre_trust_score as u128)
        + (SCALE / 2) as u128)
        / SCALE as u128;

    assert_eq!(boostrap_score, global_score as u128);
    assert_eq!(global_score, 153_000_000);
}

#[test]
fn should_add_neighbors_and_calculate_local_scores() {
    let pre_trust_score = HALF;
    let pre_trust_weight = HALF;
    let mut peer = Peer::new(NUM_CONNECTIONS, pre_trust_score, pre_trust_weight);

    let epoch = Epoch(0);
    for id in 0..256u64 {
        peer.add_neighbor(id).unwrap();
        peer.set_score(id, 5);
        let opinion = Opinion::new(epoch, SCALE / 10, SCALE / 10, SCALE / 100);
        peer.cache_neighbor_opinion((id, epoch), opinion);
    }

    let global_score = peer.calculate_global_trust_score(epoch);

    peer.calculate_local_opinions(epoch);

    for peer_id in peer.neighbors() {
        let opinion = peer.get_local_opinion(&(peer_id, epoch.next()));
        let normalized_score = peer.get_normalized_score(5);
        let local_score = ((global_score as u128 * normalized_score as u128
            + (SCALE / 2) as u128)
            / SCALE as u128) as u64;
        assert_eq!(opinion.get_product(), local_score);
    }
}

#[test]
fn equal_ratings_normalize_to_one_share() {
    let mut peer = Peer::new(4, HALF, HALF);
    for id in 0..4u64 {
        peer.add_neighbor(id).unwrap();
        peer.set_score(id, 5);
    }
    assert_eq!(peer.get_sum_of_scores(), 4 * 5);
    assert_eq!(peer.get_normalized_score(5), SCALE / 4);
}

#[test]
fn global_score_of_empty_opinions_is_weighted_pre_trust() {
    let mut peer = Peer::new(NUM_CONNECTIONS, HALF, HALF);
    for id in 0..8u64 {
        peer.add_neighbor(id).unwrap();
        peer.set_score(id, 1);
    }
    let global = peer.calculate_global_trust_score(Epoch(3));
    assert_eq!(global, SCALE / 4);
}

#[test]
fn add_neighbor_is_idempotent_and_bounded() {
    let mut peer = Peer::new(2, HALF, HALF);
    peer.add_neighbor(1).unwrap();
    peer.add_neighbor(1).unwrap();
    assert_eq!(peer.neighbors().len(), 1);
    peer.add_neighbor(2).unwrap();
    let result = peer.add_neighbor(3);
    assert!(matches!(result, Err(EigenError::MaxNeighboursReached)));
    assert_eq!(peer.neighbors(), vec![1, 2]);
}

#[test]
fn add_neighbor_takes_the_first_free_slot() {
    let mut peer = Peer::new(4, HALF, HALF);
    peer.add_neighbor(1).unwrap();
    peer.add_neighbor(2).unwrap();
    peer.add_neighbor(3).unwrap();
    peer.remove_neighbor(2).unwrap();
    peer.add_neighbor(4).unwrap();
    assert_eq!(peer.neighbors(), vec![1, 4, 3]);
}

#[test]
fn rate_neighbour_steps_and_floors() {
    let mut peer = Peer::new(4, HALF, HALF);
    peer.add_neighbor(9).unwrap();
    peer.rate_neighbour(9, Rating::Positive).unwrap();
    peer.rate_neighbour(9, Rating::Positive).unwrap();
    assert_eq!(peer.get_sum_of_scores(), 2);
    peer.rate_neighbour(9, Rating::Negative).unwrap();
    peer.rate_neighbour(9, Rating::Negative).unwrap();
    peer.rate_neighbour(9, Rating::Negative).unwrap();
    assert_eq!(peer.get_sum_of_scores(), 0);
    let missing = peer.rate_neighbour(8, Rating::Positive);
    assert!(matches!(missing, Err(EigenError::NeighbourNotFound)));
}

#[test]
fn missing_opinions_read_as_empty() {
    let peer = Peer::new(4, HALF, HALF);
    let op = peer.get_neighbor_opinion(&(5, Epoch(2)));
    assert_eq!(op, Opinion::empty(Epoch(2)));
    assert!(!peer.has_neighbour_opinion(&(5, Epoch(2))));
    assert!(!peer.has_local_opinion(&(5, Epoch(2))));
}

#[test]
fn remove_of_unknown_neighbour_fails() {
    let mut peer = Peer::new(4, HALF, HALF);
    let result = peer.remove_neighbor(11);
    assert!(matches!(result, Err(EigenError::NeighbourNotFound)));
    assert_eq!(peer.get_pre_trust_score(), HALF);
}
