use openrank_core::domain::{DomainState, Error};
use openrank_core::tx::{ScoreEntry, TrustEntry};

fn bits(x: f32) -> u32 {
    x.to_bits()
}

fn trust(from: &str, to: &str, v: f32) -> TrustEntry {
    TrustEntry::new(from.to_string(), to.to_string(), bits(v))
}

fn score(id: &str, v: f32) -> ScoreEntry {
    ScoreEntry::new(id.to_string(), bits(v))
}

#[test]
fn indexer_interns_in_order_of_first_appearance() {
    let mut d = DomainState::new();
    d.update_trust(&vec![trust("a", "b", 1.0), trust("c", "a", 2.0), trust("b", "b", 3.0)]);
    assert_eq!(d.count(), 3);
    assert_eq!(d.index_of(&"a".to_string()), Some(0));
    assert_eq!(d.index_of(&"b".to_string()), Some(1));
    assert_eq!(d.index_of(&"c".to_string()), Some(2));
    assert_eq!(d.index_of(&"z".to_string()), None);
    d.update_seed(&vec![score("d", 1.0), score("a", 0.5)]);
    assert_eq!(d.count(), 4);
    assert_eq!(d.index_of(&"d".to_string()), Some(3));
}

#[test]
fn last_writer_wins_and_self_edges_are_dropped() {
    let mut d = DomainState::new();
    d.update_trust(&vec![trust("a", "b", 1.0), trust("a", "b", 4.0), trust("a", "a", 9.0)]);
    d.update_seed(&vec![score("a", 1.0)]);
    let (scores, _) = d.compute().unwrap();
    let mut e = DomainState::new();
    e.update_trust(&vec![trust("a", "b", 4.0)]);
    e.update_seed(&vec![score("a", 1.0)]);
    assert_eq!(e.compute().unwrap().0, scores);
}

#[test]
fn domain_compute_and_verify() {
    let mut d = DomainState::new();
    d.update_trust(&vec![trust("a", "b", 1.0), trust("b", "a", 1.0)]);
    d.update_seed(&vec![score("a", 1.0)]);
    let (scores, root) = d.compute().unwrap();
    assert_eq!(scores, vec![(0, 0x3f2a_0000), (1, 0x3eac_0000)]);
    assert_eq!(root, openrank_core::merkle::compute_root(&scores).unwrap());
    let submitted = vec![ScoreEntry::new("a".to_string(), scores[0].1), ScoreEntry::new("b".to_string(), scores[1].1)];
    assert_eq!(d.verify(&submitted), Ok(true));
    let wrong = vec![score("a", 0.0), score("b", 1.0)];
    assert_eq!(d.verify(&wrong), Ok(false));
}

#[test]
fn verify_unknown_peer_is_an_error() {
    let mut d = DomainState::new();
    d.update_trust(&vec![trust("a", "b", 1.0)]);
    assert_eq!(d.verify(&vec![score("a", 0.5), score("x", 0.5)]), Err(Error::UnknownPeer("x".to_string())));
}

#[test]
fn compute_on_an_empty_domain_is_an_error() {
    let d = DomainState::new();
    assert_eq!(d.compute(), Err(Error::EmptyInput));
}

#[test]
fn row_sum_moves_by_the_difference() {
    let mut r = openrank_core::trust::OutboundLocalTrust::new();
    r.insert(3, bits(1.0));
    r.insert(1, bits(2.0));
    r.insert(3, bits(0.5));
    assert_eq!(r.outbound_trust_scores(), &vec![(1, bits(2.0)), (3, bits(0.5))]);
    assert_eq!(r.outbound_sum(), bits(2.5));
    let s = r.without(1);
    assert_eq!(s.outbound_trust_scores(), &vec![(3, bits(0.5))]);
    assert_eq!(s.outbound_sum(), bits(0.5));
    let f = openrank_core::trust::OutboundLocalTrust::from_score_map(&vec![Some(bits(1.0)), None, Some(bits(3.0))]);
    assert_eq!(f.outbound_trust_scores(), &vec![(0, bits(1.0)), (2, bits(3.0))]);
    assert_eq!(f.outbound_sum(), bits(4.0));
    let n = f.norm();
    assert_eq!(n.outbound_trust_scores(), &vec![(0, bits(0.25)), (2, bits(0.75))]);
}

#[test]
fn partial_submission_is_rejected_and_first_unknown_named() {
    let mut d = DomainState::new();
    d.update_trust(&vec![trust("a", "b", 1.0), trust("b", "a", 1.0)]);
    d.update_seed(&vec![score("a", 1.0)]);
    let (scores, _) = d.compute().unwrap();
    let only_a = vec![ScoreEntry::new("a".to_string(), scores[0].1)];
    assert_eq!(d.verify(&only_a), Ok(false));
    let unknown = vec![score("a", 0.5), score("y", 0.5), score("x", 0.5)];
    assert_eq!(d.verify(&unknown), Err(Error::UnknownPeer("y".to_string())));
}
