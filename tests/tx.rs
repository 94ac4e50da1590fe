use openrank_core::tx::{
    Assignment, Commitment, DomainHash, EigenDaJobDescription, JobResult, Request, ScoreEntry,
    Scores, Signature, TrustEntry, Verification,
};

fn hash(b: u8) -> openrank_core::merkle::Hash {
    openrank_core::merkle::Hash::from_bytes([b; 32])
}

#[test]
fn records_keep_their_fields() {
    let c = Commitment::new(hash(1), hash(2), hash(3), hash(4));
    assert_eq!(c.assignment_id(), hash(1));
    assert_eq!(c.lt_root_hash(), hash(2));
    assert_eq!(c.compute_root_hash(), hash(3));
    assert_eq!(c.scores_id(), hash(4));

    let s = Scores::new(vec![ScoreEntry::new("a".to_string(), 7)]);
    assert_eq!(s.entries()[0].id(), "a");
    assert_eq!(s.entries()[0].value(), 7);

    let t = TrustEntry::new("a".to_string(), "b".to_string(), 9);
    assert_eq!((t.from().as_str(), t.to().as_str(), t.value()), ("a", "b", 9));

    let sig = Signature::new([1; 32], [2; 32], 3);
    assert_eq!((sig.s(), sig.r(), sig.r_id()), ([1; 32], [2; 32], 3));

    let a = Assignment::new(hash(5), [6; 20], vec![[7; 20]]);
    assert_eq!(a.request_id(), hash(5));
    assert_eq!(a.assigned_compute_node(), [6; 20]);
    assert_eq!(a.assigned_verifier_nodes(), &vec![[7; 20]]);

    let j = JobResult::new("s".to_string(), "c".to_string());
    assert_eq!((j.scores_id().as_str(), j.commitment().as_str()), ("s", "c"));

    let e = EigenDaJobDescription::new(vec!["x".to_string()], vec![1], vec![2], vec![3]);
    assert_eq!(e.neighbour_commitments(), &vec!["x".to_string()]);
    assert_eq!((e.trust_data(), e.seed_data(), e.scores_data()), (&vec![1], &vec![2], &vec![3]));
}

#[test]
fn request_sequence_number_is_set_once_asked() {
    let mut r = Request::new(DomainHash { value: 11 }, 12, hash(13));
    assert_eq!(r.seq_number(), None);
    r.set_seq_number(14);
    assert_eq!(r.seq_number(), Some(14));
    assert_eq!(r.domain_id(), DomainHash { value: 11 });
    assert_eq!(r.block_height(), 12);
    assert_eq!(r.compute_id(), hash(13));
}

#[test]
fn verification_defaults_to_accepted() {
    let v = Verification::default();
    assert!(v.verification_result());
    assert_eq!(v.assignment_id(), openrank_core::merkle::Hash::zero());
    let w = Verification::new(hash(1), false);
    assert!(!w.verification_result());
    assert_eq!(w.assignment_id(), hash(1));
}
