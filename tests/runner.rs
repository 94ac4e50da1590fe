use openrank_core::domain::{DomainState, Error};
use openrank_core::runner::VerificationRunner;
use openrank_core::tx::{Commitment, DomainHash, ScoreEntry, Scores, TrustEntry};

fn bits(x: f32) -> u32 {
    x.to_bits()
}

fn hash(b: u8) -> openrank_core::merkle::Hash {
    openrank_core::merkle::Hash::from_bytes([b; 32])
}

fn trust() -> Vec<TrustEntry> {
    vec![
        TrustEntry::new("a".to_string(), "b".to_string(), bits(1.0)),
        TrustEntry::new("b".to_string(), "a".to_string(), bits(1.0)),
    ]
}

fn seed() -> Vec<ScoreEntry> {
    vec![ScoreEntry::new("a".to_string(), bits(1.0))]
}

fn computed() -> (Vec<ScoreEntry>, openrank_core::merkle::Hash) {
    let mut d = DomainState::new();
    d.update_trust(&trust());
    d.update_seed(&seed());
    let (scores, root) = d.compute().unwrap();
    let entries = vec![
        ScoreEntry::new("a".to_string(), scores[0].1),
        ScoreEntry::new("b".to_string(), scores[1].1),
    ];
    (entries, root)
}

fn runner_with(domain: DomainHash) -> VerificationRunner {
    let mut r = VerificationRunner::new(&vec![domain]);
    r.update_trust(domain, &trust()).unwrap();
    r.update_seed(domain, &seed()).unwrap();
    r
}

#[test]
fn honest_assignment_passes_the_check() {
    let domain = DomainHash { value: 1 };
    let mut r = runner_with(domain);
    let (entries, root) = computed();
    r.update_scores(domain, hash(9), Scores::new(entries)).unwrap();
    r.update_assigment(domain, hash(7)).unwrap();
    r.update_assigment(domain, hash(7)).unwrap();
    r.update_assigment(domain, hash(8)).unwrap();
    r.update_commitment(Commitment::new(hash(7), hash(0), root, hash(9)));
    let results = r.check_finished_assignments(domain).unwrap();
    assert_eq!(results, vec![(hash(7), true)]);
    assert_eq!(r.get_root_hashes(domain, hash(7)), Ok(root));
    assert_eq!(r.compute_verification(domain, hash(7)), Ok(true));
    assert_eq!(r.check_finished_assignments(domain).unwrap(), vec![]);
}

#[test]
fn wrong_root_or_scores_fail_the_check() {
    let domain = DomainHash { value: 1 };
    let mut r = runner_with(domain);
    let (entries, _) = computed();
    r.update_scores(domain, hash(9), Scores::new(entries)).unwrap();
    let far = vec![
        ScoreEntry::new("a".to_string(), bits(0.0)),
        ScoreEntry::new("b".to_string(), bits(1.0)),
    ];
    r.update_scores(domain, hash(10), Scores::new(far)).unwrap();
    r.update_assigment(domain, hash(7)).unwrap();
    r.update_assigment(domain, hash(8)).unwrap();
    r.update_commitment(Commitment::new(hash(7), hash(0), hash(1), hash(9)));
    r.update_commitment(Commitment::new(hash(8), hash(0), hash(1), hash(10)));
    assert_eq!(r.compute_verification(domain, hash(8)), Ok(false));
    let results = r.check_finished_assignments(domain).unwrap();
    assert_eq!(results, vec![(hash(7), false), (hash(8), false)]);
}

#[test]
fn runner_errors() {
    let domain = DomainHash { value: 1 };
    let other = DomainHash { value: 2 };
    let mut r = runner_with(domain);
    assert_eq!(r.update_trust(other, &trust()), Err(Error::DomainMissing));
    assert_eq!(r.compute_verification(other, hash(7)), Err(Error::DomainMissing));
    assert_eq!(r.check_finished_assignments(other), Err(Error::DomainMissing));
    assert_eq!(r.create_compute_tree(domain, hash(7)), Err(Error::CommitmentMissing));
    r.update_commitment(Commitment::new(hash(7), hash(0), hash(1), hash(9)));
    assert_eq!(r.create_compute_tree(domain, hash(7)), Err(Error::ScoresMissing));
    assert_eq!(r.get_root_hashes(domain, hash(7)), Err(Error::TreeMissing));
    r.update_scores(domain, hash(9), Scores::new(vec![])).unwrap();
    assert_eq!(r.create_compute_tree(domain, hash(7)), Err(Error::MerkleBuild));
    r.update_scores(domain, hash(9), Scores::new(vec![ScoreEntry::new("x".to_string(), 0)])).unwrap();
    assert_eq!(r.compute_verification(domain, hash(7)), Err(Error::UnknownPeer("x".to_string())));
    r.update_assigment(domain, hash(7)).unwrap();
    assert_eq!(r.check_finished_assignments(domain), Err(Error::UnknownPeer("x".to_string())));
}
