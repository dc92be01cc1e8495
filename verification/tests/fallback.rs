use s5_groups::fallback::{self, Attempts, BlobPathError, RegistryPlan, RemoteRegistry};
use s5_groups::peer::{self, PeerAddr};

fn peer_addr(b: u8) -> PeerAddr {
    PeerAddr { id: [b; 32], paths: Vec::new() }
}

fn first_ok(results: &[Result<u32, &'static str>]) -> Result<u32, &'static str> {
    let mut attempts: Attempts<&'static str> = Attempts::new(results.len());
    while let Some(i) = attempts.next() {
        match results[i] {
            Ok(v) => return Ok(v),
            Err(e) => attempts.failed(e),
        }
    }
    Err(attempts.into_error().unwrap_or("no stores configured"))
}

#[test]
fn first_store_that_succeeds_counts() {
    assert_eq!(first_ok(&[Ok(1), Ok(2)]), Ok(1));
    assert_eq!(first_ok(&[Err("a"), Ok(2), Ok(3)]), Ok(2));
}

#[test]
fn last_failure_is_reported() {
    assert_eq!(first_ok(&[Err("a"), Err("b")]), Err("b"));
    assert_eq!(first_ok(&[]), Err("no stores configured"));
}

#[test]
fn features_of_the_fallback_store() {
    let f = fallback::fallback_features();
    assert!(!f.case_sensitive);
    assert_eq!(f.recommended_max_dir_size, 1024);
    assert!(!f.supports_rename);
}

#[test]
fn hash_is_extracted_from_a_parsed_path() {
    assert_eq!(fallback::extract_hash(Some(Some([3; 32]))), Ok([3; 32]));
    assert_eq!(fallback::extract_hash(Some(None)), Err(BlobPathError::NoHash));
    assert_eq!(fallback::extract_hash(None), Err(BlobPathError::Unparsable));
}

#[test]
fn registries_that_can_be_opened_are_used() {
    let me = [1u8; 32];
    let one = vec![peer_addr(1), peer_addr(2)];
    let two = vec![peer_addr(2), peer_addr(1), peer_addr(3)];
    let none = vec![peer_addr(1)];
    assert_eq!(
        fallback::plan_registry(true, &one, &me),
        RegistryPlan::Tee(RemoteRegistry::One(peer_addr(2)))
    );
    assert_eq!(
        fallback::plan_registry(true, &two, &me),
        RegistryPlan::Tee(RemoteRegistry::Many(vec![peer_addr(2), peer_addr(3)]))
    );
    assert_eq!(fallback::plan_registry(true, &none, &me), RegistryPlan::Local);
    assert_eq!(
        fallback::plan_registry(false, &one, &me),
        RegistryPlan::Remote(RemoteRegistry::One(peer_addr(2)))
    );
    assert_eq!(fallback::plan_registry(false, &none, &me), RegistryPlan::Unavailable);
    assert_eq!(fallback::plan_registry(false, &Vec::new(), &me), RegistryPlan::Unavailable);
}

#[test]
fn peers_without_and_with_ourselves() {
    let peers = vec![peer_addr(2), peer_addr(1), peer_addr(3), peer_addr(1)];
    assert_eq!(
        peer::without_self(&peers, &[1; 32]),
        vec![peer_addr(2), peer_addr(3)]
    );
    assert_eq!(peer::with_self(vec![peer_addr(2)], peer_addr(2)), vec![peer_addr(2)]);
    assert_eq!(
        peer::with_self(vec![peer_addr(2)], peer_addr(1)),
        vec![peer_addr(2), peer_addr(1)]
    );
}
