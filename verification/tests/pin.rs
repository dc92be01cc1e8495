use s5_groups::config::PeerConfigBlobs;
use s5_groups::peer::PeerAddr;
use s5_groups::pin::{self, MountSource, PinFile, PinOutcome, PinPhase, PinTally};
use s5_groups::tree::FoundFile;

fn file(size: u64) -> FoundFile {
    FoundFile { path: "f".into(), hash: [0; 32], size }
}

#[test]
fn store_that_was_asked_for_or_the_first_or_the_default() {
    assert_eq!(pin::pin_store(Some("a".into()), Some("b")), "a");
    assert_eq!(pin::pin_store(None, Some("b")), "b");
    assert_eq!(pin::pin_store(None, None), "default");
}

#[test]
fn at_least_one_job() {
    assert_eq!(pin::concurrency(0), 1);
    assert_eq!(pin::concurrency(1), 1);
    assert_eq!(pin::concurrency(8), 8);
}

#[test]
fn file_in_the_store_is_skipped() {
    let mut f = PinFile::new(2);
    f.checked(true);
    assert_eq!(f.phase, PinPhase::Done(PinOutcome::Skipped));
}

#[test]
fn file_is_taken_from_the_first_peer_that_has_it() {
    let mut f = PinFile::new(3);
    f.checked(false);
    assert_eq!(f.phase, PinPhase::Asking(0));
    f.replied(None);
    assert_eq!(f.phase, PinPhase::Asking(1));
    f.replied(Some(0));
    assert_eq!(f.phase, PinPhase::Asking(2));
    f.replied(Some(12));
    assert_eq!(f.phase, PinPhase::Storing);
    f.stored();
    assert_eq!(f.phase, PinPhase::Done(PinOutcome::Pinned));
}

#[test]
fn file_that_no_peer_has_fails() {
    let mut f = PinFile::new(1);
    f.checked(false);
    f.replied(None);
    assert_eq!(f.phase, PinPhase::Done(PinOutcome::Failed));
    let mut f = PinFile::new(0);
    f.checked(false);
    assert_eq!(f.phase, PinPhase::Done(PinOutcome::Failed));
}

#[test]
fn outcomes_are_counted() {
    let outcomes = vec![
        PinOutcome::Pinned,
        PinOutcome::Failed,
        PinOutcome::Pinned,
        PinOutcome::Skipped,
        PinOutcome::Pinned,
    ];
    assert_eq!(pin::tally(&outcomes), PinTally { pinned: 3, skipped: 1, failed: 1 });
}

#[test]
fn sizes_are_added_up() {
    assert_eq!(pin::total_size(&vec![file(5), file(7)]), Some(12));
    assert_eq!(pin::total_size(&Vec::new()), Some(0));
    assert_eq!(pin::total_size(&vec![file(u64::MAX), file(0)]), Some(u64::MAX));
    assert_eq!(pin::total_size(&vec![file(u64::MAX), file(1), file(3)]), None);
}

#[test]
fn lines_of_a_pin_run() {
    assert_eq!(pin::pinning_line(12, "s3"), "pinning 12 file(s) to store 's3'...");
    assert_eq!(
        pin::pinned_line(PinTally { pinned: 10, skipped: 2, failed: 0 }, 307),
        "pinned 10 file(s), skipped 2 (already local), 307 dir metadata blob(s)"
    );
    assert_eq!(pin::size_line(18446744073709551615), "total content size: 18446744073709551615 bytes");
    assert_eq!(pin::size_line(0), "total content size: 0 bytes");
}

#[test]
fn current_directory_means_the_label() {
    assert!(pin::restores_into_label("."));
    assert!(!pin::restores_into_label("./"));
    assert!(!pin::restores_into_label("photos"));
}

#[test]
fn mounted_roots_are_read_from_what_is_near_first() {
    let peer = |b: u8| PeerAddr { id: [b; 32], paths: Vec::new() };
    let sources = pin::mount_sources(
        &vec![false, true, false, true],
        &vec![peer(1), peer(2), peer(3)],
        &[2; 32],
    );
    assert_eq!(
        sources,
        vec![
            MountSource::MountMeta,
            MountSource::LocalMeta,
            MountSource::Configured(1),
            MountSource::Configured(3),
            MountSource::Peer(peer(1)),
            MountSource::Peer(peer(3)),
        ]
    );
}

#[test]
fn temporary_directories() {
    assert_eq!(pin::pin_dir("00ff"), vec!["s5-group-pin", "00ff"]);
    assert_eq!(pin::mount_dir("00ff", "photos"), vec!["s5-group-mount", "00ff", "photos"]);
}

#[test]
fn peers_have_no_access_by_default() {
    let c = PeerConfigBlobs::default();
    assert!(c.readable_stores.is_empty());
    assert_eq!(c.store_uploads_in, None);
    assert!(!c.skip_pin_check);
}
