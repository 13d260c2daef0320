use rssget::download::{DownloadError, ProgressTracker, replay_transfer};

#[test]
fn transfer_of_declared_length_succeeds() {
    let chunks = vec![40u64, 40u64, 20u64];
    assert_eq!(replay_transfer(Some(100), &chunks), Ok(100));
}

#[test]
fn transfer_without_length_fails_before_any_byte() {
    let chunks = vec![10u64];
    assert_eq!(replay_transfer(None, &chunks), Err(DownloadError::MissingLength));
}

#[test]
fn interrupted_transfer_is_incomplete() {
    let chunks = vec![30u64, 20u64];
    assert_eq!(replay_transfer(Some(100), &chunks), Err(DownloadError::Incomplete));
}

#[test]
fn oversized_transfer_is_an_overrun() {
    let chunks = vec![8u64, 8u64];
    assert_eq!(replay_transfer(Some(10), &chunks), Err(DownloadError::Overrun));
}

#[test]
fn empty_transfer_of_zero_length_succeeds() {
    let chunks: Vec<u64> = Vec::new();
    assert_eq!(replay_transfer(Some(0), &chunks), Ok(0));
}

#[test]
fn tracker_refuses_missing_length() {
    assert!(matches!(
        ProgressTracker::new(None),
        Err(DownloadError::MissingLength)
    ));
}

#[test]
fn tracker_emits_only_after_ten_points() {
    let mut t = ProgressTracker::new(Some(100)).unwrap();
    assert_eq!(t.record_chunk(5), Ok(None));
    assert_eq!(t.record_chunk(6), Ok(Some(11)));
    assert_eq!(t.record_chunk(10), Ok(None));
    assert_eq!(t.record_chunk(1), Ok(Some(22)));
    assert_eq!(t.record_chunk(78), Ok(Some(100)));
    assert_eq!(t.finish(), Ok(()));
}

#[test]
fn tracker_counts_every_chunk() {
    let mut t = ProgressTracker::new(Some(50)).unwrap();
    let _ = t.record_chunk(20).unwrap();
    let _ = t.record_chunk(30).unwrap();
    assert_eq!(t.downloaded, 50);
    assert_eq!(t.finish(), Ok(()));
}

#[test]
fn tracker_rejects_overrun_and_keeps_state() {
    let mut t = ProgressTracker::new(Some(10)).unwrap();
    let _ = t.record_chunk(4).unwrap();
    assert_eq!(t.record_chunk(7), Err(DownloadError::Overrun));
    assert_eq!(t.downloaded, 4);
    assert_eq!(t.finish(), Err(DownloadError::Incomplete));
}

#[test]
fn zero_length_download_is_complete_at_once() {
    let mut t = ProgressTracker::new(Some(0)).unwrap();
    assert_eq!(t.finish(), Ok(()));
    assert_eq!(t.record_chunk(0), Ok(Some(100)));
}
