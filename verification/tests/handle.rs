use zenith::error::{AssetError, ErrorKind};
use zenith::handle::{AssetId, CpuRetention, LoadState, Published, Revision, SlotState};

#[test]
fn revisions_advance_only_when_the_stamp_changes() {
    let mut slot = SlotState::new();
    assert!(matches!(slot.load_state(), LoadState::Loading));
    assert!(slot.begin(false));
    assert!(!slot.begin(false));
    let first = slot.publish(10, b"a".to_vec(), vec![AssetId { server: 1, slot: 2 }]);
    assert_eq!(first.revision, Revision(1));
    assert!(first.changed);
    assert_eq!(first.retired_value, None);
    assert!(matches!(slot.load_state(), LoadState::Ready { revision: Revision(1) }));
    assert!(!slot.begin(false));
    assert!(slot.begin(true));
    let same = slot.publish(11, b"a".to_vec(), vec![]);
    assert_eq!(same.revision, Revision(1));
    assert!(!same.changed);
    assert_eq!(slot.value, Some(Published { revision: Revision(1), token: 10 }));
    assert_eq!(slot.dependencies, vec![AssetId { server: 1, slot: 2 }]);
    assert!(slot.begin(true));
    let next = slot.publish(12, b"b".to_vec(), vec![]);
    assert_eq!(next.revision, Revision(2));
    assert_eq!(next.retired_value, Some(10));
    assert_eq!(next.retired_dependencies, vec![AssetId { server: 1, slot: 2 }]);
    assert_eq!(slot.settled().unwrap(), 12);
}

#[test]
fn release_needs_the_current_snapshot_and_keeps_the_revision() {
    let mut slot = SlotState::new();
    slot.begin(false);
    slot.publish(5, b"s".to_vec(), vec![]);
    assert!(!slot.release(CpuRetention::Keep, Revision(1), 5));
    assert!(!slot.release(CpuRetention::ReleaseAfterUpload, Revision(1), 6));
    assert!(!slot.release(CpuRetention::ReleaseAfterUpload, Revision(2), 5));
    assert!(slot.release(CpuRetention::ReleaseAfterUpload, Revision(1), 5));
    assert!(matches!(slot.load_state(), LoadState::CpuReleased { revision: Revision(1) }));
    assert_eq!(slot.settled().unwrap_err().kind, ErrorKind::CpuReleased);
    assert!(slot.begin(false));
    let again = slot.publish(7, b"s".to_vec(), vec![]);
    assert!(!again.changed);
    assert_eq!(again.revision, Revision(1));
    assert_eq!(slot.settled().unwrap(), 7);
}

#[test]
fn failures_keep_the_last_value_and_report_the_error() {
    let mut slot = SlotState::new();
    slot.begin(false);
    slot.fail(AssetError::new(ErrorKind::MissingAsset, "gone"));
    assert!(matches!(slot.load_state(), LoadState::Failed(ref e) if e.kind == ErrorKind::MissingAsset));
    assert_eq!(slot.settled().unwrap_err().kind, ErrorKind::MissingAsset);
    assert!(slot.begin(false));
    assert!(slot.error.is_none());
    slot.finish();
    assert_eq!(slot.settled().unwrap_err().kind, ErrorKind::InvalidData);
    slot.begin(false);
    slot.publish(3, b"x".to_vec(), vec![]);
    slot.begin(true);
    assert!(matches!(slot.load_state(), LoadState::Reloading { revision: Revision(1) }));
    slot.fail(AssetError::new(ErrorKind::Import, "bad"));
    assert_eq!(slot.value, Some(Published { revision: Revision(1), token: 3 }));
    assert!(matches!(slot.load_state(), LoadState::Ready { revision: Revision(1) }));
}
