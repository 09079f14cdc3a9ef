use zenith::error::{AssetError, ErrorKind};
use zenith::handle::{LoadState, Revision};
use zenith::stream::{
    pick_staging, scene_status, staging_size, SceneStatus, StagingPool, StreamState,
    DEFAULT_STAGING_BUDGET, MIN_STAGING_BYTES,
};

#[test]
fn failures_are_recorded_once_per_revision() {
    let mut stream = StreamState::new();
    assert!(stream.fail(Some(Revision(1)), "broken".to_owned()));
    assert!(!stream.fail(Some(Revision(1)), "again".to_owned()));
    assert_eq!(stream.failure.as_ref().unwrap().1, "broken");
    assert!(stream.fail(Some(Revision(2)), "newer".to_owned()));
    assert_eq!(stream.failure.as_ref().unwrap().1, "newer");
}

#[test]
fn updates_follow_revisions_and_skip_failed_ones() {
    let ready = LoadState::Ready { revision: Revision(2) };
    let mut stream = StreamState::new();
    assert!(stream.needs_update(&ready, None, Some(Revision(2)), None));
    assert!(stream.needs_update(&ready, None, Some(Revision(2)), Some(Revision(1))));
    assert!(!stream.needs_update(&ready, None, Some(Revision(2)), Some(Revision(2))));

    let failed = LoadState::Failed(AssetError::new(ErrorKind::Import, "bad"));
    assert!(!stream.needs_update(&failed, Some("bad".to_owned()), Some(Revision(2)), None));
    assert_eq!(stream.failure, Some((Some(Revision(2)), "bad".to_owned())));
    assert!(!stream.needs_update(&ready, None, Some(Revision(2)), None));

    let loading = LoadState::Reloading { revision: Revision(2) };
    assert!(!stream.needs_update(&loading, None, Some(Revision(2)), None));
    assert!(stream.failure.is_none());
    assert!(stream.needs_update(&ready, None, Some(Revision(3)), Some(Revision(2))));
}

#[test]
fn restoration_is_tried_once() {
    let mut stream = StreamState::new();
    assert!(stream.begin_restore(Some(Revision(1))));
    stream.finish_restore(Some(Revision(1)), Ok(()));
    assert!(stream.restoring);
    assert!(!stream.begin_restore(Some(Revision(1))));
    assert_eq!(
        stream.failure.as_ref().unwrap().1,
        "required CPU data remains unavailable after restoration"
    );

    let mut unbound = StreamState::new();
    unbound.finish_restore(None, Err("no server".to_owned()));
    assert!(!unbound.restoring);
    assert_eq!(unbound.failure, Some((None, "no server".to_owned())));
}

#[test]
fn scene_status_reports_uploads_failures_and_readiness() {
    let clean = StreamState::new();
    let r = Some(Revision(4));
    assert_eq!(scene_status(true, &clean, None, r, r, false), SceneStatus::Uploading);
    assert_eq!(
        scene_status(false, &clean, None, r, r, false),
        SceneStatus::Ready { revision: Revision(4) }
    );
    assert_eq!(scene_status(false, &clean, None, r, r, true), SceneStatus::Waiting);
    assert_eq!(scene_status(false, &clean, None, Some(Revision(3)), r, false), SceneStatus::Waiting);
    assert_eq!(scene_status(false, &clean, None, None, None, false), SceneStatus::Waiting);
    assert_eq!(
        scene_status(false, &clean, Some("gone".to_owned()), r, r, false),
        SceneStatus::Failed { message: "gone".to_owned() }
    );
    let mut failed = StreamState::new();
    failed.fail(r, "upload failed".to_owned());
    assert_eq!(
        scene_status(false, &failed, Some("gone".to_owned()), r, r, false),
        SceneStatus::Failed { message: "upload failed".to_owned() }
    );
}

#[test]
fn the_staging_pool_stays_within_its_budget() {
    let mut pool = StagingPool::new();
    assert_eq!(pool.total_size(), 0);
    let mib = 1024 * 1024;
    pool.recycle(vec![64 * mib, 80 * mib, 32 * mib, 40 * mib]);
    assert_eq!(pool.total_size(), 96 * mib);
    let taken = pool.take_all();
    assert_eq!(taken, vec![64 * mib, 32 * mib]);
    assert_eq!(pool.total_size(), 0);
    pool.recycle(taken);
    pool.set_budget(90 * mib);
    assert_eq!(pool.take_all(), vec![64 * mib]);
    pool.recycle(vec![10, 20, 30]);
    pool.set_budget(35);
    assert_eq!(pool.take_all(), vec![10, 20]);
    assert!(DEFAULT_STAGING_BUDGET == 128 * mib);
}

#[test]
fn staging_reuses_the_first_buffer_that_fits() {
    let mut free = vec![8, 64, 32, 128];
    assert_eq!(pick_staging(&mut free, 30), Some(64));
    assert_eq!(free, vec![8, 128, 32]);
    assert_eq!(pick_staging(&mut free, 200), None);
    assert_eq!(free, vec![8, 128, 32]);
    assert_eq!(staging_size(1), MIN_STAGING_BYTES);
    assert_eq!(staging_size(MIN_STAGING_BYTES + 1), MIN_STAGING_BYTES + 1);
}
