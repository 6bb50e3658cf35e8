use ytmp3::state::JobState;
use ytmp3::state::Phase;
use ytmp3::state::Requirements;
use ytmp3::state::Status;

#[test]
fn initial_state_is_idle_and_unlocked() {
    let s = JobState::new();
    assert_eq!(s.phase, Phase::Idle);
    assert_eq!(s.progress, 0);
    assert_eq!(s.status, Status::Empty);
    assert!(!s.active);
    assert!(!s.in_extract);
}

#[test]
fn end_to_end_successful_job() {
    let mut s = JobState::new();
    assert!(s.try_start(false));
    assert_eq!(s.phase, Phase::Fetching);
    assert!(s.active);

    s.apply_line(b"[youtube] extracting info".as_slice());
    assert_eq!(s.phase, Phase::Fetching);
    assert_eq!(s.status, Status::FetchingInfo);

    s.apply_line(b"[download]  10.0%".as_slice());
    assert_eq!(s.phase, Phase::Downloading);
    assert_eq!(s.progress, 100);

    s.apply_line(b"[download]  55.0%".as_slice());
    assert_eq!(s.phase, Phase::Downloading);
    assert_eq!(s.progress, 550);

    s.apply_line(b"[ExtractAudio] destination set".as_slice());
    assert_eq!(s.phase, Phase::Converting);
    assert_eq!(s.progress, 500);
    assert!(s.in_extract);

    s.apply_line(b"Deleting original file".as_slice());
    assert_eq!(s.phase, Phase::Converting);
    assert_eq!(s.progress, 900);
    assert_eq!(s.status, Status::Finishing);

    s.finish_success();
    assert_eq!(s.phase, Phase::Done);
    assert_eq!(s.progress, 1000);
    assert_eq!(s.status, Status::Complete);
    assert!(!s.active);
}

#[test]
fn extract_latch_holds_against_later_progress() {
    let mut s = JobState::new();
    assert!(s.try_start(false));
    s.apply_line(b"[ExtractAudio] Destination".as_slice());
    assert_eq!(s.phase, Phase::Converting);

    s.apply_line(b"[download] 80.0%".as_slice());
    assert_eq!(s.phase, Phase::Converting);
    assert_eq!(s.progress, 500);

    s.apply_line(b"[youtube] tag again".as_slice());
    assert_eq!(s.phase, Phase::Converting);

    s.apply_line(b"[info] more info".as_slice());
    assert_eq!(s.phase, Phase::Converting);
    assert_eq!(s.status, Status::Converting);
}

#[test]
fn second_start_while_active_leaves_job_untouched() {
    let mut s = JobState::new();
    assert!(s.try_start(false));
    s.apply_line(b"[download] 42%".as_slice());
    let before = s;
    assert!(!s.try_start(false));
    assert_eq!(s.phase, before.phase);
    assert_eq!(s.progress, before.progress);
    assert_eq!(s.active, before.active);
    assert_eq!(s.in_extract, before.in_extract);
    assert_eq!(s.status, Status::AlreadyRunning);
}

#[test]
fn blank_url_is_rejected() {
    let mut s = JobState::new();
    assert!(!s.try_start(true));
    assert_eq!(s.status, Status::EnterUrl);
    assert_eq!(s.phase, Phase::Idle);
    assert!(!s.active);
}

#[test]
fn lock_released_after_failure() {
    let mut s = JobState::new();
    assert!(s.try_start(false));
    s.finish_failure();
    assert!(!s.active);
    assert_eq!(s.phase, Phase::Idle);
    assert_eq!(s.status, Status::Failed);
}

#[test]
fn lock_released_after_run_error() {
    let mut s = JobState::new();
    assert!(s.try_start(false));
    s.finish_run_error();
    assert!(!s.active);
    assert_eq!(s.phase, Phase::Idle);
    assert_eq!(s.status, Status::Error);
}

#[test]
fn spawn_error_not_found_is_distinct_and_releases_lock() {
    let mut s = JobState::new();
    assert!(s.try_start(false));
    s.finish_spawn_error(true);
    assert_eq!(s.status, Status::ToolNotFound);
    assert_eq!(s.phase, Phase::Idle);
    assert!(!s.active);

    let mut t = JobState::new();
    assert!(t.try_start(false));
    t.finish_spawn_error(false);
    assert_eq!(t.status, Status::Error);
    assert!(!t.active);
}

#[test]
fn restart_after_terminal_outcome() {
    let mut s = JobState::new();
    assert!(s.try_start(false));
    s.finish_failure();
    assert!(s.try_start(false));
    assert_eq!(s.phase, Phase::Fetching);
    assert_eq!(s.progress, 0);
    assert!(s.active);
    assert!(!s.in_extract);
}

#[test]
fn requirements_combine_probes() {
    let r = Requirements::check(true, false, true, true);
    assert!(r.python);
    assert!(r.ytdlp);
    assert!(r.ffmpeg);
    assert!(r.all_ok());

    let r = Requirements::check(true, true, false, true);
    assert!(r.ytdlp);
    assert!(r.all_ok());

    let r = Requirements::check(true, false, false, true);
    assert!(!r.ytdlp);
    assert!(!r.all_ok());

    let r = Requirements::check(false, true, true, true);
    assert!(!r.all_ok());
}
