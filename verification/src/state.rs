//! Phase state of a job, driven by classified output lines, and the
//! decisions of the process supervisor: starting a job, applying each output
//! line, and recording the terminal outcome.
//!
//! Progress is a fraction in permille (`0` to `1000` for `0.0` to `1.0`);
//! a parsed percentage of `45.2%` arrives as `452`.
use vstd::prelude::*;

use crate::classify::classify;
use crate::classify::classify_of;
use crate::classify::LineClass;

verus! {

/// Coarse stage of a job's lifecycle.
#[derive(Clone, Copy, PartialEq, Eq, Structural, Debug)]
pub enum Phase {
    Idle,
    Fetching,
    Downloading,
    Extracting,
    Converting,
    Done,
}

/// The latest status report, overwritten on every update; the presentation
/// layer renders it as text.
#[derive(Clone, Copy, PartialEq, Eq, Structural, Debug)]
pub enum Status {
    /// Nothing has been reported yet.
    Empty,
    /// Pre-flight rejection: the URL was empty or blank.
    EnterUrl,
    /// Pre-flight rejection: a job is already running.
    AlreadyRunning,
    /// A job was accepted and is starting.
    Starting,
    /// Downloading, with the current progress in permille.
    Downloading(u64),
    /// Fetching video information.
    FetchingInfo,
    /// Preparing the download.
    PreparingDownload,
    /// Converting the downloaded audio.
    Converting,
    /// Cleaning up intermediate files.
    Finishing,
    /// The job finished successfully.
    Complete,
    /// The external process exited with a failure.
    Failed,
    /// A generic OS error while running or waiting for the process.
    Error,
    /// The external tool could not be found at spawn time.
    ToolNotFound,
}

/// Shared state of the one running job (or of no job at all).
#[derive(Clone, Copy, PartialEq, Eq, Structural, Debug)]
pub struct JobState {
    /// Current phase of the job.
    pub phase: Phase,
    /// Progress fraction in permille (may exceed 1000 if the tool reports
    /// an overshooting percentage).
    pub progress: u64,
    /// Latest status report.
    pub status: Status,
    /// The job lock: true while a job runs; at most one job is active.
    pub active: bool,
    /// One-way latch: the extraction stage has been observed.
    pub in_extract: bool,
}

/// The state every session begins in: idle, no progress, nothing reported,
/// no job active.
pub open spec fn initial_state() -> JobState {
    JobState {
        phase: Phase::Idle,
        progress: 0,
        status: Status::Empty,
        active: false,
        in_extract: false,
    }
}

/// Effect of one classified output line on the job state: progress drives
/// the download phase unless extraction has latched; the extraction marker
/// latches and moves to converting at the halfway checkpoint; fetching and
/// preparing markers are suppressed after the latch; the cleanup marker sets
/// the late checkpoint.
pub open spec fn step_spec(s: JobState, c: LineClass) -> JobState {
    match c {
        LineClass::Progress(p) => if !s.in_extract {
            JobState {
                phase: Phase::Downloading,
                progress: p,
                status: Status::Downloading(p),
                ..s
            }
        } else {
            s
        },
        LineClass::ExtractAudio => JobState {
            phase: Phase::Converting,
            progress: 500,
            status: Status::Converting,
            in_extract: true,
            ..s
        },
        LineClass::Fetching => if !s.in_extract {
            JobState { phase: Phase::Fetching, status: Status::FetchingInfo, ..s }
        } else {
            s
        },
        LineClass::Preparing => if !s.in_extract {
            JobState { status: Status::PreparingDownload, ..s }
        } else {
            s
        },
        LineClass::Finishing => JobState { status: Status::Finishing, progress: 900, ..s },
        LineClass::NoMatch => s,
    }
}

impl JobState {
    /// The state before any job has run.
    pub fn new() -> (s: Self)
        ensures
            s == initial_state(),
    {
        JobState {
            phase: Phase::Idle,
            progress: 0,
            status: Status::Empty,
            active: false,
            in_extract: false,
        }
    }

    /// Tries to start a job. A second job while one is active is rejected:
    /// the running job's phase, progress and lock are untouched and only the
    /// status reports the rejection. A blank URL is rejected with a status
    /// message and no job starts. Otherwise the job lock is taken and the
    /// job begins fetching.
    pub fn try_start(&mut self, url_blank: bool) -> (started: bool)
        ensures
            old(self).active ==> !started && *final(self) == (JobState {
                status: Status::AlreadyRunning,
                ..*old(self)
            }),
            !old(self).active && url_blank ==> !started && *final(self) == (JobState {
                status: Status::EnterUrl,
                ..*old(self)
            }),
            !old(self).active && !url_blank ==> started && *final(self) == (JobState {
                phase: Phase::Fetching,
                progress: 0,
                status: Status::Starting,
                active: true,
                in_extract: false,
            }),
    {
        if self.active {
            self.status = Status::AlreadyRunning;
            return false;
        }
        if url_blank {
            self.status = Status::EnterUrl;
            return false;
        }
        self.phase = Phase::Fetching;
        self.progress = 0;
        self.status = Status::Starting;
        self.active = true;
        self.in_extract = false;
        true
    }

    /// Applies one line of the external process's output to the state.
    pub fn apply_line(&mut self, line: &[u8])
        ensures
            *final(self) == step_spec(*old(self), classify_of(line@, old(self).in_extract)),
    {
        let c = classify(line, self.in_extract);
        match c {
            LineClass::Progress(p) => {
                if !self.in_extract {
                    self.phase = Phase::Downloading;
                    self.progress = p;
                    self.status = Status::Downloading(p);
                }
            },
            LineClass::ExtractAudio => {
                self.in_extract = true;
                self.phase = Phase::Converting;
                self.progress = 500;
                self.status = Status::Converting;
            },
            LineClass::Fetching => {
                if !self.in_extract {
                    self.phase = Phase::Fetching;
                    self.status = Status::FetchingInfo;
                }
            },
            LineClass::Preparing => {
                if !self.in_extract {
                    self.status = Status::PreparingDownload;
                }
            },
            LineClass::Finishing => {
                self.status = Status::Finishing;
                self.progress = 900;
            },
            LineClass::NoMatch => {},
        }
    }

    /// Records a successful exit of the external process: the job is done,
    /// progress is full, and the job lock is released.
    pub fn finish_success(&mut self)
        ensures
            *final(self) == (JobState {
                phase: Phase::Done,
                progress: 1000,
                status: Status::Complete,
                active: false,
                in_extract: old(self).in_extract,
            }),
    {
        self.phase = Phase::Done;
        self.progress = 1000;
        self.status = Status::Complete;
        self.active = false;
    }

    /// Records a failing exit of the external process: the phase reverts to
    /// idle, the failure is reported, and the job lock is released.
    pub fn finish_failure(&mut self)
        ensures
            *final(self) == (JobState {
                phase: Phase::Idle,
                progress: old(self).progress,
                status: Status::Failed,
                active: false,
                in_extract: old(self).in_extract,
            }),
    {
        self.phase = Phase::Idle;
        self.status = Status::Failed;
        self.active = false;
    }

    /// Records an OS error while waiting for the external process: the phase
    /// reverts to idle, the error is reported, and the job lock is released.
    pub fn finish_run_error(&mut self)
        ensures
            *final(self) == (JobState {
                phase: Phase::Idle,
                progress: old(self).progress,
                status: Status::Error,
                active: false,
                in_extract: old(self).in_extract,
            }),
    {
        self.phase = Phase::Idle;
        self.status = Status::Error;
        self.active = false;
    }

    /// Records a failure to spawn the external process, distinguishing a
    /// missing tool from any other OS error; the phase reverts to idle and
    /// the job lock is released.
    pub fn finish_spawn_error(&mut self, not_found: bool)
        ensures
            *final(self) == (JobState {
                phase: Phase::Idle,
                progress: old(self).progress,
                status: if not_found {
                    Status::ToolNotFound
                } else {
                    Status::Error
                },
                active: false,
                in_extract: old(self).in_extract,
            }),
    {
        self.phase = Phase::Idle;
        if not_found {
            self.status = Status::ToolNotFound;
        } else {
            self.status = Status::Error;
        }
        self.active = false;
    }
}

/// The extraction marker latches: from any state it leaves the job
/// converting with the latch set.
pub proof fn lemma_extract_establishes_latch(s: JobState)
    ensures
        step_spec(s, LineClass::ExtractAudio).in_extract,
        step_spec(s, LineClass::ExtractAudio).phase == Phase::Converting,
{
}

/// Once extraction has latched and the phase is converting, no classified
/// line — in particular no later progress value — moves the phase away from
/// converting or releases the latch, for the rest of the job.
pub proof fn lemma_extract_latch(s: JobState, c: LineClass)
    requires
        s.in_extract,
        s.phase == Phase::Converting,
    ensures
        step_spec(s, c).in_extract,
        step_spec(s, c).phase == Phase::Converting,
{
}

/// Shortens a long destination path for display: a path of more than 40
/// bytes is replaced by `...` and its last 37 bytes.
pub fn display_path(folder: &[u8]) -> (r: Vec<u8>)
    ensures
        folder@.len() <= 40 ==> r@ == folder@,
        folder@.len() > 40 ==> r@ == seq![46u8, 46, 46] + folder@.subrange(
            folder@.len() - 37,
            folder@.len() as int,
        ),
{
    let n = folder.len();
    let mut r: Vec<u8> = Vec::new();
    let mut q: usize = 0;
    if n > 40 {
        r.push(46);
        r.push(46);
        r.push(46);
        q = n - 37;
    }
    proof {
        if n > 40 {
            assert(r@ =~= seq![46u8, 46, 46] + folder@.subrange(n - 37, n - 37));
        } else {
            assert(r@ =~= folder@.subrange(0, 0));
        }
    }
    while q < n
        invariant
            n == folder@.len(),
            q <= n,
            n > 40 ==> q >= n - 37 && r@ == seq![46u8, 46, 46] + folder@.subrange(
                n - 37,
                q as int,
            ),
            n <= 40 ==> r@ == folder@.subrange(0, q as int),
        decreases n - q,
    {
        proof {
            if n > 40 {
                assert(seq![46u8, 46, 46] + folder@.subrange(n - 37, q + 1) =~= (
                seq![46u8, 46, 46] + folder@.subrange(n - 37, q as int)).push(folder@[q as int]));
            } else {
                assert(folder@.subrange(0, q + 1) =~= folder@.subrange(0, q as int).push(
                    folder@[q as int],
                ));
            }
        }
        r.push(folder[q]);
        q = q + 1;
    }
    proof {
        if n <= 40 {
            assert(folder@.subrange(0, n as int) =~= folder@);
        }
    }
    r
}

/// External tools the job relies on; each flag reports one probe.
#[derive(Clone, Copy, PartialEq, Eq, Structural, Debug)]
pub struct Requirements {
    /// The interpreter that drives the pipeline is present.
    pub python: bool,
    /// The downloader is importable or callable.
    pub ytdlp: bool,
    /// The media converter is present.
    pub ffmpeg: bool,
}

impl Requirements {
    /// Combines the raw probe outcomes: the downloader counts as present if
    /// it can be imported by the interpreter or invoked on its own.
    pub fn check(python_ok: bool, ytdlp_import_ok: bool, ytdlp_cli_ok: bool, ffmpeg_ok: bool) -> (r: Self)
        ensures
            r.python == python_ok,
            r.ytdlp == (ytdlp_import_ok || ytdlp_cli_ok),
            r.ffmpeg == ffmpeg_ok,
    {
        Requirements {
            python: python_ok,
            ytdlp: ytdlp_import_ok || ytdlp_cli_ok,
            ffmpeg: ffmpeg_ok,
        }
    }

    /// All required tools are present.
    pub fn all_ok(&self) -> (r: bool)
        ensures
            r == (self.python && self.ytdlp && self.ffmpeg),
    {
        self.python && self.ytdlp && self.ffmpeg
    }
}

} // verus!
