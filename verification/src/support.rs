//! What end-to-end tests share: where a test keeps its files, and waiting for a
//! path to appear.

use crate::path::{join, joined};
use vstd::prelude::*;

verus! {

/// The models of a test: one of a provider that nobody can reach.
pub const TEST_MODELS: &'static str =
    "{ providers: { \"test\": { auth: \"none\", models: [{ id: \"echo\" }] } } }";

/// How long to sleep between two looks at a path, in milliseconds.
pub const POLL_MILLIS: u64 = 10;

/// Where a test keeps its files.
#[derive(Clone, Debug)]
pub struct TestRuntime {
    pub socket_path: String,
    pub session_store_path: String,
    pub policy_store_path: String,
    pub config_dir: String,
    pub state_dir: String,
    pub models_path: String,
}

impl TestRuntime {
    /// Where a test keeps its files, below a directory of its own.
    pub fn new(tempdir: &str) -> (r: Self)
        ensures
            r.socket_path@ == joined(tempdir@, "daemon.sock"@),
            r.session_store_path@ == joined(tempdir@, "sessions.cbor"@),
            r.policy_store_path@ == joined(tempdir@, "policy.cbor"@),
            r.config_dir@ == joined(tempdir@, "config"@),
            r.state_dir@ == joined(tempdir@, "state"@),
            r.models_path@ == joined(joined(tempdir@, "config"@), "models.json5"@),
    {
        let config_dir = join(tempdir, "config");
        let models_path = join(config_dir.as_str(), "models.json5");
        TestRuntime {
            socket_path: join(tempdir, "daemon.sock"),
            session_store_path: join(tempdir, "sessions.cbor"),
            policy_store_path: join(tempdir, "policy.cbor"),
            config_dir,
            state_dir: join(tempdir, "state"),
            models_path,
        }
    }
}

/// What to do while waiting for a path.
#[derive(Clone, Copy, Debug, PartialEq, Eq, Structural)]
pub enum WaitStep {
    /// The path is there.
    Ready,
    /// The time is over.
    GiveUp,
    /// Look again after so many milliseconds.
    Sleep(u64),
}

/// What to do while waiting for a path, given whether it is there and how many
/// nanoseconds have passed. A path that is there is never too late.
pub fn wait_for_path(present: bool, elapsed: u128, timeout: u128) -> (step: WaitStep)
    ensures
        step == if present {
            WaitStep::Ready
        } else if timeout <= elapsed {
            WaitStep::GiveUp
        } else {
            WaitStep::Sleep(POLL_MILLIS)
        },
{
    if present {
        WaitStep::Ready
    } else if timeout <= elapsed {
        WaitStep::GiveUp
    } else {
        WaitStep::Sleep(POLL_MILLIS)
    }
}

/// Why waiting ended without the path.
#[derive(Clone, Debug)]
pub enum WaitError {
    /// The time is over; the timeout is given as it is shown.
    Timeout { path: String, timeout: String },
}

impl WaitError {
    /// What the error says.
    pub fn message(&self) -> (s: String)
        ensures
            match *self {
                WaitError::Timeout { path, timeout } => s@ == "timed out waiting for path "@ + path@
                    + " after "@ + timeout@,
            },
    {
        match self {
            WaitError::Timeout { path, timeout } => {
                let mut s = "timed out waiting for path ".to_owned();
                s.append(path.as_str());
                s.append(" after ");
                s.append(timeout.as_str());
                s
            },
        }
    }
}

} // verus!
