//! The process supervisor's decision logic: how the backend launch target
//! is resolved, when a polled backend counts as ready, and the bookkeeping
//! of the one owned process handle.
//!
//! The supervisor's outside work — probing the file system, spawning the
//! process, issuing health requests, sleeping between polls — is performed
//! by the host around this module; every decision about those observations
//! is made and proved here.

use vstd::prelude::*;

use crate::{is_success_status, spec_success_status};

verus! {

/// How often the health endpoint is polled, in milliseconds.
pub const HEALTH_POLL_INTERVAL_MS: u64 = 500;

/// How many health polls are attempted before `start` gives up.
pub const MAX_HEALTH_ATTEMPTS: u32 = 60;

/// Why resolving a launch target failed.
#[derive(Clone, Copy, PartialEq, Eq, Structural, Debug)]
pub enum ResolutionFailure {
    /// No bundled executable and no development-mode script was found.
    ScriptNotFound,
    /// A script was found but no working interpreter for it.
    InterpreterNotFound,
}

/// The failures `start` can report.
#[derive(Clone, Copy, PartialEq, Eq, Structural, Debug)]
pub enum SupervisorError {
    /// No usable launch target was found.
    ResolutionError(ResolutionFailure),
    /// The operating system refused to create the process.
    SpawnError,
    /// The process never became healthy within the attempt budget.
    HealthTimeoutError,
}

/// Model of one probe: a candidate's name or path, and whether probing it
/// succeeded (the file exists, or the interpreter ran).
#[verifier::ext_equal]
pub struct ProbeModel {
    pub name: Seq<char>,
    pub ok: bool,
}

/// One probed launch candidate.
#[derive(Debug, Clone)]
pub struct Probe {
    pub name: String,
    pub ok: bool,
}

impl DeepView for Probe {
    type V = ProbeModel;

    open spec fn deep_view(&self) -> ProbeModel {
        ProbeModel { name: self.name@, ok: self.ok }
    }
}

/// Model of a resolved launch mode.
#[verifier::ext_equal]
pub enum ModeModel {
    Bundled { path: Seq<char> },
    Python { interpreter: Seq<char>, script: Seq<char> },
}

/// How the backend is launched: a bundled standalone executable, or an
/// interpreter and a development-mode script.
#[derive(Debug, Clone)]
pub enum SidecarMode {
    Bundled { path: String },
    Python { interpreter: String, script: String },
}

impl DeepView for SidecarMode {
    type V = ModeModel;

    open spec fn deep_view(&self) -> ModeModel {
        match self {
            SidecarMode::Bundled { path } => ModeModel::Bundled { path: path@ },
            SidecarMode::Python { interpreter, script } => ModeModel::Python {
                interpreter: interpreter@,
                script: script@,
            },
        }
    }
}

/// The index of the first successful probe, if any.
pub open spec fn first_ok(ps: Seq<ProbeModel>) -> Option<int>
    decreases ps.len(),
{
    if ps.len() == 0 {
        None
    } else if ps[0].ok {
        Some(0)
    } else {
        match first_ok(ps.skip(1)) {
            Some(i) => Some(i + 1),
            None => None,
        }
    }
}

/// A successful probe that nothing precedes is what `first_ok` returns.
proof fn lemma_first_ok_at(ps: Seq<ProbeModel>, i: int)
    requires
        0 <= i < ps.len(),
        ps[i].ok,
        forall|j: int| 0 <= j < i ==> !ps[j].ok,
    ensures
        first_ok(ps) == Some(i),
    decreases i,
{
    if i == 0 {
    } else {
        let t = ps.skip(1);
        assert(t[i - 1] == ps[i]);
        assert forall|j: int| 0 <= j < i - 1 implies !t[j].ok by {
            assert(t[j] == ps[j + 1]);
        }
        lemma_first_ok_at(t, i - 1);
    }
}

/// When every probe failed, `first_ok` reports none.
proof fn lemma_first_ok_none(ps: Seq<ProbeModel>)
    requires
        forall|j: int| 0 <= j < ps.len() ==> !ps[j].ok,
    ensures
        first_ok(ps) == None::<int>,
    decreases ps.len(),
{
    if ps.len() == 0 {
    } else {
        let t = ps.skip(1);
        assert forall|j: int| 0 <= j < t.len() implies !t[j].ok by {
            assert(t[j] == ps[j + 1]);
        }
        lemma_first_ok_none(t);
    }
}

/// Finds the first successful probe in a candidate list.
fn first_ok_exec(ps: &Vec<Probe>) -> (r: Option<usize>)
    ensures
        match r {
            Some(i) => 0 <= i < ps@.len() && first_ok(ps.deep_view()) == Some(i as int),
            None => first_ok(ps.deep_view()) == None::<int>,
        },
{
    let n = ps.len();
    let mut i: usize = 0;
    while i < n
        invariant
            n == ps@.len(),
            0 <= i <= n,
            forall|j: int| 0 <= j < i ==> !(#[trigger] ps.deep_view()[j]).ok,
        decreases n - i,
    {
        if ps[i].ok {
            proof {
                assert(ps.deep_view()[i as int].ok);
                lemma_first_ok_at(ps.deep_view(), i as int);
            }
            return Some(i);
        }
        proof {
            assert(!ps.deep_view()[i as int].ok);
        }
        i += 1;
    }
    proof {
        lemma_first_ok_none(ps.deep_view());
    }
    None
}

/// What resolution decides, given the three probe lists: the first existing
/// bundled executable wins; otherwise the first existing script is paired
/// with the first working interpreter; each missing stage is its own error.
pub open spec fn resolution_model(
    bundled: Seq<ProbeModel>,
    scripts: Seq<ProbeModel>,
    interpreters: Seq<ProbeModel>,
) -> Result<ModeModel, SupervisorError> {
    match first_ok(bundled) {
        Some(i) => Ok(ModeModel::Bundled { path: bundled[i].name }),
        None => match first_ok(scripts) {
            None => Err(SupervisorError::ResolutionError(ResolutionFailure::ScriptNotFound)),
            Some(j) => match first_ok(interpreters) {
                None => Err(
                    SupervisorError::ResolutionError(ResolutionFailure::InterpreterNotFound),
                ),
                Some(k) => Ok(
                    ModeModel::Python {
                        interpreter: interpreters[k].name,
                        script: scripts[j].name,
                    },
                ),
            },
        },
    }
}

/// Resolves the launch mode from probed candidates, exactly as
/// [`resolution_model`] states: bundled executables take precedence, in
/// order; then the first found script with the first working interpreter.
pub fn resolve_launch(
    bundled: &Vec<Probe>,
    scripts: &Vec<Probe>,
    interpreters: &Vec<Probe>,
) -> (r: Result<SidecarMode, SupervisorError>)
    ensures
        ({
            let model = resolution_model(
                bundled.deep_view(),
                scripts.deep_view(),
                interpreters.deep_view(),
            );
            match r {
                Ok(mode) => model == Ok::<ModeModel, SupervisorError>(mode.deep_view()),
                Err(e) => model == Err::<ModeModel, SupervisorError>(e),
            }
        }),
{
    match first_ok_exec(bundled) {
        Some(i) => Ok(SidecarMode::Bundled { path: bundled[i].name.clone() }),
        None => match first_ok_exec(scripts) {
            None => Err(SupervisorError::ResolutionError(ResolutionFailure::ScriptNotFound)),
            Some(j) => match first_ok_exec(interpreters) {
                None => Err(
                    SupervisorError::ResolutionError(ResolutionFailure::InterpreterNotFound),
                ),
                Some(k) => Ok(
                    SidecarMode::Python {
                        interpreter: interpreters[k].name.clone(),
                        script: scripts[j].name.clone(),
                    },
                ),
            },
        },
    }
}

/// The outcome of one health poll, as the host observed it: an HTTP
/// response with its status code, or a failure to connect at all.
#[derive(Clone, Copy, PartialEq, Eq, Structural, Debug)]
pub enum PollOutcome {
    Response { status: u16 },
    ConnectFailed,
}

/// Whether one poll outcome proves the backend healthy: any 2xx response.
/// A connection failure and a non-2xx response count the same, as not yet
/// ready.
pub open spec fn outcome_healthy(o: PollOutcome) -> bool {
    match o {
        PollOutcome::Response { status } => spec_success_status(status),
        PollOutcome::ConnectFailed => false,
    }
}

/// What the poll loop decides after one more observation.
#[derive(Clone, Copy, PartialEq, Eq, Structural, Debug)]
pub enum PollVerdict {
    /// The backend answered with a success status: `start` succeeds now.
    Healthy,
    /// Not ready yet and budget remains: wait one interval and poll again.
    Retry,
    /// The attempt budget is spent: `start` fails with a health timeout.
    TimedOut,
}

/// The readiness-polling state machine: counts the attempts made against
/// the fixed budget.
pub struct StartAttempt {
    attempts: u32,
}

impl StartAttempt {
    /// How many polls this attempt has consumed.
    pub closed spec fn attempts_made(&self) -> u32 {
        self.attempts
    }

    /// A fresh readiness check with the whole budget ahead of it.
    pub fn new() -> (r: Self)
        ensures
            r.attempts_made() == 0,
    {
        StartAttempt { attempts: 0 }
    }

    /// Judges one poll outcome: healthy on any success status, a retry
    /// while budget remains, a timeout on the last failed attempt.
    pub fn observe(&mut self, outcome: PollOutcome) -> (v: PollVerdict)
        requires
            old(self).attempts_made() < MAX_HEALTH_ATTEMPTS,
        ensures
            final(self).attempts_made() == old(self).attempts_made() + 1,
            (v == PollVerdict::Healthy) == outcome_healthy(outcome),
            (v == PollVerdict::TimedOut) == (!outcome_healthy(outcome) && old(self).attempts_made()
                + 1 == MAX_HEALTH_ATTEMPTS),
            (v == PollVerdict::Retry) == (!outcome_healthy(outcome) && old(self).attempts_made()
                + 1 < MAX_HEALTH_ATTEMPTS),
    {
        self.attempts = self.attempts + 1;
        let healthy = match outcome {
            PollOutcome::Response { status } => is_success_status(status),
            PollOutcome::ConnectFailed => false,
        };
        if healthy {
            PollVerdict::Healthy
        } else if self.attempts < MAX_HEALTH_ATTEMPTS {
            PollVerdict::Retry
        } else {
            PollVerdict::TimedOut
        }
    }
}

/// What polling decides over a whole run: the verdict reached by judging
/// the outcomes in order with the given budget of attempts.
pub open spec fn run_polls(outcomes: Seq<PollOutcome>, budget: nat) -> PollVerdict
    decreases budget,
{
    if budget == 0 {
        PollVerdict::TimedOut
    } else if outcomes.len() == 0 {
        PollVerdict::TimedOut
    } else if outcome_healthy(outcomes[0]) {
        PollVerdict::Healthy
    } else {
        run_polls(outcomes.skip(1), (budget - 1) as nat)
    }
}

/// Law: a readiness check succeeds exactly when some poll within the
/// attempt budget observes a healthy backend — the budget's boundary is
/// inclusive — and otherwise it times out; polling never ends undecided.
pub proof fn lemma_health_budget(outcomes: Seq<PollOutcome>, budget: nat)
    ensures
        (run_polls(outcomes, budget) == PollVerdict::Healthy) == (exists|i: int|
            0 <= i < budget && i < outcomes.len() && outcome_healthy(#[trigger] outcomes[i])),
        run_polls(outcomes, budget) != PollVerdict::Retry,
    decreases budget,
{
    if budget == 0 || outcomes.len() == 0 {
    } else if outcome_healthy(outcomes[0]) {
        assert(0 <= 0 < budget && 0 < outcomes.len() && outcome_healthy(outcomes[0]));
    } else {
        let t = outcomes.skip(1);
        lemma_health_budget(t, (budget - 1) as nat);
        if run_polls(t, (budget - 1) as nat) == PollVerdict::Healthy {
            let i = choose|i: int|
                0 <= i < budget - 1 && i < t.len() && outcome_healthy(#[trigger] t[i]);
            assert(t[i] == outcomes[i + 1]);
            assert(outcome_healthy(outcomes[i + 1]));
        } else {
            if exists|i: int|
                0 <= i < budget && i < outcomes.len() && outcome_healthy(#[trigger] outcomes[i]) {
                let i = choose|i: int|
                    0 <= i < budget && i < outcomes.len() && outcome_healthy(
                        #[trigger] outcomes[i],
                    );
                assert(i != 0);
                assert(t[i - 1] == outcomes[i]);
                assert(0 <= i - 1 < budget - 1 && i - 1 < t.len() && outcome_healthy(t[i - 1]));
                assert(false);
            }
        }
    }
}

/// Judges a recorded sequence of poll outcomes with the fixed budget, by
/// running the attempt machine over it: the machine reaches exactly the
/// verdict that [`run_polls`] states.
pub fn drive_polls(outcomes: &Vec<PollOutcome>) -> (v: PollVerdict)
    ensures
        v == run_polls(outcomes@, MAX_HEALTH_ATTEMPTS as nat),
{
    let mut att = StartAttempt::new();
    let n = outcomes.len();
    let mut i: usize = 0;
    proof {
        assert(outcomes@.skip(0) =~= outcomes@);
    }
    while i < n
        invariant
            n == outcomes@.len(),
            0 <= i <= n,
            i < MAX_HEALTH_ATTEMPTS,
            att.attempts_made() == i,
            run_polls(outcomes@, MAX_HEALTH_ATTEMPTS as nat) == run_polls(
                outcomes@.skip(i as int),
                (MAX_HEALTH_ATTEMPTS - i) as nat,
            ),
        decreases n - i,
    {
        let o = outcomes[i];
        let v = att.observe(o);
        proof {
            assert(outcomes@.skip(i as int)[0] == outcomes@[i as int]);
            assert(outcomes@.skip(i as int).skip(1) =~= outcomes@.skip(i as int + 1));
        }
        match v {
            PollVerdict::Healthy => {
                return PollVerdict::Healthy;
            },
            PollVerdict::TimedOut => {
                proof {
                    assert(run_polls(outcomes@.skip(i as int + 1), 0) == PollVerdict::TimedOut);
                }
                return PollVerdict::TimedOut;
            },
            PollVerdict::Retry => {
                i += 1;
            },
        }
    }
    proof {
        assert(outcomes@.skip(i as int).len() == 0);
    }
    PollVerdict::TimedOut
}

/// The supervisor's record of its one owned backend process: the host's
/// identifier for the running child, if one was spawned.
pub struct SidecarManager {
    process: Option<u64>,
}

impl SidecarManager {
    /// The recorded process handle.
    pub closed spec fn handle(&self) -> Option<u64> {
        self.process
    }

    /// A supervisor that owns no process.
    pub fn new() -> (r: Self)
        ensures
            r.handle() == None::<u64>,
    {
        SidecarManager { process: None }
    }

    /// Records the process the host spawned for this supervisor.
    pub fn record_spawn(&mut self, id: u64)
        requires
            old(self).handle() == None::<u64>,
        ensures
            final(self).handle() == Some(id),
    {
        self.process = Some(id);
    }

    /// Whether a process is recorded as owned.
    pub fn is_running(&self) -> (r: bool)
        ensures
            r == (self.handle() is Some),
    {
        self.process.is_some()
    }

    /// Clears the process record and hands back the handle to reap, if any.
    ///
    /// Idempotent and total: with no process recorded it is a no-op that
    /// returns nothing, and a second call in a row always returns nothing —
    /// the handle is cleared no matter what.
    pub fn stop(&mut self) -> (r: Option<u64>)
        ensures
            final(self).handle() == None::<u64>,
            r == old(self).handle(),
    {
        let r = self.process;
        self.process = None;
        r
    }
}

} // verus!
