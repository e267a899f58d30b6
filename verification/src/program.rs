//! The program as a whole: its commands, and the steps of a run.
use vstd::prelude::*;
use vstd::string::*;

use crate::config::{AuditConfig, RunConfig};
use crate::error::{in_context, outcome, Error};
use crate::profile::VERSION;
use crate::text;

verus! {

/// What the program can be told to do.
#[derive(Debug, Clone, Copy, PartialEq, Eq, Structural)]
pub enum Command {
    Run,
    Capabilities,
    Version,
}

/// The command that the first argument names.
pub open spec fn command_of(argument: Option<Seq<char>>) -> Result<Command, Seq<char>> {
    match argument {
        None => Err("missing command, expected 'run'"@),
        Some(name) => if name == "run"@ {
            Ok(Command::Run)
        } else if name == "capabilities"@ {
            Ok(Command::Capabilities)
        } else if name == "--version"@ || name == "version"@ {
            Ok(Command::Version)
        } else {
            Err("unknown command '"@ + name + "', expected 'run'"@)
        },
    }
}

/// Reads the command that the first argument names.
pub fn parse_command(argument: Option<&str>) -> (r: Result<Command, Error>)
    ensures
        match r {
            Ok(command) => command_of(argument.deep_view()) == Ok::<_, Seq<char>>(command),
            Err(e) => command_of(argument.deep_view()) == Err::<Command, _>(e@),
        },
{
    match argument {
        None => Err(Error::new("missing command, expected 'run'")),
        Some(name) => if text::same(name, "run") {
            Ok(Command::Run)
        } else if text::same(name, "capabilities") {
            Ok(Command::Capabilities)
        } else if text::same(name, "--version") || text::same(name, "version") {
            Ok(Command::Version)
        } else {
            Err(Error::about("unknown command '", name, "', expected 'run'"))
        },
    }
}

/// What a command prints, if it does nothing else.
pub open spec fn printed_by(command: Command) -> Option<Seq<char>> {
    match command {
        Command::Run => None,
        Command::Capabilities => Some("repo-profile-v1"@),
        Command::Version => Some("runseal "@ + VERSION@),
    }
}

impl Command {
    /// What the command prints, if it does nothing else.
    pub fn printed(self) -> (r: Option<String>)
        ensures
            r.deep_view() == printed_by(self),
    {
        match self {
            Command::Run => None,
            Command::Capabilities => Some("repo-profile-v1".to_owned()),
            Command::Version => {
                let mut line = "runseal ".to_owned();
                line.append(VERSION);
                Some(line)
            },
        }
    }
}

/// A step of a run, after its inputs have been read.
#[derive(Debug, Clone, Copy, PartialEq, Eq, Structural)]
pub enum RunStep {
    /// Seal the credentials.
    Seal,
    /// Build the generated profile.
    BuildProfile,
    /// Write the profile of the repository beside where the generated one goes.
    StageSibling,
    /// Write the generated profile.
    WriteProfile,
    /// List the sessions that are there before the run.
    CaptureAudit,
    /// Run the sandbox.
    RunNono,
    /// Export the sessions that the run left behind.
    ExportAudit,
}

/// What is told when a step fails; a failure to list sessions before the run is passed over.
pub open spec fn failed_step(step: RunStep) -> Option<Seq<char>> {
    match step {
        RunStep::Seal => Some("failed to seal credentials"@),
        RunStep::BuildProfile => Some("failed to build nono profile"@),
        RunStep::StageSibling => Some("failed to stage the repo nono profile"@),
        RunStep::WriteProfile => Some("failed to write nono profile"@),
        RunStep::CaptureAudit => None,
        RunStep::RunNono => Some("nono run failed"@),
        RunStep::ExportAudit => Some("failed to export nono audit evidence"@),
    }
}

impl RunStep {
    /// What is told when the step fails.
    pub fn failure(self) -> (r: Option<&'static str>)
        ensures
            r.deep_view() == failed_step(self),
    {
        match self {
            RunStep::Seal => Some("failed to seal credentials"),
            RunStep::BuildProfile => Some("failed to build nono profile"),
            RunStep::StageSibling => Some("failed to stage the repo nono profile"),
            RunStep::WriteProfile => Some("failed to write nono profile"),
            RunStep::CaptureAudit => None,
            RunStep::RunNono => Some("nono run failed"),
            RunStep::ExportAudit => Some("failed to export nono audit evidence"),
        }
    }
}

/// What decides which steps a run has.
#[derive(Debug, Clone, Copy, PartialEq, Eq, Structural)]
pub struct RunKind {
    /// Whether there is a profile of the repository.
    pub staging: bool,
    /// Whether audit evidence is kept.
    pub auditing: bool,
}

/// Which steps the run of a configuration has: a profile of the repository is staged where there
/// is one, and evidence is kept where it is asked for.
pub fn run_kind(config: &RunConfig) -> (r: RunKind)
    ensures
        r.staging == config.deep_view().repo_profile is Some,
        r.auditing == config.deep_view().audit is Artifact,
{
    let staging = match &config.repo_profile {
        Some(_) => true,
        None => false,
    };
    let auditing = match &config.audit {
        AuditConfig::Disabled => false,
        AuditConfig::Artifact { .. } => true,
    };
    RunKind { staging, auditing }
}

/// The step after one that has been done.
pub open spec fn step_after(step: RunStep, kind: RunKind) -> Option<RunStep> {
    match step {
        RunStep::Seal => Some(RunStep::BuildProfile),
        RunStep::BuildProfile => if kind.staging {
            Some(RunStep::StageSibling)
        } else {
            Some(RunStep::WriteProfile)
        },
        RunStep::StageSibling => Some(RunStep::WriteProfile),
        RunStep::WriteProfile => if kind.auditing {
            Some(RunStep::CaptureAudit)
        } else {
            Some(RunStep::RunNono)
        },
        RunStep::CaptureAudit => Some(RunStep::RunNono),
        RunStep::RunNono => if kind.auditing {
            Some(RunStep::ExportAudit)
        } else {
            None
        },
        RunStep::ExportAudit => None,
    }
}

/// How a run stands: the step to do next, and a failure that will be told at the end.
pub struct RunState {
    pub kind: RunKind,
    pub step: Option<RunStep>,
    pub failure: Option<Error>,
}

/// How a run stands, as a mathematical value.
pub struct StateModel {
    pub kind: RunKind,
    pub step: Option<RunStep>,
    pub failure: Option<Seq<char>>,
}

impl DeepView for RunState {
    type V = StateModel;

    open spec fn deep_view(&self) -> StateModel {
        StateModel {
            kind: self.kind,
            step: self.step,
            failure: match self.failure {
                Some(e) => Some(e@),
                None => None,
            },
        }
    }
}

impl StateModel {
    /// What follows on a step. A failure ends the run, but for two steps: a failure to list
    /// sessions is passed over, and after a failed run its evidence is exported all the same.
    pub open spec fn after(self, reply: Result<(), Seq<char>>) -> Self {
        match self.step {
            None => self,
            Some(step) => match reply {
                Ok(_) => StateModel { step: step_after(step, self.kind), ..self },
                Err(e) => match failed_step(step) {
                    None => StateModel { step: step_after(step, self.kind), ..self },
                    Some(told) => StateModel {
                        step: if step == RunStep::RunNono {
                            step_after(step, self.kind)
                        } else {
                            None
                        },
                        failure: Some(in_context(told, e)),
                        ..self
                    },
                },
            },
        }
    }
}

/// The start of a run.
pub open spec fn run_start(inputs: Result<RunKind, Seq<char>>) -> StateModel {
    match inputs {
        Ok(kind) => StateModel { kind, step: Some(RunStep::Seal), failure: None },
        Err(e) => StateModel {
            kind: RunKind { staging: false, auditing: false },
            step: None,
            failure: Some(in_context("failed to read action inputs"@, e)),
        },
    }
}

/// The inputs of a run, as a mathematical value.
pub open spec fn inputs_of(inputs: Result<RunKind, Error>) -> Result<RunKind, Seq<char>> {
    match inputs {
        Ok(kind) => Ok(kind),
        Err(e) => Err(e@),
    }
}

impl RunState {
    /// Starts a run, once its inputs have been read or refused.
    pub fn start(inputs: Result<RunKind, Error>) -> (r: Self)
        ensures
            r.deep_view() == run_start(inputs_of(inputs)),
    {
        match inputs {
            Ok(kind) => RunState { kind, step: Some(RunStep::Seal), failure: None },
            Err(e) => RunState {
                kind: RunKind { staging: false, auditing: false },
                step: None,
                failure: Some(e.context("failed to read action inputs")),
            },
        }
    }

    /// The step after one that has been done.
    fn next(kind: RunKind, step: RunStep) -> (r: Option<RunStep>)
        ensures
            r == step_after(step, kind),
    {
        match step {
            RunStep::Seal => Some(RunStep::BuildProfile),
            RunStep::BuildProfile => if kind.staging {
                Some(RunStep::StageSibling)
            } else {
                Some(RunStep::WriteProfile)
            },
            RunStep::StageSibling => Some(RunStep::WriteProfile),
            RunStep::WriteProfile => if kind.auditing {
                Some(RunStep::CaptureAudit)
            } else {
                Some(RunStep::RunNono)
            },
            RunStep::CaptureAudit => Some(RunStep::RunNono),
            RunStep::RunNono => if kind.auditing {
                Some(RunStep::ExportAudit)
            } else {
                None
            },
            RunStep::ExportAudit => None,
        }
    }

    /// Learns how the step went, and goes on to the next.
    pub fn done(self, reply: Result<(), Error>) -> (r: Self)
        ensures
            r.deep_view() == self.deep_view().after(outcome(reply)),
    {
        let step = match self.step {
            Some(step) => step,
            None => {
                return self;
            },
        };
        let next = RunState::next(self.kind, step);
        match reply {
            Ok(_) => RunState { step: next, ..self },
            Err(e) => match step.failure() {
                None => RunState { step: next, ..self },
                Some(told) => RunState {
                    kind: self.kind,
                    step: if step == RunStep::RunNono {
                        next
                    } else {
                        None
                    },
                    failure: Some(e.context(told)),
                },
            },
        }
    }

    /// How the run ended, if it has ended.
    pub fn finish(self) -> (r: Option<Result<(), Error>>)
        ensures
            match r {
                None => self.step is Some,
                Some(Ok(_)) => self.step is None && self.deep_view().failure is None,
                Some(Err(e)) => self.step is None && self.deep_view().failure == Some(e@),
            },
    {
        match self.step {
            Some(_) => None,
            None => match self.failure {
                Some(e) => Some(Err(e)),
                None => Some(Ok(())),
            },
        }
    }
}

/// The place of a step in the order of a run.
pub open spec fn rank(step: RunStep) -> int {
    match step {
        RunStep::Seal => 0,
        RunStep::BuildProfile => 1,
        RunStep::StageSibling => 2,
        RunStep::WriteProfile => 3,
        RunStep::CaptureAudit => 4,
        RunStep::RunNono => 5,
        RunStep::ExportAudit => 6,
    }
}

/// A run goes through its steps in one order: credentials are sealed before any profile is built,
/// profiles are written before the sandbox runs, and evidence is exported after it.
pub proof fn lemma_steps_in_order(state: StateModel, reply: Result<(), Seq<char>>)
    requires
        state.step is Some,
    ensures
        state.after(reply).step matches Some(step) ==> rank(step) > rank(state.step->Some_0),
{
}

/// Whether the state of a run can have been reached: no failure is pending but that of the sandbox.
pub open spec fn reachable(state: StateModel) -> bool {
    match state.step {
        Some(RunStep::ExportAudit) => state.kind.auditing,
        Some(RunStep::StageSibling) => state.kind.staging && state.failure is None,
        Some(RunStep::CaptureAudit) => state.kind.auditing && state.failure is None,
        Some(_) => state.failure is None,
        None => true,
    }
}

/// A run reaches nothing but such states.
pub proof fn lemma_reachable(
    inputs: Result<RunKind, Seq<char>>,
    state: StateModel,
    reply: Result<(), Seq<char>>,
)
    ensures
        reachable(run_start(inputs)),
        reachable(state) ==> reachable(state.after(reply)),
{
}

/// The sandbox runs only after every step before it has succeeded; a failure before it ends the
/// run.
pub proof fn lemma_sandbox_needs_all_before(state: StateModel, reply: Result<(), Seq<char>>)
    requires
        reachable(state),
        state.step matches Some(step) && rank(step) < rank(RunStep::CaptureAudit),
    ensures
        reply is Err ==> state.after(reply).step is None && state.after(reply).failure is Some,
        reply is Ok ==> state.after(reply).step is Some && state.after(reply).failure is None,
{
}

/// A failure is never forgotten: once one is pending, the run ends with a failure.
pub proof fn lemma_failure_stays(state: StateModel, reply: Result<(), Seq<char>>)
    requires
        state.failure is Some,
    ensures
        state.after(reply).failure is Some,
{
}

/// How a run stands after some steps that have all been done with success.
pub open spec fn after_successes(state: StateModel, n: nat) -> StateModel
    decreases n,
{
    if n == 0 {
        state
    } else {
        after_successes(state, (n - 1) as nat).after(Ok(()))
    }
}

/// The steps of a run in which all goes well.
pub open spec fn all_steps(kind: RunKind) -> Seq<RunStep> {
    seq![RunStep::Seal, RunStep::BuildProfile] + (if kind.staging {
        seq![RunStep::StageSibling]
    } else {
        Seq::empty()
    }) + seq![RunStep::WriteProfile] + (if kind.auditing {
        seq![RunStep::CaptureAudit, RunStep::RunNono, RunStep::ExportAudit]
    } else {
        seq![RunStep::RunNono]
    })
}

/// A run in which all goes well takes these steps, one after another, and ends without a failure.
pub proof fn lemma_successful_run_exactly(kind: RunKind, n: nat)
    ensures
        after_successes(run_start(Ok(kind)), n).kind == kind,
        after_successes(run_start(Ok(kind)), n).failure is None,
        after_successes(run_start(Ok(kind)), n).step == if n < all_steps(kind).len() {
            Some(all_steps(kind)[n as int])
        } else {
            None
        },
    decreases n,
{
    if n > 0 {
        lemma_successful_run_exactly(kind, (n - 1) as nat);
    }
}

/// A step that fails ends the run with a failure that says which step it was and why. It is passed
/// over only where sessions could not be listed before the sandbox runs; and where the sandbox
/// itself fails, evidence is still exported, if it is kept.
pub proof fn lemma_failed_step_exactly(state: StateModel, e: Seq<char>)
    requires
        state.step is Some,
    ensures
        ({
            let step = state.step->Some_0;
            let next = state.after(Err(e));
            &&& next.kind == state.kind
            &&& step == RunStep::CaptureAudit ==> next == state.after(Ok(()))
            &&& step == RunStep::RunNono ==> next.step == state.after(Ok(())).step
            &&& step != RunStep::CaptureAudit && step != RunStep::RunNono ==> next.step is None
            &&& step == RunStep::Seal ==> next.failure == Some(
                "failed to seal credentials"@ + ": "@ + e,
            )
            &&& step == RunStep::BuildProfile ==> next.failure == Some(
                "failed to build nono profile"@ + ": "@ + e,
            )
            &&& step == RunStep::StageSibling ==> next.failure == Some(
                "failed to stage the repo nono profile"@ + ": "@ + e,
            )
            &&& step == RunStep::WriteProfile ==> next.failure == Some(
                "failed to write nono profile"@ + ": "@ + e,
            )
            &&& step == RunStep::RunNono ==> next.failure == Some("nono run failed"@ + ": "@ + e)
            &&& step == RunStep::ExportAudit ==> next.failure == Some(
                "failed to export nono audit evidence"@ + ": "@ + e,
            )
        }),
{
}

/// A step that succeeds leaves a pending failure as it is, and where all steps are done, nothing
/// changes any more.
pub proof fn lemma_success_keeps_failure(state: StateModel, reply: Result<(), Seq<char>>)
    ensures
        reply is Ok ==> state.after(reply).failure == state.failure,
        state.step is None ==> state.after(reply) == state,
{
}

/// Inputs that are refused make no step, and are told.
pub proof fn lemma_refused_inputs_exactly(e: Seq<char>)
    ensures
        run_start(Err(e)).step is None,
        run_start(Err(e)).failure == Some("failed to read action inputs"@ + ": "@ + e),
{
}

/// The commands by their names, and that no other name is known.
pub proof fn lemma_commands_exactly(name: Seq<char>)
    ensures
        command_of(Some(name)) == Ok::<Command, Seq<char>>(Command::Run) <==> name == "run"@,
        command_of(Some(name)) == Ok::<Command, Seq<char>>(Command::Capabilities) <==> name
            == "capabilities"@,
        command_of(Some(name)) == Ok::<Command, Seq<char>>(Command::Version) <==> name
            == "--version"@ || name == "version"@,
        command_of(None) is Err,
{
    reveal_strlit("run");
    reveal_strlit("capabilities");
    reveal_strlit("--version");
    reveal_strlit("version");
    assert("run"@.len() == 3 && "capabilities"@.len() == 12);
    assert("--version"@.len() == 9 && "version"@.len() == 7);
}

/// What the commands other than a run print.
pub proof fn lemma_printed_exactly(command: Command)
    ensures
        command == Command::Run <==> printed_by(command) is None,
        command == Command::Capabilities ==> printed_by(command) == Some("repo-profile-v1"@),
        command == Command::Version ==> printed_by(command) == Some("runseal "@ + VERSION@),
{
}

/// A model holds what the value holds, each part under its own name.
pub proof fn lemma_models_are_faithful(state: RunState)
    ensures
        state.deep_view().kind == state.kind,
        state.deep_view().step == state.step,
        state.failure matches Some(e) ==> state.deep_view().failure == Some(e@),
        state.failure is None ==> state.deep_view().failure is None,
{
}

} // verus!
