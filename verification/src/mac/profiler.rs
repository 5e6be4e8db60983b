//! The decisions of a recording: what the launched processes are told, when to look for
//! descendants, and where the messages of the process tree go.

use crate::mac::proc_watcher::{can_claim, SeenPids};
use crate::text::{bytes_of, decimal, decimal_of, same_bytes};
use std::collections::HashSet;
use vstd::prelude::*;
use vstd::string::*;

verus! {

broadcast use vstd::std_specs::hash::group_hash_axioms;

/// An environment variable: its name and its value.
pub type EnvVar = (Vec<u8>, Vec<u8>);

/// The environment variables of a list.
pub open spec fn env_view(vars: Seq<EnvVar>) -> Seq<(Seq<u8>, Seq<u8>)> {
    vars.map_values(|v: EnvVar| (v.0@, v.1@))
}

/// Whether a variable has the name.
pub open spec fn is_set(vars: Seq<(Seq<u8>, Seq<u8>)>, name: Seq<u8>) -> bool {
    exists|i: int| 0 <= i < vars.len() && (#[trigger] vars[i]).0 == name
}

/// Whether CoreCLR is of interest, and the user has not said what it should write.
pub open spec fn sets_perf_map(vars: Seq<(Seq<u8>, Seq<u8>)>, coreclr: bool) -> bool {
    coreclr && !is_set(vars, "DOTNET_PerfMapEnabled".spec_bytes())
}

/// The environment with `DOTNET_PerfMapEnabled=3`, if it is to be set.
pub open spec fn env_with_perf_map(vars: Seq<(Seq<u8>, Seq<u8>)>, coreclr: bool) -> Seq<
    (Seq<u8>, Seq<u8>),
> {
    if sets_perf_map(vars, coreclr) {
        vars.push(("DOTNET_PerfMapEnabled".spec_bytes(), "3".spec_bytes()))
    } else {
        vars
    }
}

/// Sets `DOTNET_PerfMapEnabled=3` in the environment of a launched process if CoreCLR
/// is of interest and it's not already set. Returns whether it was set.
///
/// If we set it, we'll also want to unlink auxiliary files to avoid leaving files
/// behind in the temp directory. But if it's set manually, assume the user
/// knows what they're doing and will specify the arg as needed.
pub fn enable_perf_map(env_vars: &mut Vec<EnvVar>, coreclr: bool) -> (res: bool)
    ensures
        res == sets_perf_map(env_view(old(env_vars)@), coreclr),
        env_view(final(env_vars)@) == env_with_perf_map(env_view(old(env_vars)@), coreclr),
{
    if !coreclr {
        return false;
    }
    let name = bytes_of("DOTNET_PerfMapEnabled");
    let ghost all = env_view(env_vars@);
    let mut i: usize = 0;
    while i < env_vars.len()
        invariant
            i <= env_vars@.len(),
            *env_vars == *old(env_vars),
            all == env_view(env_vars@),
            name@ == "DOTNET_PerfMapEnabled".spec_bytes(),
            coreclr,
            forall|j: int| 0 <= j < i ==> (#[trigger] all[j]).0 != name@,
        decreases env_vars@.len() - i,
    {
        assert(all[i as int].0 == env_vars@[i as int].0@);
        if same_bytes(env_vars[i].0.as_slice(), name.as_slice()) {
            return false;
        }
        i = i + 1;
    }
    let value = bytes_of("3");
    let ghost var = (name@, value@);
    env_vars.push((name, value));
    assert(env_view(env_vars@) =~= all.push(var));
    true
}

/// What is to be recorded.
#[derive(Clone, Copy, Debug, PartialEq, Eq, Structural)]
pub enum RecordingMode {
    /// All processes.
    All,
    /// An existing process.
    Pid(u32),
    /// A process that is launched.
    Launch,
}

/// How a recording starts.
#[derive(Clone, Copy, Debug, PartialEq, Eq, Structural)]
pub enum RecordingStart {
    /// Profiling all processes is not supported on macOS.
    Refuse,
    /// Attach to the process.
    Attach(u32),
    /// Launch the process, and look for descendants that cannot be reached otherwise.
    Launch {
        /// Whether files that only the recording needs are unlinked.
        unlink_aux_files: bool,
    },
}

/// Decides how a recording starts, and prepares the environment of the process that is
/// launched. `unlink_aux_files` is what the user asked for.
pub fn start_recording(
    mode: RecordingMode,
    env_vars: &mut Vec<EnvVar>,
    coreclr: bool,
    unlink_aux_files: bool,
) -> (res: RecordingStart)
    ensures
        match mode {
            RecordingMode::All => res == RecordingStart::Refuse,
            RecordingMode::Pid(pid) => res == RecordingStart::Attach(pid),
            RecordingMode::Launch => res == (RecordingStart::Launch {
                unlink_aux_files: unlink_aux_files || sets_perf_map(
                    env_view(old(env_vars)@),
                    coreclr,
                ),
            }),
        },
        env_view(final(env_vars)@) == (if mode == RecordingMode::Launch {
            env_with_perf_map(env_view(old(env_vars)@), coreclr)
        } else {
            env_view(old(env_vars)@)
        }),
{
    match mode {
        RecordingMode::All => RecordingStart::Refuse,
        RecordingMode::Pid(pid) => RecordingStart::Attach(pid),
        RecordingMode::Launch => {
            let was_set = enable_perf_map(env_vars, coreclr);
            RecordingStart::Launch { unlink_aux_files: unlink_aux_files || was_set }
        },
    }
}

/// How long descendants are looked for after the launch, in milliseconds: long enough to
/// catch the early hardened-exec chain but not so long that we burn CPU for the whole profile.
pub const POLL_LIMIT_MS: u64 = 5000;

/// Whether to look for descendants (again), so long after the launch.
pub fn keeps_polling(elapsed_ms: u64, stop_requested: bool) -> (res: bool)
    ensures
        res == (elapsed_ms < POLL_LIMIT_MS && !stop_requested),
{
    elapsed_ms < POLL_LIMIT_MS && !stop_requested
}

/// What a path is for.
#[derive(Clone, Copy, Debug, PartialEq, Eq, Structural)]
pub enum PathKind {
    Jitdump,
    MarkerFile,
    DotnetTrace,
}

/// What came from the process tree.
#[derive(Clone, Copy, Debug, PartialEq, Eq, Structural)]
pub enum Received {
    /// A process offers its task.
    Task(u32),
    /// A process names a path.
    Path(PathKind, u32),
    /// Nothing in time.
    Nothing,
    /// Waiting failed.
    Failure,
    /// The recording is over.
    Stop,
}

/// What to do about it.
#[derive(Clone, Copy, Debug, PartialEq, Eq, Structural)]
pub enum Reaction {
    /// Hand the task to the sampler, together with the end of a new channel for paths, and
    /// let the process run.
    Register(u32),
    /// Let the process run: its task has been handed to the sampler before.
    Run(u32),
    /// Send the path to the task.
    Deliver(PathKind, u32),
    /// Say that there is no task for the path.
    NoTask(PathKind, u32),
    /// Go on waiting.
    Wait,
    /// Say that waiting failed, and go on.
    Report,
    /// Tell the sampler to shut down, and end.
    Shutdown,
}

/// The pids whose paths can be delivered. Having them here lets us deliver a path to the
/// right task even in cases where a process execs into a new task with the same pid.
#[derive(Debug)]
pub struct Accepter {
    routes: HashSet<u32>,
}

impl View for Accepter {
    type V = Set<u32>;

    closed spec fn view(&self) -> Set<u32> {
        self.routes@
    }
}

/// The reaction to a message, where `routes` are the pids whose paths can be delivered.
pub open spec fn reaction(routes: Set<u32>, seen: Set<u32>, received: Received) -> Reaction {
    match received {
        Received::Task(pid) => if can_claim(seen, pid) {
            Reaction::Register(pid)
        } else {
            Reaction::Run(pid)
        },
        Received::Path(kind, pid) => if routes.contains(pid) {
            Reaction::Deliver(kind, pid)
        } else {
            Reaction::NoTask(kind, pid)
        },
        Received::Nothing => Reaction::Wait,
        Received::Failure => Reaction::Report,
        Received::Stop => Reaction::Shutdown,
    }
}

impl Accepter {
    pub fn new() -> (res: Self)
        ensures
            res@ == Set::<u32>::empty(),
    {
        Accepter { routes: HashSet::new() }
    }

    /// Takes note of a message.
    pub fn receive(&mut self, seen: &mut SeenPids, received: Received) -> (res: Reaction)
        ensures
            res == reaction(old(self)@, old(seen)@, received),
            final(self)@ == (if res matches Reaction::Register(pid) {
                old(self)@.insert(res->Register_0)
            } else {
                old(self)@
            }),
            final(seen)@ == (if received matches Received::Task(pid) {
                old(seen)@.insert(received->Task_0)
            } else {
                old(seen)@
            }),
    {
        match received {
            Received::Task(pid) => {
                if seen.claim(pid) {
                    self.routes.insert(pid);
                    Reaction::Register(pid)
                } else {
                    Reaction::Run(pid)
                }
            },
            Received::Path(kind, pid) => {
                if self.routes.contains(&pid) {
                    Reaction::Deliver(kind, pid)
                } else {
                    Reaction::NoTask(kind, pid)
                }
            },
            Received::Nothing => Reaction::Wait,
            Received::Failure => Reaction::Report,
            Received::Stop => Reaction::Shutdown,
        }
    }

    /// A path could not be delivered: the task is probably already dead.
    pub fn delivery_failed(&mut self, pid: u32)
        ensures
            final(self)@ == old(self)@.remove(pid),
    {
        self.routes.remove(&pid);
    }
}

/// What is said of a path for a pid without a task.
pub open spec fn no_task_text(kind: PathKind, pid: u32) -> Seq<char> {
    (match kind {
        PathKind::Jitdump => "Received a Jitdump path for pid "@,
        PathKind::MarkerFile | PathKind::DotnetTrace => "Received a marker file path for pid "@,
    }) + decimal(pid as nat) + " which I don't have a task for."@
}

pub fn no_task_message(kind: PathKind, pid: u32) -> (res: String)
    ensures
        res@ == no_task_text(kind, pid),
{
    let mut message = match kind {
        PathKind::Jitdump => "Received a Jitdump path for pid ".to_owned(),
        PathKind::MarkerFile | PathKind::DotnetTrace => "Received a marker file path for pid ".to_owned(),
    };
    message.append(decimal_of(pid as u64).as_str());
    message.append(" which I don't have a task for.");
    message
}

/// A task is registered at most once, however often and in whichever way it is reached; and
/// its paths are delivered from then on, until one cannot be.
pub proof fn tasks_are_registered_once(
    routes: Set<u32>,
    seen: Set<u32>,
    pid: u32,
    kind: PathKind,
)
    ensures
        reaction(routes, seen.insert(pid), Received::Task(pid)) == Reaction::Run(pid),
        reaction(routes, seen, Received::Task(pid)) == Reaction::Register(pid) <==> can_claim(
            seen,
            pid,
        ),
        reaction(routes.insert(pid), seen, Received::Path(kind, pid)) == Reaction::Deliver(
            kind,
            pid,
        ),
        reaction(routes.remove(pid), seen, Received::Path(kind, pid)) == Reaction::NoTask(
            kind,
            pid,
        ),
{
}

/// What the user has set stays as it is, and asking twice for the perf map is asking once.
pub proof fn the_perf_map_is_enabled_once(vars: Seq<(Seq<u8>, Seq<u8>)>, coreclr: bool)
    ensures
        env_with_perf_map(env_with_perf_map(vars, coreclr), coreclr) == env_with_perf_map(
            vars,
            coreclr,
        ),
        is_set(vars, "DOTNET_PerfMapEnabled".spec_bytes()) ==> env_with_perf_map(vars, coreclr)
            == vars,
        vars.is_prefix_of(env_with_perf_map(vars, coreclr)),
{
    let var = ("DOTNET_PerfMapEnabled".spec_bytes(), "3".spec_bytes());
    assert(vars.push(var)[vars.len() as int] == var);
    assert(vars.is_prefix_of(vars.push(var)));
}

/// What comes from the process tree goes where it belongs: a task whose pid nobody has claimed
/// is registered, and any other just runs; a path goes to the task of its pid, if there is one.
/// Silence means to wait on, a failure is reported, and the end of the recording ends this too.
pub proof fn messages_go_where_they_belong(
    routes: Set<u32>,
    seen: Set<u32>,
    pid: u32,
    kind: PathKind,
)
    ensures
        !seen.contains(pid) ==> reaction(routes, seen, Received::Task(pid)) == Reaction::Register(
            pid,
        ),
        seen.contains(pid) ==> reaction(routes, seen, Received::Task(pid)) == Reaction::Run(pid),
        routes.contains(pid) ==> reaction(routes, seen, Received::Path(kind, pid))
            == Reaction::Deliver(kind, pid),
        !routes.contains(pid) ==> reaction(routes, seen, Received::Path(kind, pid))
            == Reaction::NoTask(kind, pid),
        reaction(routes, seen, Received::Nothing) == Reaction::Wait,
        reaction(routes, seen, Received::Failure) == Reaction::Report,
        reaction(routes, seen, Received::Stop) == Reaction::Shutdown,
{
}

/// If CoreCLR is of interest and no variable has the name, one more variable asks for perf maps
/// of both kinds; otherwise nothing is added.
pub proof fn perf_maps_are_asked_for(vars: Seq<(Seq<u8>, Seq<u8>)>, coreclr: bool, i: int)
    ensures
        ({
            let name = "DOTNET_PerfMapEnabled".spec_bytes();
            let after = env_with_perf_map(vars, coreclr);
            &&& coreclr && (forall|j: int| 0 <= j < vars.len() ==> (#[trigger] vars[j]).0 != name)
                ==> after == vars.push((name, "3".spec_bytes())) && sets_perf_map(vars, coreclr)
            &&& !coreclr ==> after == vars && !sets_perf_map(vars, coreclr)
            &&& 0 <= i < vars.len() && vars[i].0 == name ==> after == vars && !sets_perf_map(
                vars,
                coreclr,
            )
        }),
{
}

/// A message on a path without a task names the pid in decimal, and a jitdump as such.
pub proof fn messages_name_the_pid(kind: PathKind, pid: u32)
    ensures
        exists|before: Seq<char>, after: Seq<char>|
            #![trigger before + decimal(pid as nat) + after]
            no_task_text(kind, pid) == before + decimal(pid as nat) + after && before.len() > 0
                && after.len() > 0,
        no_task_text(PathKind::Jitdump, pid) == "Received a Jitdump path for pid "@ + decimal(
            pid as nat,
        ) + " which I don't have a task for."@,
        kind != PathKind::Jitdump ==> no_task_text(kind, pid)
            == "Received a marker file path for pid "@ + decimal(pid as nat)
            + " which I don't have a task for."@,
{
    reveal_strlit("Received a Jitdump path for pid ");
    reveal_strlit("Received a marker file path for pid ");
    reveal_strlit(" which I don't have a task for.");
    let after = " which I don't have a task for."@;
    let before = if kind == PathKind::Jitdump {
        "Received a Jitdump path for pid "@
    } else {
        "Received a marker file path for pid "@
    };
    assert(no_task_text(kind, pid) == before + decimal(pid as nat) + after);
}

} // verus!
