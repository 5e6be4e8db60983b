//! Decide whether an exec will drop into a SIP-protected (un-injectable)
//! process, and if so warn the user. We never modify the exec — we only observe
//! and print.
//!
//! The warning explains *why* the process can't be profiled (SIP strips the
//! `DYLD_*` variable samply relies on) and what the user can do about it, and is
//! emitted as a GitHub Actions `::warning::` annotation when running in CI so it
//! surfaces in the workflow log.

use crate::preload::buffers::{filled, joined, lemma_filled_push, lemma_filled_stops,
    pieces_fit_if_there_is_room};
use crate::preload::fixed::{message_bytes, message_text, new_message, push_to_message, MESSAGE_MAX,
    PATH_MAX};
use crate::preload::redirect::{contains_nul, has_nul, is_regular, is_sip_protected, protected, regular,
    FileStat};
use crate::preload::shebang::{parse_shebang, shebang, Blanks};
use crate::text::same_bytes;
use vstd::prelude::*;
use vstd::string::*;
use vstd::utf8::valid_utf8;

verus! {

/// Is System Integrity Protection enabled, given what `csr_check` returned for unrestricted
/// access to the file system?
///
/// `csr_check(mask)` returns 0 when the active configuration *allows* the
/// operation in `mask` (i.e. that protection is off); non-zero means the
/// protection is active. If unrestricted filesystem access is not allowed,
/// SIP is on.
pub fn sip_enabled(csr_check: i32) -> (res: bool)
    ensures
        res == (csr_check != 0),
{
    csr_check != 0
}

/// True iff the value of the environment variable `GITHUB_ACTIONS` is `true`.
pub fn in_github_actions(value: Option<&[u8]>) -> (res: bool)
    ensures
        res == (value matches Some(bytes) && bytes@ == "true".spec_bytes()),
{
    match value {
        Some(bytes) => same_bytes(bytes, "true".as_bytes()),
        None => false,
    }
}

/// What is known of an exec, and so what comes next.
#[derive(Clone, Copy, Debug)]
pub enum Check<'a> {
    /// Find out about the target.
    StatTarget,
    /// Find out whether the target can be a script.
    StatScript,
    /// Read the first bytes of the script.
    ReadScript,
    /// Find out about the interpreter.
    StatInterpreter(&'a [u8]),
    /// Warn of the target, and go ahead.
    WarnOfTarget,
    /// Warn of the interpreter, and go ahead.
    WarnOfInterpreter(&'a [u8]),
    /// Go ahead.
    Exec,
}

/// The states of [`Check`].
#[verifier::ext_equal]
pub enum CheckState {
    StatTarget,
    StatScript,
    ReadScript,
    StatInterpreter(Seq<u8>),
    WarnOfTarget,
    WarnOfInterpreter(Seq<u8>),
    Exec,
}

impl<'a> View for Check<'a> {
    type V = CheckState;

    open spec fn view(&self) -> CheckState {
        match *self {
            Check::StatTarget => CheckState::StatTarget,
            Check::StatScript => CheckState::StatScript,
            Check::ReadScript => CheckState::ReadScript,
            Check::StatInterpreter(path) => CheckState::StatInterpreter(path@),
            Check::WarnOfTarget => CheckState::WarnOfTarget,
            Check::WarnOfInterpreter(path) => CheckState::WarnOfInterpreter(path@),
            Check::Exec => CheckState::Exec,
        }
    }
}

/// The interpreter in the first bytes of a script.
pub open spec fn interpreter_of(window: Seq<u8>) -> Option<Seq<u8>> {
    match shebang(window, Blanks::SpacesAndTabs) {
        Some(parts) => if parts.interpreter.len() < PATH_MAX && !has_nul(parts.interpreter) {
            Some(parts.interpreter)
        } else {
            None
        },
        None => None,
    }
}

/// The interpreter in the first bytes of a script. Only the interpreter is needed — we don't
/// rebuild argv.
pub fn shebang_interpreter<'a>(window: &'a [u8]) -> (res: Option<&'a [u8]>)
    ensures
        match interpreter_of(window@) {
            Some(path) => res matches Some(p) && p@ == path,
            None => res is None,
        },
{
    match parse_shebang(window, Blanks::SpacesAndTabs) {
        Some(parts) => if parts.interpreter.len() < PATH_MAX && !contains_nul(parts.interpreter) {
            Some(parts.interpreter)
        } else {
            None
        },
        None => None,
    }
}

impl CheckState {
    /// If SIP is off, `DYLD_*` survives even for protected binaries, so the preload
    /// still loads and there's nothing to warn about.
    pub open spec fn initial(has_path: bool, sip_enabled: bool) -> CheckState {
        if has_path && sip_enabled {
            CheckState::StatTarget
        } else {
            CheckState::Exec
        }
    }

    /// Whether this waits for a `stat`.
    pub open spec fn awaits_stat(self) -> bool {
        self is StatTarget || self is StatScript || self is StatInterpreter
    }

    pub open spec fn after_stat(self, stat: Option<FileStat>) -> CheckState {
        match self {
            CheckState::StatTarget => if protected(stat) {
                CheckState::WarnOfTarget
            } else {
                CheckState::StatScript
            },
            CheckState::StatScript => if regular(stat) {
                CheckState::ReadScript
            } else {
                CheckState::Exec
            },
            CheckState::StatInterpreter(path) => if protected(stat) {
                CheckState::WarnOfInterpreter(path)
            } else {
                CheckState::Exec
            },
            _ => self,
        }
    }

    pub open spec fn after_script(self, window: Option<Seq<u8>>) -> CheckState {
        match window {
            Some(bytes) => match interpreter_of(bytes) {
                Some(path) => CheckState::StatInterpreter(path),
                None => CheckState::Exec,
            },
            None => CheckState::Exec,
        }
    }
}

impl<'a> Check<'a> {
    /// The first step for an exec. If SIP is active and the
    /// effective binary (the target itself, or — for a `#!` script — its shebang
    /// interpreter) is SIP-protected, there is a warning. The real, unmodified exec follows in
    /// any case.
    pub fn start(has_path: bool, sip_enabled: bool) -> (res: Self)
        ensures
            res@ == CheckState::initial(has_path, sip_enabled),
    {
        if has_path && sip_enabled {
            Check::StatTarget
        } else {
            Check::Exec
        }
    }

    /// What `stat` says of what was asked for; `None` if it failed.
    pub fn on_stat(self, stat: Option<FileStat>) -> (res: Self)
        requires
            self@.awaits_stat(),
        ensures
            res@ == self@.after_stat(stat),
    {
        match self {
            Check::StatTarget => if is_sip_protected(stat) {
                Check::WarnOfTarget
            } else {
                // Not a protected binary itself — but it may be a script whose shebang
                // interpreter is one (e.g. `pnpm` -> `#!/usr/bin/env node`). The kernel
                // execs that interpreter, and that's where DYLD_* gets stripped.
                Check::StatScript
            },
            Check::StatScript => if is_regular(stat) {
                Check::ReadScript
            } else {
                Check::Exec
            },
            Check::StatInterpreter(path) => if is_sip_protected(stat) {
                Check::WarnOfInterpreter(path)
            } else {
                Check::Exec
            },
            _ => self,
        }
    }

    /// The first bytes of the script; `None` if they could not be read.
    pub fn on_script(self, window: Option<&'a [u8]>) -> (res: Self)
        requires
            self@ is ReadScript,
        ensures
            res@ == self@.after_script(
                match window {
                    Some(bytes) => Some(bytes@),
                    None => None,
                },
            ),
    {
        if let Some(bytes) = window {
            if let Some(path) = shebang_interpreter(bytes) {
                return Check::StatInterpreter(path);
            }
        }
        Check::Exec
    }
}

/// Calls `core::str::from_utf8`, which gives the text that the bytes encode if they are valid
/// UTF-8, and an error otherwise.
#[verifier::external_body]
fn utf8_text(bytes: &[u8]) -> (res: Option<&str>)
    ensures
        match res {
            Some(text) => valid_utf8(bytes@) && text.spec_bytes() == bytes@,
            None => !valid_utf8(bytes@),
        },
{
    core::str::from_utf8(bytes).ok()
}

/// The pieces of the warning of a binary.
pub open spec fn warning_pieces(binary: Seq<u8>, in_github_actions: bool) -> Seq<Seq<u8>> {
    seq![
        if in_github_actions {
            "::warning title=CodSpeed cannot profile a system process::".spec_bytes()
        } else {
            "[CodSpeed] warning: ".spec_bytes()
        },
        "CodSpeed could not profile the system process `".spec_bytes(),
        if valid_utf8(binary) {
            binary
        } else {
            "<unknown>".spec_bytes()
        },
        "`. System Integrity Protection (SIP) removes the DYLD_INSERT_LIBRARIES environment variable that samply uses to attach to a process whenever a protected Apple system binary is executed, so this process and its children are invisible to the profiler. See ".spec_bytes(),
        "https://codspeed.io/docs/instruments/walltime/macos-profiling".spec_bytes(),
        " for more information.\n".spec_bytes(),
    ]
}

/// A message of a fixed capacity.
pub struct Warning {
    message: heapless::String<MESSAGE_MAX>,
}

impl View for Warning {
    type V = Seq<u8>;

    closed spec fn view(&self) -> Seq<u8> {
        message_bytes(self.message)
    }
}

impl Warning {
    /// Appends the text as the next of the pieces. If it returns `false`, so do all that
    /// follow.
    fn push_next(
        &mut self,
        text: &str,
        Ghost(pieces): Ghost<Seq<Seq<u8>>>,
        Ghost(n): Ghost<int>,
    ) -> (res: bool)
        requires
            0 <= n < pieces.len(),
            pieces[n] == text.spec_bytes(),
            filled(pieces.take(n), MESSAGE_MAX as nat) == (old(self)@, true),
        ensures
            (final(self)@, res) == filled(pieces.take(n + 1), MESSAGE_MAX as nat),
            !res ==> filled(pieces, MESSAGE_MAX as nat) == (final(self)@, false),
    {
        proof {
            lemma_filled_push(pieces.take(n), text.spec_bytes(), MESSAGE_MAX as nat);
            assert(pieces.take(n).push(text.spec_bytes()) =~= pieces.take(n + 1));
        }
        let res = push_to_message(&mut self.message, text);
        proof {
            if !res {
                lemma_filled_stops(pieces, n + 1, MESSAGE_MAX as nat);
            }
        }
        res
    }

    /// The warning of a binary, as a GitHub Actions annotation when in CI. What has no room is
    /// left out, together with all that follows.
    pub fn of(binary: &[u8], in_github_actions: bool) -> (res: Self)
        ensures
            res@ == filled(warning_pieces(binary@, in_github_actions), MESSAGE_MAX as nat).0,
    {
        let ghost pieces = warning_pieces(binary@, in_github_actions);
        let bin = match utf8_text(binary) {
            Some(text) => text,
            None => "<unknown>",
        };
        let prefix = if in_github_actions {
            "::warning title=CodSpeed cannot profile a system process::"
        } else {
            "[CodSpeed] warning: "
        };
        let mut warning = Warning { message: new_message() };
        assert(pieces.take(0) =~= seq![]);
        assert(pieces.take(6) =~= pieces);
        let _ = warning.push_next(prefix, Ghost(pieces), Ghost(0)) && warning.push_next(
            "CodSpeed could not profile the system process `",
            Ghost(pieces),
            Ghost(1),
        ) && warning.push_next(bin, Ghost(pieces), Ghost(2)) && warning.push_next(
            "`. System Integrity Protection (SIP) removes the DYLD_INSERT_LIBRARIES environment variable that samply uses to attach to a process whenever a protected Apple system binary is executed, so this process and its children are invisible to the profiler. See ",
            Ghost(pieces),
            Ghost(3),
        ) && warning.push_next(
            "https://codspeed.io/docs/instruments/walltime/macos-profiling",
            Ghost(pieces),
            Ghost(4),
        ) && warning.push_next(" for more information.\n", Ghost(pieces), Ghost(5));
        warning
    }

    /// The text to print.
    pub fn as_bytes(&self) -> (res: &[u8])
        ensures
            res@ == self@,
    {
        message_text(&self.message).as_bytes()
    }
}

/// There is a warning just if SIP is on and the binary that the kernel execs is protected: the
/// target itself, or the interpreter of a script.
pub proof fn warnings_are_of_protected_binaries(
    state: CheckState,
    has_path: bool,
    sip_enabled: bool,
    stat: Option<FileStat>,
)
    ensures
        !sip_enabled || !has_path ==> CheckState::initial(has_path, sip_enabled) is Exec,
        state is StatTarget ==> (state.after_stat(stat) is WarnOfTarget <==> protected(stat)),
        state matches CheckState::StatInterpreter(path) ==> (state.after_stat(stat)
            == CheckState::WarnOfInterpreter(path) <==> protected(stat)) && (state.after_stat(stat)
            is Exec <==> !protected(stat)),
{
}

/// With SIP on, a restricted target is warned of. Otherwise, if it is a regular file whose first
/// line names an interpreter, that is warned of if it is restricted. Nothing else is.
pub proof fn restricted_binaries_are_warned_of(stat: Option<FileStat>, window: Seq<u8>, path: Seq<u8>)
    ensures
        ({
            let restricted = stat is Some && (stat->0).flags & 0x8_0000 != 0;
            let is_file = stat is Some && (stat->0).mode & 0xf000 == 0x8000;
            &&& CheckState::initial(true, true) == CheckState::StatTarget
            &&& restricted ==> CheckState::StatTarget.after_stat(stat) == CheckState::WarnOfTarget
            &&& !restricted ==> CheckState::StatTarget.after_stat(stat) == CheckState::StatScript
            &&& is_file ==> CheckState::StatScript.after_stat(stat) == CheckState::ReadScript
            &&& !is_file ==> CheckState::StatScript.after_stat(stat) == CheckState::Exec
            &&& restricted ==> CheckState::StatInterpreter(path).after_stat(stat)
                == CheckState::WarnOfInterpreter(path)
            &&& !restricted ==> CheckState::StatInterpreter(path).after_stat(stat)
                == CheckState::Exec
        }),
        CheckState::ReadScript.after_script(None) == CheckState::Exec,
        match shebang(window, Blanks::SpacesAndTabs) {
            Some(parts) => if parts.interpreter.len() < 1024 && (forall|i: int|
                0 <= i < parts.interpreter.len() ==> #[trigger] parts.interpreter[i] != 0) {
                CheckState::ReadScript.after_script(Some(window)) == CheckState::StatInterpreter(
                    parts.interpreter,
                )
            } else {
                CheckState::ReadScript.after_script(Some(window)) == CheckState::Exec
            },
            None => CheckState::ReadScript.after_script(Some(window)) == CheckState::Exec,
        },
{
}

/// The warning names the binary, if that is text, between what marks it as a warning of the
/// right kind and what explains it.
pub proof fn warnings_name_the_binary(binary: Seq<u8>, in_github_actions: bool)
    requires
        valid_utf8(binary),
    ensures
        ({
            let (message, fits) = filled(warning_pieces(binary, in_github_actions), 1024);
            let mark = if in_github_actions {
                "::warning title=CodSpeed cannot profile a system process::".spec_bytes()
            } else {
                "[CodSpeed] warning: ".spec_bytes()
            };
            let before = mark + "CodSpeed could not profile the system process `".spec_bytes();
            fits ==> {
                &&& message.len() >= before.len() + binary.len()
                &&& message.take(before.len() as int) == before
                &&& message.subrange(
                    before.len() as int,
                    (before.len() + binary.len()) as int,
                ) == binary
            }
        }),
        MESSAGE_MAX == 1024,
{
    let pieces = warning_pieces(binary, in_github_actions);
    pieces_fit_if_there_is_room(pieces, 1024);
    reveal_with_fuel(joined, 7);
    let p5 = pieces.drop_last();
    let p4 = p5.drop_last();
    let p3 = p4.drop_last();
    let p2 = p3.drop_last();
    let p1 = p2.drop_last();
    assert(p1.drop_last() =~= seq![]);
    let before = pieces[0] + pieces[1];
    assert(joined(p2) =~= before);
    assert(joined(p3) =~= before + binary);
    let all = joined(pieces);
    assert(all =~= before + (binary + (pieces[3] + (pieces[4] + pieces[5]))));
    assert(all.take(before.len() as int) =~= before);
    assert(all.subrange(before.len() as int, (before.len() + binary.len()) as int) =~= binary);
}

} // verus!
