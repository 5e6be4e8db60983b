//! The exec-path policy: decide what should actually be exec'd. Detects SIP
//! system binaries and `#!`-shebang scripts whose interpreter is one, and
//! redirects to an ad-hoc re-signed copy in the cache.
//!
//! The decisions are made step by step: each state says what is to be found out or done next,
//! and takes the answer.

use crate::preload::buffers::{argv_fits, filled, rebuilt_slots, tmp_path_pieces, without_nul, Argv,
    CPathBuffer, ShebangArgv};
use crate::preload::fixed::PATH_MAX;
use crate::preload::shebang::{parse_shebang, shebang, Blanks};
use crate::text::{find, lemma_find, same_bytes};
use vstd::prelude::*;
use vstd::slice::slice_subrange;
use vstd::string::*;

verus! {

/// The file flag of a system binary that is protected (from `<sys/stat.h>`).
pub const SF_RESTRICTED: u32 = 0x0008_0000;

/// The mode bits of a file that runs with the rights of its owner or group.
pub const S_ISUID_OR_S_ISGID: u32 = 0xc00;

/// The mode bits that hold the type of a file.
pub const S_IFMT: u32 = 0xf000;

/// The type of a regular file.
pub const S_IFREG: u32 = 0x8000;

/// What `stat` says of a file.
#[derive(Clone, Copy, Debug, PartialEq, Eq, Structural)]
pub struct FileStat {
    pub flags: u32,
    pub mode: u32,
    pub mtime: i64,
}

/// Whether the file is a SIP-protected system binary. Such binaries carry the restricted
/// file flag, which is what makes the kernel strip `DYLD_*` on exec.
pub open spec fn protected(stat: Option<FileStat>) -> bool {
    stat matches Some(st) && st.flags & SF_RESTRICTED != 0
}

/// Whether the file is a regular one. Only these can be scripts.
pub open spec fn regular(stat: Option<FileStat>) -> bool {
    stat matches Some(st) && st.mode & S_IFMT == S_IFREG
}

/// Whether the path is that of a SIP-protected binary that is safe to ad-hoc re-sign: not the
/// signer itself, and not one whose rights re-signing would drop.
pub open spec fn redirectable(path: Seq<u8>, stat: Option<FileStat>) -> bool {
    &&& path != "/usr/bin/codesign".spec_bytes()
    &&& protected(stat)
    &&& stat matches Some(st) && st.mode & S_ISUID_OR_S_ISGID == 0
}

/// Whether the file is a SIP-protected system binary, given what `stat` says of it.
pub fn is_sip_protected(stat: Option<FileStat>) -> (res: bool)
    ensures
        res == protected(stat),
{
    match stat {
        Some(st) => st.flags & SF_RESTRICTED != 0,
        None => false,
    }
}

/// Whether the file is a regular one, given what `stat` says of it.
pub fn is_regular(stat: Option<FileStat>) -> (res: bool)
    ensures
        res == regular(stat),
{
    match stat {
        Some(st) => st.mode & S_IFMT == S_IFREG,
        None => false,
    }
}

/// Check whether `path` is a SIP-protected binary that is safe to ad-hoc re-sign, given what
/// `stat` says of it.
pub fn is_redirectable(path: &[u8], stat: Option<FileStat>) -> (res: bool)
    ensures
        res == redirectable(path@, stat),
{
    // Never the signer itself — we shell out to it to do the re-signing.
    if same_bytes(path, "/usr/bin/codesign".as_bytes()) {
        return false;
    }
    match stat {
        Some(st) => {
            // Never setuid/setgid: re-signing drops the bit (and entitlements) and would
            // break privileged tools (`sudo`, `login`, …)
            st.flags & SF_RESTRICTED != 0 && st.mode & S_ISUID_OR_S_ISGID == 0
        },
        None => false,
    }
}

/// Whether a byte is a nul. A path with one in it is none.
pub open spec fn has_nul(bytes: Seq<u8>) -> bool {
    exists|i: int| 0 <= i < bytes.len() && #[trigger] bytes[i] == 0
}

/// Whether a byte is a nul. A path with one in it is none.
pub fn contains_nul(bytes: &[u8]) -> (res: bool)
    ensures
        res == has_nul(bytes@),
{
    let mut i: usize = 0;
    while i < bytes.len()
        invariant
            i <= bytes@.len(),
            forall|j: int| 0 <= j < i ==> #[trigger] bytes@[j] != 0,
        decreases bytes@.len() - i,
    {
        if bytes[i] == 0 {
            return true;
        }
        i = i + 1;
    }
    false
}

/// The path that the kernel sees in the bytes: it ends in front of the first nul.
pub open spec fn up_to_nul(bytes: Seq<u8>) -> Seq<u8> {
    bytes.take(find(bytes, 0u8))
}

/// The path that the kernel sees in the bytes: it ends in front of the first nul.
pub fn path_in(bytes: &[u8]) -> (res: &[u8])
    ensures
        res@ == up_to_nul(bytes@),
        !has_nul(res@),
{
    let mut i: usize = 0;
    while i < bytes.len() && bytes[i] != 0
        invariant
            i <= bytes@.len(),
            forall|j: int| 0 <= j < i ==> #[trigger] bytes@[j] != 0,
        decreases bytes@.len() - i,
    {
        i = i + 1;
    }
    proof {
        lemma_find(bytes@, 0u8, i as int);
    }
    let path = slice_subrange(bytes, 0, i);
    assert(path@ =~= bytes@.take(i as int));
    path
}

/// What is exec'd.
#[derive(Clone, Copy, Debug, PartialEq, Eq, Structural)]
pub enum Choice {
    /// The original path, with the original argv.
    Original,
    /// The re-signed copy of the target, with the original argv.
    Copy,
    /// The re-signed copy of the interpreter, with the rebuilt argv.
    Interpreter,
}

/// What is known of an exec, and so what comes next.
#[derive(Clone, Copy, Debug)]
pub enum Redirect<'a> {
    /// Find out about the target.
    StatTarget,
    /// Have a re-signed copy of the target.
    ResignTarget,
    /// Find out whether the target can be a script.
    StatScript,
    /// Read the first bytes of the script.
    ReadScript,
    /// Find out about the interpreter.
    StatInterpreter { interpreter: &'a [u8], argument: &'a [u8] },
    /// Have a re-signed copy of the interpreter.
    ResignInterpreter { interpreter: &'a [u8], argument: &'a [u8] },
    /// Go ahead.
    Exec(Choice),
}

/// The states of [`Redirect`].
#[verifier::ext_equal]
pub enum RedirectState {
    StatTarget,
    ResignTarget,
    StatScript,
    ReadScript,
    StatInterpreter { interpreter: Seq<u8>, argument: Seq<u8> },
    ResignInterpreter { interpreter: Seq<u8>, argument: Seq<u8> },
    Exec(Choice),
}

impl<'a> View for Redirect<'a> {
    type V = RedirectState;

    open spec fn view(&self) -> RedirectState {
        match *self {
            Redirect::StatTarget => RedirectState::StatTarget,
            Redirect::ResignTarget => RedirectState::ResignTarget,
            Redirect::StatScript => RedirectState::StatScript,
            Redirect::ReadScript => RedirectState::ReadScript,
            Redirect::StatInterpreter { interpreter, argument } => RedirectState::StatInterpreter {
                interpreter: interpreter@,
                argument: argument@,
            },
            Redirect::ResignInterpreter {
                interpreter,
                argument,
            } => RedirectState::ResignInterpreter {
                interpreter: interpreter@,
                argument: argument@,
            },
            Redirect::Exec(choice) => RedirectState::Exec(choice),
        }
    }
}

impl RedirectState {
    /// Without a path or a cache for the copies, the whole feature is inert.
    pub open spec fn initial(has_path: bool, has_cache_root: bool) -> RedirectState {
        if has_path && has_cache_root {
            RedirectState::StatTarget
        } else {
            RedirectState::Exec(Choice::Original)
        }
    }

    /// Whether this waits for a `stat`.
    pub open spec fn awaits_stat(self) -> bool {
        self is StatTarget || self is StatScript || self is StatInterpreter
    }

    /// Whether this waits for a re-signed copy.
    pub open spec fn awaits_copy(self) -> bool {
        self is ResignTarget || self is ResignInterpreter
    }

    pub open spec fn after_stat(self, path: Seq<u8>, stat: Option<FileStat>) -> RedirectState {
        match self {
            RedirectState::StatTarget => if redirectable(path, stat) {
                RedirectState::ResignTarget
            } else {
                RedirectState::StatScript
            },
            RedirectState::StatScript => if regular(stat) {
                RedirectState::ReadScript
            } else {
                RedirectState::Exec(Choice::Original)
            },
            RedirectState::StatInterpreter { interpreter, argument } => if redirectable(
                interpreter,
                stat,
            ) {
                RedirectState::ResignInterpreter { interpreter, argument }
            } else {
                RedirectState::Exec(Choice::Original)
            },
            _ => self,
        }
    }

    pub open spec fn after_script(self, window: Option<Seq<u8>>) -> RedirectState {
        match window {
            Some(bytes) => match shebang(bytes, Blanks::Spaces) {
                Some(parts) => RedirectState::StatInterpreter {
                    interpreter: up_to_nul(parts.interpreter),
                    argument: parts.argument,
                },
                None => RedirectState::Exec(Choice::Original),
            },
            None => RedirectState::Exec(Choice::Original),
        }
    }

    pub open spec fn after_copy(self, usable: bool, argc: int) -> RedirectState {
        match self {
            RedirectState::ResignTarget => RedirectState::Exec(
                if usable {
                    Choice::Copy
                } else {
                    Choice::Original
                },
            ),
            RedirectState::ResignInterpreter { interpreter, argument } => RedirectState::Exec(
                if usable && argv_fits(argument, argc) {
                    Choice::Interpreter
                } else {
                    Choice::Original
                },
            ),
            _ => self,
        }
    }

    /// The argv that is rebuilt once the interpreter has a copy.
    pub open spec fn argv_after_copy(self, usable: bool, argc: int) -> Argv {
        match self {
            RedirectState::ResignInterpreter { interpreter, argument } => if usable && argv_fits(
                argument,
                argc,
            ) {
                Argv {
                    slots: rebuilt_slots(argument, argc),
                    argument: if argument.len() > 0 {
                        argument.push(0)
                    } else {
                        seq![]
                    },
                }
            } else {
                Argv { slots: seq![], argument: seq![] }
            },
            _ => Argv { slots: seq![], argument: seq![] },
        }
    }
}

impl<'a> Redirect<'a> {
    /// The first step for an exec.
    ///
    /// If the target is a script with a SIP interpreter in its shebang, the *interpreter* is
    /// redirected instead, with a rebuilt argv.
    ///
    /// On any failure we fall back to the original path — the worst case is the
    /// pre-existing behaviour (DYLD stripped), never a failed exec.
    pub fn start(has_path: bool, has_cache_root: bool) -> (res: Self)
        ensures
            res@ == RedirectState::initial(has_path, has_cache_root),
    {
        if has_path && has_cache_root {
            Redirect::StatTarget
        } else {
            Redirect::Exec(Choice::Original)
        }
    }

    /// What `stat` says of what was asked for; `None` if it failed.
    pub fn on_stat(self, path: &[u8], stat: Option<FileStat>) -> (res: Self)
        requires
            self@.awaits_stat(),
        ensures
            res@ == self@.after_stat(path@, stat),
    {
        match self {
            Redirect::StatTarget => if is_redirectable(path, stat) {
                Redirect::ResignTarget
            } else {
                Redirect::StatScript
            },
            Redirect::StatScript => if is_regular(stat) {
                Redirect::ReadScript
            } else {
                Redirect::Exec(Choice::Original)
            },
            Redirect::StatInterpreter { interpreter, argument } => if is_redirectable(
                interpreter,
                stat,
            ) {
                Redirect::ResignInterpreter { interpreter, argument }
            } else {
                Redirect::Exec(Choice::Original)
            },
            _ => self,
        }
    }

    /// The first bytes of the script; `None` if they could not be read.
    pub fn on_script(self, window: Option<&'a [u8]>) -> (res: Self)
        requires
            self@ is ReadScript,
        ensures
            res@ == self@.after_script(
                match window {
                    Some(bytes) => Some(bytes@),
                    None => None,
                },
            ),
    {
        if let Some(bytes) = window {
            if let Some(parts) = parse_shebang(bytes, Blanks::Spaces) {
                return Redirect::StatInterpreter {
                    interpreter: path_in(parts.interpreter),
                    argument: parts.argument,
                };
            }
        }
        Redirect::Exec(Choice::Original)
    }

    /// Whether there is a usable re-signed copy. For an interpreter the argv is rebuilt, where
    /// the original one has `argc` arguments.
    pub fn on_copy(self, usable: bool, argc: usize, argv: &mut ShebangArgv) -> (res: Self)
        requires
            self@.awaits_copy(),
            old(argv)@ == (Argv { slots: seq![], argument: seq![] }),
        ensures
            res@ == self@.after_copy(usable, argc as int),
            final(argv)@ == self@.argv_after_copy(usable, argc as int),
    {
        match self {
            Redirect::ResignTarget => if usable {
                Redirect::Exec(Choice::Copy)
            } else {
                Redirect::Exec(Choice::Original)
            },
            Redirect::ResignInterpreter { interpreter: _, argument } => {
                if usable && argv.rebuild(argument, argc) {
                    Redirect::Exec(Choice::Interpreter)
                } else {
                    Redirect::Exec(Choice::Original)
                }
            },
            _ => self,
        }
    }
}

/// Making a re-signed copy, step by step.
#[derive(Clone, Copy, Debug, PartialEq, Eq, Structural)]
pub enum Resign {
    /// Find out how old the copy and its source are.
    CompareTimes,
    /// Make the parent directories of the copy.
    MakeParents,
    /// Copy the source to the temporary path.
    Copy,
    /// Sign what is there.
    Sign,
    /// Rename it to the path of the copy.
    Rename,
    /// Remove what is at the temporary path.
    Discard,
    /// The copy can be used, or it cannot.
    Done(bool),
}

/// Whether the copy is there and not older than the source.
pub open spec fn fresh(copy: Option<FileStat>, source: Option<FileStat>) -> bool {
    &&& copy is Some
    &&& source is Some
    &&& copy->0.mtime >= source->0.mtime
}

impl Resign {
    pub open spec fn after_work(self, succeeded: bool) -> Resign {
        match self {
            Resign::Copy => if succeeded {
                Resign::Sign
            } else {
                Resign::Discard
            },
            Resign::Sign => if succeeded {
                Resign::Rename
            } else {
                Resign::Discard
            },
            Resign::Rename => if succeeded {
                Resign::Done(true)
            } else {
                Resign::Discard
            },
            Resign::Discard => Resign::Done(false),
            _ => self,
        }
    }

    /// Ensure `<cache_root><path>` exists as an ad-hoc re-signed copy of `path`,
    /// building it on first use. Writes that destination path into `out`: `path` starts with
    /// '/', so this mirrors the tree.
    pub fn start(cache_root: &[u8], path: &[u8], out: &mut CPathBuffer) -> (res: Resign)
        ensures
            final(out)@ == filled(seq![cache_root@, path@, seq![0u8]], PATH_MAX as nat).0,
            res == (if filled(seq![cache_root@, path@, seq![0u8]], PATH_MAX as nat).1 {
                Resign::CompareTimes
            } else {
                Resign::Done(false)
            }),
    {
        if out.set_concat(cache_root, path).is_none() {
            Resign::Done(false)
        } else {
            Resign::CompareTimes
        }
    }

    /// What `stat` says of the copy and of its source. Already built and not older than the
    /// source? Reuse it.
    pub fn on_times(copy: Option<FileStat>, source: Option<FileStat>) -> (res: Resign)
        ensures
            res == (if fresh(copy, source) {
                Resign::Done(true)
            } else {
                Resign::MakeParents
            }),
    {
        match (copy, source) {
            (Some(copy), Some(source)) => if copy.mtime >= source.mtime {
                Resign::Done(true)
            } else {
                Resign::MakeParents
            },
            _ => Resign::MakeParents,
        }
    }

    /// Build to a unique temp then atomically rename, so concurrent execs never
    /// observe a half-written / unsigned copy. The temporary path for `out` is written into
    /// `tmp`.
    pub fn on_parents(out: &CPathBuffer, pid: u32, tmp: &mut CPathBuffer) -> (res: Resign)
        ensures
            final(tmp)@ == filled(
                tmp_path_pieces(without_nul(out@), pid),
                PATH_MAX as nat,
            ).0,
            res == (if filled(
                tmp_path_pieces(without_nul(out@), pid),
                PATH_MAX as nat,
            ).1 {
                Resign::Copy
            } else {
                Resign::Done(false)
            }),
    {
        if tmp.set_tmp_path(out, pid) {
            Resign::Copy
        } else {
            Resign::Done(false)
        }
    }

    /// Whether the work of this step succeeded.
    pub fn on_work(self, succeeded: bool) -> (res: Resign)
        requires
            self is Copy || self is Sign || self is Rename || self is Discard,
        ensures
            res == self.after_work(succeeded),
    {
        match self {
            Resign::Copy => if succeeded {
                Resign::Sign
            } else {
                Resign::Discard
            },
            Resign::Sign => if succeeded {
                Resign::Rename
            } else {
                Resign::Discard
            },
            Resign::Rename => if succeeded {
                Resign::Done(true)
            } else {
                Resign::Discard
            },
            _ => Resign::Done(false),
        }
    }
}

/// A copy that is built becomes visible only when it is complete and signed: all three
/// steps must succeed, and any that fails leads to the removal of what was built.
pub proof fn unfinished_copies_are_never_used(copied: bool, signed: bool, renamed: bool)
    ensures
        ({
            let last = Resign::Copy.after_work(copied).after_work(signed).after_work(renamed);
            &&& last == Resign::Done(true) <==> copied && signed && renamed
            &&& Resign::Copy.after_work(copied).after_work(signed) == Resign::Rename <==> copied
                && signed
            &&& !copied ==> Resign::Copy.after_work(copied) == Resign::Discard
            &&& !signed ==> Resign::Sign.after_work(signed) == Resign::Discard
            &&& !renamed ==> Resign::Rename.after_work(renamed) == Resign::Discard
        }),
{
}

/// On any failure the original path is exec'd, with the original argv: a `stat` that fails, a
/// script that cannot be read or has no interpreter, a copy that cannot be made, and an argv
/// that has no room.
pub proof fn failures_fall_back_to_the_original(
    state: RedirectState,
    path: Seq<u8>,
    window: Seq<u8>,
    argc: int,
)
    ensures
        state is StatScript || state is StatInterpreter ==> state.after_stat(path, None)
            == RedirectState::Exec(Choice::Original),
        state is StatTarget ==> state.after_stat(path, None).after_stat(path, None)
            == RedirectState::Exec(Choice::Original),
        state is ReadScript ==> state.after_script(None) == RedirectState::Exec(Choice::Original),
        state is ReadScript && shebang(window, Blanks::Spaces) is None ==> state.after_script(
            Some(window),
        ) == RedirectState::Exec(Choice::Original),
        state.awaits_copy() ==> state.after_copy(false, argc) == RedirectState::Exec(
            Choice::Original,
        ) && state.argv_after_copy(false, argc).is_unused(),
        state matches RedirectState::ResignInterpreter { interpreter, argument } ==> !argv_fits(
            argument,
            argc,
        ) ==> state.after_copy(true, argc) == RedirectState::Exec(Choice::Original)
            && state.argv_after_copy(true, argc).is_unused(),
{
}

/// The argv is rebuilt just if the interpreter is exec'd, and then it is complete.
pub proof fn the_argv_suits_the_choice(state: RedirectState, usable: bool, argc: int)
    requires
        state.awaits_copy(),
    ensures
        state.after_copy(usable, argc) == RedirectState::Exec(Choice::Interpreter)
            ==> state.argv_after_copy(usable, argc).is_complete(),
        state.after_copy(usable, argc) != RedirectState::Exec(Choice::Interpreter)
            ==> state.argv_after_copy(usable, argc).is_unused(),
{
    if let RedirectState::ResignInterpreter { interpreter, argument } = state {
        if argv_fits(argument, argc) {
            crate::preload::buffers::a_rebuilt_argv_is_complete(argument, argc);
        }
    }
}

/// Neither the signer nor a binary that runs with other rights is ever replaced by a copy, as
/// the target or as an interpreter; nor is anything that is not protected.
pub proof fn only_safe_binaries_are_copied(
    state: RedirectState,
    path: Seq<u8>,
    stat: Option<FileStat>,
)
    requires
        state.awaits_stat(),
        state.after_stat(path, stat).awaits_copy(),
    ensures
        protected(stat),
        stat matches Some(st) && st.mode & S_ISUID_OR_S_ISGID == 0,
        match state {
            RedirectState::StatInterpreter { interpreter, argument } => interpreter,
            _ => path,
        } != "/usr/bin/codesign".spec_bytes(),
{
}

/// A target is replaced by its copy just if it is there and restricted, does not run with other
/// rights, is not the signer, and has a usable copy. Otherwise a regular file may be a script,
/// and everything else is left alone.
pub proof fn restricted_targets_are_replaced(
    path: Seq<u8>,
    stat: Option<FileStat>,
    usable: bool,
    argc: int,
)
    ensures
        ({
            let safe = stat is Some && (stat->0).flags & 0x8_0000 != 0 && (stat->0).mode & 0xc00 == 0
                && path != "/usr/bin/codesign".spec_bytes();
            &&& safe ==> RedirectState::StatTarget.after_stat(path, stat)
                == RedirectState::ResignTarget
            &&& !safe ==> RedirectState::StatTarget.after_stat(path, stat)
                == RedirectState::StatScript
        }),
        ({
            let is_file = stat is Some && (stat->0).mode & 0xf000 == 0x8000;
            &&& is_file ==> RedirectState::StatScript.after_stat(path, stat)
                == RedirectState::ReadScript
            &&& !is_file ==> RedirectState::StatScript.after_stat(path, stat)
                == RedirectState::Exec(Choice::Original)
        }),
        usable ==> RedirectState::ResignTarget.after_copy(usable, argc) == RedirectState::Exec(
            Choice::Copy,
        ),
        !usable ==> RedirectState::ResignTarget.after_copy(usable, argc) == RedirectState::Exec(
            Choice::Original,
        ),
        RedirectState::initial(true, true) == RedirectState::StatTarget,
        RedirectState::initial(false, true) == RedirectState::Exec(Choice::Original),
        RedirectState::initial(true, false) == RedirectState::Exec(Choice::Original),
        RedirectState::initial(false, false) == RedirectState::Exec(Choice::Original),
{
}

/// A script is run by the copy of its interpreter just if the interpreter is there and
/// restricted, does not run with other rights, is not the signer, and has a usable copy, and the
/// argv has room. The interpreter is what its first line names, up to a nul.
pub proof fn restricted_interpreters_are_replaced(
    window: Seq<u8>,
    path: Seq<u8>,
    stat: Option<FileStat>,
    usable: bool,
    argc: int,
)
    requires
        0 <= argc <= usize::MAX,
        shebang(window, Blanks::Spaces) is Some,
    ensures
        ({
            let parts = shebang(window, Blanks::Spaces)->0;
            let read = RedirectState::ReadScript.after_script(Some(window));
            let interpreter = read->StatInterpreter_interpreter;
            let found = read.after_stat(path, stat);
            let done = found.after_copy(usable, argc);
            let safe = stat is Some && (stat->0).flags & 0x8_0000 != 0 && (stat->0).mode & 0xc00 == 0
                && interpreter != "/usr/bin/codesign".spec_bytes();
            let room = parts.argument.len() <= 127 && (if parts.argument.len() > 0 {
                2int
            } else {
                1
            }) + (if argc > 1 {
                argc
            } else {
                1
            }) + 1 <= 64;
            &&& read is StatInterpreter
            &&& read->StatInterpreter_argument == parts.argument
            &&& interpreter.len() <= parts.interpreter.len()
            &&& interpreter == parts.interpreter.take(interpreter.len() as int)
            &&& forall|i: int| 0 <= i < interpreter.len() ==> #[trigger] interpreter[i] != 0
            &&& interpreter.len() < parts.interpreter.len() ==> parts.interpreter[
                interpreter.len() as int] == 0
            &&& !safe ==> found == RedirectState::Exec(Choice::Original)
            &&& safe ==> found == (RedirectState::ResignInterpreter {
                interpreter,
                argument: parts.argument,
            })
            &&& safe && usable && room ==> done == RedirectState::Exec(Choice::Interpreter)
                && found.argv_after_copy(usable, argc).slots == rebuilt_slots(parts.argument, argc)
            &&& safe && usable && room && parts.argument.len() > 0 ==> found.argv_after_copy(
                usable,
                argc,
            ).argument == parts.argument.push(0)
            &&& safe && usable && room && parts.argument.len() == 0 ==> found.argv_after_copy(
                usable,
                argc,
            ).argument.len() == 0
            &&& !(safe && usable && room) ==> done == RedirectState::Exec(Choice::Original)
                && found.argv_after_copy(usable, argc).slots.len() == 0
        }),
{
    let parts = shebang(window, Blanks::Spaces)->0;
    crate::text::lemma_find_range(parts.interpreter, 0u8);
    crate::preload::buffers::an_argv_has_room_for_so_much(parts.argument, argc);
    let interpreter = up_to_nul(parts.interpreter);
    assert forall|i: int| 0 <= i < interpreter.len() implies #[trigger] interpreter[i] != 0 by {
        assert(interpreter[i] == parts.interpreter[i]);
    }
}

/// A copy is used again just if it is there and not older than its source, which is there too.
pub proof fn copies_are_used_until_the_source_is_newer(
    copy: Option<FileStat>,
    source: Option<FileStat>,
)
    ensures
        copy is None || source is None ==> !fresh(copy, source),
        copy is Some && source is Some ==> (fresh(copy, source) <==> (copy->0).mtime >= (
        source->0).mtime),
{
}

} // verus!
