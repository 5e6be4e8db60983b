use samply::preload::buffers::{CPathBuffer, ShebangArgv};
use samply::preload::fixed::ArgvSlot;
use samply::preload::redirect::{is_redirectable, path_in, Choice, FileStat, Redirect, Resign};
use samply::preload::shebang::{parse_shebang, Blanks};
use samply::preload::sys::{codesign_args, signed, waited, CopyFile, Waited};
use samply::preload::warn::{in_github_actions, shebang_interpreter, sip_enabled, Check, Warning};

#[test]
fn paths_are_joined_and_terminated() {
    let mut path = CPathBuffer::new();
    assert_eq!(path.as_bytes(), b"");
    assert_eq!(path.set_concat(b"/cache", b"/usr/bin/env"), Some(()));
    assert_eq!(path.as_bytes(), b"/cache/usr/bin/env");
    assert_eq!(path.as_bytes_with_nul(), b"/cache/usr/bin/env\0");
    assert_eq!(path.parent_dir(0), Some(6));
    assert_eq!(path.parent_dir(6), Some(6));
    assert_eq!(path.parent_dir(7), Some(10));
    assert_eq!(path.parent_dir(11), Some(14));
    assert_eq!(path.parent_dir(15), None);
    let mut tmp = CPathBuffer::new();
    assert!(tmp.set_tmp_path(&path, 4711));
    assert_eq!(tmp.as_bytes_with_nul(), b"/cache/usr/bin/env.4711.tmp\0");
}

#[test]
fn paths_that_are_too_long_are_refused() {
    let mut path = CPathBuffer::new();
    assert_eq!(path.set_concat(&[b'a'; 1000], &[b'b'; 23]), Some(()));
    assert_eq!(path.as_bytes().len(), 1023);
    assert_eq!(path.set_concat(&[b'a'; 1000], &[b'b'; 24]), None);
    assert_eq!(path.set_concat(&[b'a'; 1000], &[b'b'; 25]), None);
    assert_eq!(path.as_bytes_with_nul(), &[b'a'; 1000]);
    assert_eq!(path.set_concat(&[b'a'; 1000], b""), Some(()));
    let mut tmp = CPathBuffer::new();
    // 1000 + 1 + 10 + 4 + 1 bytes fit.
    assert!(tmp.set_tmp_path(&path, u32::MAX));
    assert_eq!(path.set_concat(&[b'a'; 1009], b""), Some(()));
    assert!(!tmp.set_tmp_path(&path, u32::MAX));
    assert!(tmp.set_tmp_path(&path, 7));
}

#[test]
fn an_argv_is_rebuilt_for_the_interpreter() {
    let mut argv = ShebangArgv::new();
    assert!(argv.as_slice().is_none());
    assert!(argv.rebuild(b"node", 3));
    assert_eq!(
        argv.as_slice().unwrap(),
        &[
            ArgvSlot::Interpreter,
            ArgvSlot::Argument,
            ArgvSlot::Script,
            ArgvSlot::Original(1),
            ArgvSlot::Original(2),
            ArgvSlot::End,
        ]
    );
    assert_eq!(argv.argument(), b"node\0");
    assert!(argv.rebuild(b"", 0));
    assert_eq!(
        argv.as_slice().unwrap(),
        &[ArgvSlot::Interpreter, ArgvSlot::Script, ArgvSlot::End]
    );
}

#[test]
fn an_argv_without_room_is_not_used() {
    let mut argv = ShebangArgv::new();
    assert!(argv.rebuild(b"", 62));
    assert_eq!(argv.as_slice().unwrap().len(), 64);
    assert_eq!(argv.as_slice().unwrap()[63], ArgvSlot::End);
    assert!(!argv.rebuild(b"", 63));
    assert!(argv.as_slice().is_none());
    assert!(argv.rebuild(&[b'x'; 127], 61));
    assert!(!argv.rebuild(&[b'x'; 127], 62));
    assert!(!argv.rebuild(&[b'x'; 128], 1));
    assert!(argv.as_slice().is_none());
    assert!(!argv.push_arg_bytes(&[b'x'; 128]));
    assert!(argv.push_arg_bytes(b"-u"));
    for _ in 1..64 {
        assert!(argv.push(ArgvSlot::Script));
    }
    assert!(!argv.push(ArgvSlot::End));
    assert!(!argv.push_arg_bytes(b"-x"));
    // The bytes are copied before the slot is found missing.
    assert_eq!(argv.argument(), b"-x\0");
    assert_eq!(argv.as_slice().unwrap().len(), 64);
    assert!(!argv.push_arg_bytes(&[b'y'; 128]));
    assert_eq!(argv.argument(), b"-x\0");
}

#[test]
fn shebangs_are_parsed() {
    let parse = |s: &'static str, blanks| {
        parse_shebang(s.as_bytes(), blanks).map(|s| (s.interpreter.to_vec(), s.argument.to_vec()))
    };
    assert_eq!(
        parse("#!/usr/bin/env node\nrest", Blanks::Spaces),
        Some((b"/usr/bin/env".to_vec(), b"node".to_vec()))
    );
    assert_eq!(
        parse("#!  /bin/sh -e -x\n", Blanks::Spaces),
        Some((b"/bin/sh".to_vec(), b"-e".to_vec()))
    );
    assert_eq!(
        parse("#!/bin/sh  -e\n", Blanks::Spaces),
        Some((b"/bin/sh".to_vec(), b"".to_vec()))
    );
    assert_eq!(
        parse("#!\t/bin/sh\t-e\n", Blanks::SpacesAndTabs),
        Some((b"/bin/sh".to_vec(), b"-e".to_vec()))
    );
    assert_eq!(
        parse("#!\t/bin/sh\n", Blanks::Spaces),
        Some((b"\t/bin/sh".to_vec(), b"".to_vec()))
    );
    assert_eq!(parse("#!/bin/sh", Blanks::Spaces), None);
    assert_eq!(parse("#!   \n", Blanks::Spaces), None);
    assert_eq!(parse("#/bin/sh\n", Blanks::Spaces), None);
    assert_eq!(parse("#", Blanks::Spaces), None);
    assert_eq!(shebang_interpreter(b"#!/a\0b\n"), None);
    assert_eq!(shebang_interpreter(b"#! /a b\n"), Some(&b"/a"[..]));
}

fn stat(flags: u32, mode: u32, mtime: i64) -> Option<FileStat> {
    Some(FileStat { flags, mode, mtime })
}

const RESTRICTED: u32 = 0x0008_0000;

#[test]
fn only_safe_protected_binaries_are_redirected() {
    assert!(is_redirectable(b"/usr/bin/env", stat(RESTRICTED, 0o100755, 0)));
    assert!(!is_redirectable(b"/usr/bin/codesign", stat(RESTRICTED, 0o100755, 0)));
    assert!(!is_redirectable(b"/usr/bin/sudo", stat(RESTRICTED, 0o104755, 0)));
    assert!(!is_redirectable(b"/usr/bin/wall", stat(RESTRICTED, 0o102755, 0)));
    assert!(!is_redirectable(b"/bin/x", stat(0, 0o100755, 0)));
    assert!(!is_redirectable(b"/bin/x", None));
}

#[test]
fn protected_targets_are_redirected_to_their_copy() {
    let mut argv = ShebangArgv::new();
    assert!(matches!(
        Redirect::start(true, false),
        Redirect::Exec(Choice::Original)
    ));
    assert!(matches!(
        Redirect::start(false, true),
        Redirect::Exec(Choice::Original)
    ));
    let step = Redirect::start(true, true);
    let step = step.on_stat(b"/usr/bin/env", stat(RESTRICTED, 0o100755, 0));
    assert!(matches!(step, Redirect::ResignTarget));
    assert!(matches!(
        step.on_copy(true, 2, &mut argv),
        Redirect::Exec(Choice::Copy)
    ));
    assert!(matches!(
        Redirect::ResignTarget.on_copy(false, 2, &mut argv),
        Redirect::Exec(Choice::Original)
    ));
    assert!(argv.as_slice().is_none());
}

fn at_interpreter(window: &[u8]) -> Redirect<'_> {
    let step = Redirect::start(true, true).on_stat(b"/x/pnpm", stat(0, 0o100755, 0));
    assert!(matches!(step, Redirect::StatScript));
    let step = step.on_stat(b"/x/pnpm", stat(0, 0o100755, 0));
    assert!(matches!(step, Redirect::ReadScript));
    step.on_script(Some(window))
}

#[test]
fn scripts_are_redirected_to_the_copy_of_their_interpreter() {
    let step = at_interpreter(b"#!/usr/bin/env node\n");
    assert!(
        matches!(step, Redirect::StatInterpreter { interpreter: b"/usr/bin/env", .. })
    );
    let step = step.on_stat(b"/x/pnpm", stat(RESTRICTED, 0o100755, 0));
    assert!(matches!(step, Redirect::ResignInterpreter { .. }));
    let mut argv = ShebangArgv::new();
    assert!(matches!(
        step.on_copy(true, 2, &mut argv),
        Redirect::Exec(Choice::Interpreter)
    ));
    assert_eq!(argv.as_slice().unwrap().len(), 5);
    assert_eq!(argv.argument(), b"node\0");
}

#[test]
fn failures_fall_back_to_the_original_path() {
    let original = |r: Redirect<'_>| matches!(r, Redirect::Exec(Choice::Original));
    assert!(original(Redirect::StatScript.on_stat(b"/x", None)));
    assert!(original(
        Redirect::StatScript.on_stat(b"/x", stat(0, 0o40755, 0))
    ));
    assert!(original(Redirect::ReadScript.on_script(None)));
    assert!(original(at_interpreter(b"\x7fELF\n")));
    let step = at_interpreter(b"#!/opt/node\n");
    assert!(original(step.on_stat(b"/x", stat(0, 0o100755, 0))));
    let resign = |argument: &'static [u8]| Redirect::ResignInterpreter {
        interpreter: b"/bin/sh",
        argument,
    };
    let mut argv = ShebangArgv::new();
    assert!(original(resign(b"").on_copy(false, 1, &mut argv)));
    assert!(original(resign(&[b'x'; 128]).on_copy(true, 1, &mut argv)));
    assert!(original(resign(b"").on_copy(true, 100, &mut argv)));
    assert!(argv.as_slice().is_none());
}

#[test]
fn the_path_of_an_interpreter_ends_at_its_nul() {
    let step = at_interpreter(b"#!/bin/sh\0x -e\n");
    assert!(matches!(
        step,
        Redirect::StatInterpreter { interpreter: b"/bin/sh", argument: b"-e" }
    ));
    assert!(matches!(
        step.on_stat(b"/x", stat(RESTRICTED, 0o100755, 0)),
        Redirect::ResignInterpreter { interpreter: b"/bin/sh", argument: b"-e" }
    ));
    // There is no file with an empty path.
    let step = at_interpreter(b"#!\0/bin/sh\n");
    assert!(matches!(step, Redirect::StatInterpreter { interpreter: b"", .. }));
    assert!(matches!(
        step.on_stat(b"/x", None),
        Redirect::Exec(Choice::Original)
    ));
    // Never the signer itself.
    let step = at_interpreter(b"#!/usr/bin/codesign\0x\n");
    assert!(matches!(
        step.on_stat(b"/x", stat(RESTRICTED, 0o100755, 0)),
        Redirect::Exec(Choice::Original)
    ));
    assert_eq!(path_in(b"/bin/sh"), b"/bin/sh");
}

#[test]
fn copies_are_made_signed_and_renamed() {
    let mut out = CPathBuffer::new();
    assert_eq!(
        Resign::start(b"/cache", b"/bin/sh", &mut out),
        Resign::CompareTimes
    );
    assert_eq!(
        Resign::on_times(stat(0, 0, 5), stat(0, 0, 5)),
        Resign::Done(true)
    );
    assert_eq!(
        Resign::on_times(stat(0, 0, 4), stat(0, 0, 5)),
        Resign::MakeParents
    );
    assert_eq!(Resign::on_times(None, stat(0, 0, 5)), Resign::MakeParents);
    let mut tmp = CPathBuffer::new();
    assert_eq!(Resign::on_parents(&out, 12, &mut tmp), Resign::Copy);
    assert_eq!(tmp.as_bytes(), b"/cache/bin/sh.12.tmp");
    assert_eq!(
        Resign::Copy.on_work(true).on_work(true).on_work(true),
        Resign::Done(true)
    );
    for step in [Resign::Copy, Resign::Sign, Resign::Rename] {
        assert_eq!(step.on_work(false), Resign::Discard);
    }
    assert_eq!(Resign::Discard.on_work(true), Resign::Done(false));
    assert_eq!(
        Resign::start(&[b'a'; 1024], b"/bin/sh", &mut out),
        Resign::Done(false)
    );
    assert_eq!(out.set_concat(&[b'a'; 1023], b""), Some(()));
    assert_eq!(Resign::on_parents(&out, 12, &mut tmp), Resign::Done(false));
}

#[test]
fn files_are_copied_block_by_block() {
    let step = CopyFile::Read.on_read(10);
    assert_eq!(step, CopyFile::Write { start: 0, end: 10 });
    let step = step.on_write(4);
    assert_eq!(step, CopyFile::Write { start: 4, end: 10 });
    assert_eq!(step.on_write(0), CopyFile::Done(false));
    assert_eq!(step.on_write(-1), CopyFile::Done(false));
    assert_eq!(step.on_write(6), CopyFile::Read);
    assert_eq!(CopyFile::Read.on_read(0), CopyFile::Done(true));
    assert_eq!(CopyFile::Read.on_read(-1), CopyFile::Done(false));
}

#[test]
fn the_signer_is_run_and_waited_for() {
    assert_eq!(
        codesign_args(b"/tmp/x"),
        [
            &b"/usr/bin/codesign"[..],
            &b"-s"[..],
            &b"-"[..],
            &b"-f"[..],
            &b"/tmp/x"[..],
        ]
    );
    assert_eq!(waited(5, false), Waited::Ended);
    assert_eq!(waited(-1, true), Waited::Again);
    assert_eq!(waited(-1, false), Waited::Failed);
    assert!(signed(true, 0));
    assert!(!signed(true, 1));
    assert!(!signed(false, 0));
}

#[test]
fn protected_binaries_are_warned_of() {
    assert!(sip_enabled(1));
    assert!(!sip_enabled(0));
    assert!(matches!(Check::start(true, false), Check::Exec));
    assert!(matches!(Check::start(false, true), Check::Exec));
    let step = Check::start(true, true);
    assert!(matches!(
        step.on_stat(stat(RESTRICTED, 0o104755, 0)),
        Check::WarnOfTarget
    ));
    let step = Check::start(true, true).on_stat(None);
    assert!(matches!(step, Check::StatScript));
    let step = step.on_stat(stat(0, 0o100755, 0));
    assert!(matches!(step, Check::ReadScript));
    let step = step.on_script(Some(b"#! \t/usr/bin/env\tnode\n"));
    assert!(matches!(step, Check::StatInterpreter(b"/usr/bin/env")));
    assert!(matches!(
        step.on_stat(stat(RESTRICTED, 0o100755, 0)),
        Check::WarnOfInterpreter(b"/usr/bin/env")
    ));
    assert!(matches!(
        Check::StatInterpreter(b"").on_stat(None),
        Check::Exec
    ));
    assert!(matches!(Check::StatScript.on_stat(None), Check::Exec));
    assert!(matches!(Check::ReadScript.on_script(None), Check::Exec));
}

#[test]
fn the_warning_names_the_binary() {
    let text = "CodSpeed could not profile the system process `/usr/bin/env`. System Integrity \
                Protection (SIP) removes the DYLD_INSERT_LIBRARIES environment variable that \
                samply uses to attach to a process whenever a protected Apple system binary is \
                executed, so this process and its children are invisible to the profiler. See \
                https://codspeed.io/docs/instruments/walltime/macos-profiling for more \
                information.\n";
    assert_eq!(
        Warning::of(b"/usr/bin/env", false).as_bytes(),
        format!("[CodSpeed] warning: {text}").as_bytes()
    );
    assert_eq!(
        Warning::of(b"/usr/bin/env", true).as_bytes(),
        format!("::warning title=CodSpeed cannot profile a system process::{text}").as_bytes()
    );
    assert!(in_github_actions(Some(b"true")));
    assert!(!in_github_actions(Some(b"1")));
    assert!(!in_github_actions(None));
}

#[test]
fn warnings_without_room_are_cut_off() {
    let unknown = Warning::of(b"\xff\xfe", false);
    assert!(unknown
        .as_bytes()
        .starts_with(b"[CodSpeed] warning: CodSpeed could not profile the system process `<unknown>`."));
    assert_eq!(
        Warning::of(&[b'x'; 1000], false).as_bytes(),
        b"[CodSpeed] warning: CodSpeed could not profile the system process `"
    );
}
