//! Copying a file, and running the signer on the copy, step by step.

use vstd::prelude::*;
use vstd::string::*;

verus! {

/// Copying a file, block by block.
#[derive(Clone, Copy, Debug, PartialEq, Eq, Structural)]
pub enum CopyFile {
    /// Read the next block.
    Read,
    /// Write the bytes of the block from `start` to `end`, or the first of them.
    Write { start: usize, end: usize },
    /// The file is copied, or it cannot be.
    Done(bool),
}

impl CopyFile {
    pub open spec fn well_formed(self) -> bool {
        self matches CopyFile::Write { start, end } ==> start < end
    }

    /// Where a read leads that gave `n` bytes; a negative number stands for an error.
    pub open spec fn after_read(n: int) -> CopyFile {
        if n < 0 {
            CopyFile::Done(false)
        } else if n == 0 {
            CopyFile::Done(true)
        } else {
            CopyFile::Write { start: 0, end: n as usize }
        }
    }

    /// Where a write of the bytes from `start` to `end` leads that took `n` of them.
    pub open spec fn after_write(start: usize, end: usize, n: int) -> CopyFile {
        if n <= 0 {
            CopyFile::Done(false)
        } else if start + n >= end {
            CopyFile::Read
        } else {
            CopyFile::Write { start: (start + n) as usize, end }
        }
    }

    /// What `read` returned.
    pub fn on_read(self, n: isize) -> (res: Self)
        requires
            self is Read,
        ensures
            res == Self::after_read(n as int),
            res.well_formed(),
    {
        if n < 0 {
            CopyFile::Done(false)
        } else if n == 0 {
            CopyFile::Done(true)
        } else {
            CopyFile::Write { start: 0, end: n as usize }
        }
    }

    /// What `write` returned: at most the number of bytes that it was given.
    pub fn on_write(self, n: isize) -> (res: Self)
        requires
            self.well_formed(),
            self matches CopyFile::Write { start, end } && n <= end - start,
        ensures
            self matches CopyFile::Write { start, end } && res == Self::after_write(
                start,
                end,
                n as int,
            ),
            res.well_formed(),
    {
        if let CopyFile::Write { start, end } = self {
            if n <= 0 {
                CopyFile::Done(false)
            } else if n as usize >= end - start {
                CopyFile::Read
            } else {
                CopyFile::Write { start: start + n as usize, end }
            }
        } else {
            self
        }
    }
}

/// The number of bytes of a block that remain to be written.
pub open spec fn remaining(state: CopyFile) -> int {
    match state {
        CopyFile::Write { start, end } => end - start,
        _ => 0,
    }
}

/// No byte of a block is left out: each write leaves just the bytes that it did not take, and
/// the next block is read only when none is left.
pub proof fn blocks_are_written_whole(start: usize, end: usize, n: int)
    requires
        start < end,
        0 < n <= end - start,
    ensures
        remaining(CopyFile::after_write(start, end, n)) == end - start - n,
        CopyFile::after_write(start, end, n) is Read <==> n == end - start,
        CopyFile::after_write(start, end, n) matches CopyFile::Write {
            start: s,
            end: e,
        } ==> s == start + n && e == end,
{
}

/// The command that signs a file ad hoc: `/usr/bin/codesign -s - -f <file>`.
pub fn codesign_args<'a>(file: &'a [u8]) -> (res: [&'a [u8]; 5])
    ensures
        pieces_of(res@) == seq![
            "/usr/bin/codesign".spec_bytes(),
            "-s".spec_bytes(),
            "-".spec_bytes(),
            "-f".spec_bytes(),
            file@,
        ],
{
    let res = [
        "/usr/bin/codesign".as_bytes(),
        "-s".as_bytes(),
        "-".as_bytes(),
        "-f".as_bytes(),
        file,
    ];
    assert(pieces_of(res@) =~= seq![
        "/usr/bin/codesign".spec_bytes(),
        "-s".spec_bytes(),
        "-".spec_bytes(),
        "-f".spec_bytes(),
        file@,
    ]);
    res
}

/// The bytes of each of the slices.
pub open spec fn pieces_of(slices: Seq<&[u8]>) -> Seq<Seq<u8>> {
    slices.map_values(|s: &[u8]| s@)
}

/// What waiting for the signer has come to.
#[derive(Clone, Copy, Debug, PartialEq, Eq, Structural)]
pub enum Waited {
    /// Wait again: it was interrupted.
    Again,
    /// Waiting failed.
    Failed,
    /// The signer has ended.
    Ended,
}

/// What `waitpid` came to, which returned `result`.
pub fn waited(result: i32, interrupted: bool) -> (res: Waited)
    ensures
        res == (if result >= 0 {
            Waited::Ended
        } else if interrupted {
            Waited::Again
        } else {
            Waited::Failed
        }),
{
    if result >= 0 {
        Waited::Ended
    } else if interrupted {
        Waited::Again
    } else {
        Waited::Failed
    }
}

/// Whether the signer did its work: it exited, with status 0.
pub fn signed(exited: bool, exit_status: i32) -> (res: bool)
    ensures
        res == (exited && exit_status == 0),
{
    exited && exit_status == 0
}

/// A file is copied when nothing more can be read; an error, in reading or in writing, ends the
/// copying; and a block is written from its start to the end of what was read.
pub proof fn copying_ends_with_the_file_or_an_error(n: int, start: usize, end: usize)
    requires
        n <= isize::MAX,
        start < end,
    ensures
        n < 0 ==> CopyFile::after_read(n) == CopyFile::Done(false),
        n == 0 ==> CopyFile::after_read(n) == CopyFile::Done(true),
        n > 0 ==> CopyFile::after_read(n) == (CopyFile::Write { start: 0, end: n as usize }),
        n <= 0 ==> CopyFile::after_write(start, end, n) == CopyFile::Done(false),
{
}

} // verus!
