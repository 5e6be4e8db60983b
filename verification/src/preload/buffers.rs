//! Stack-allocated, caller-owned buffers used by the hooks: a nul-terminated C
//! path builder and a rebuilt-argv builder for shebang redirects. Everything
//! these hand to `exec`/`posix_spawn` must outlive the call, so they live in the
//! hook's own frame.

use crate::preload::fixed::{argv_slice, argv_slots, clear_path, extend_path, new_argv, new_path,
    path_bytes, path_slice, push_to_argv, push_to_path, ArgvSlot, MAX_SHEBANG_ARGS, PATH_MAX};
use crate::text::decimal;
use vstd::prelude::*;
use vstd::slice::slice_subrange;
use vstd::string::*;
use vstd::utf8::encode_utf8;

verus! {

/// The pieces one after another, as far as they fit into `capacity`, and whether all of them
/// do. What follows a piece that does not fit is left out.
pub open spec fn filled(pieces: Seq<Seq<u8>>, capacity: nat) -> (Seq<u8>, bool)
    decreases pieces.len(),
{
    if pieces.len() == 0 {
        (seq![], true)
    } else {
        let (before, fits) = filled(pieces.drop_last(), capacity);
        if fits && before.len() + pieces.last().len() <= capacity {
            (before + pieces.last(), true)
        } else {
            (before, false)
        }
    }
}

/// The pieces one after another.
pub open spec fn joined(pieces: Seq<Seq<u8>>) -> Seq<u8>
    decreases pieces.len(),
{
    if pieces.len() == 0 {
        seq![]
    } else {
        joined(pieces.drop_last()) + pieces.last()
    }
}

/// All pieces are there just if they have room together.
pub proof fn pieces_fit_if_there_is_room(pieces: Seq<Seq<u8>>, capacity: nat)
    ensures
        filled(pieces, capacity).1 <==> joined(pieces).len() <= capacity,
        filled(pieces, capacity).1 ==> filled(pieces, capacity).0 == joined(pieces),
        filled(pieces, capacity).0.len() <= capacity,
    decreases pieces.len(),
{
    if pieces.len() > 0 {
        pieces_fit_if_there_is_room(pieces.drop_last(), capacity);
    }
}

pub proof fn lemma_filled_push(pieces: Seq<Seq<u8>>, piece: Seq<u8>, capacity: nat)
    ensures
        filled(pieces.push(piece), capacity) == (if filled(pieces, capacity).1 && filled(
            pieces,
            capacity,
        ).0.len() + piece.len() <= capacity {
            (filled(pieces, capacity).0 + piece, true)
        } else {
            (filled(pieces, capacity).0, false)
        }),
{
    assert(pieces.push(piece).drop_last() =~= pieces);
}

/// `itoa::Buffer`: the memory that digits are written to.
#[verifier::external_type_specification]
#[verifier::external_body]
pub struct ExItoaBuffer(itoa::Buffer);

/// Calls `itoa::Buffer::new`. Nothing is claimed of the memory.
#[verifier::external_body]
fn new_digits() -> (res: itoa::Buffer) {
    itoa::Buffer::new()
}

/// Calls `itoa::Buffer::format`, which gives the decimal digits of the number, without leading
/// zeros.
#[verifier::external_body]
fn format_number<'a>(buffer: &'a mut itoa::Buffer, n: u32) -> (res: &'a str)
    ensures
        res@ == decimal(n as nat),
{
    buffer.format(n)
}

/// A nul-terminated path.
pub struct CPathBuffer {
    bytes: heapless::Vec<u8, PATH_MAX>,
}

impl View for CPathBuffer {
    type V = Seq<u8>;

    /// All bytes, with the nul.
    closed spec fn view(&self) -> Seq<u8> {
        path_bytes(self.bytes)
    }
}

/// The pieces of `<dst>.<pid>.tmp`.
pub open spec fn tmp_path_pieces(dst: Seq<u8>, pid: u32) -> Seq<Seq<u8>> {
    seq![dst, seq![0x2eu8], encode_utf8(decimal(pid as nat)), ".tmp".spec_bytes(), seq![0u8]]
}

/// The bytes in front of the nul.
pub open spec fn without_nul(bytes: Seq<u8>) -> Seq<u8> {
    if bytes.len() > 0 {
        bytes.drop_last()
    } else {
        bytes
    }
}

impl CPathBuffer {
    pub fn new() -> (res: Self)
        ensures
            res@ == Seq::<u8>::empty(),
    {
        CPathBuffer { bytes: new_path() }
    }

    /// The path with its nul.
    pub fn as_bytes_with_nul(&self) -> (res: &[u8])
        ensures
            res@ == self@,
    {
        path_slice(&self.bytes)
    }

    /// The path without its nul.
    pub fn as_bytes(&self) -> (res: &[u8])
        ensures
            res@ == without_nul(self@),
            res@.len() < PATH_MAX,
    {
        let all = path_slice(&self.bytes);
        if all.len() > 0 {
            let res = slice_subrange(all, 0, all.len() - 1);
            assert(res@ =~= self@.drop_last());
            res
        } else {
            all
        }
    }

    fn extend(&mut self, bytes: &[u8], Ghost(pieces): Ghost<Seq<Seq<u8>>>) -> (res: bool)
        requires
            filled(pieces, PATH_MAX as nat) == (old(self)@, true),
        ensures
            (final(self)@, res) == filled(pieces.push(bytes@), PATH_MAX as nat),
    {
        proof {
            lemma_filled_push(pieces, bytes@, PATH_MAX as nat);
        }
        extend_path(&mut self.bytes, bytes)
    }

    fn push(&mut self, byte: u8, Ghost(pieces): Ghost<Seq<Seq<u8>>>) -> (res: bool)
        requires
            filled(pieces, PATH_MAX as nat) == (old(self)@, true),
        ensures
            (final(self)@, res) == filled(pieces.push(seq![byte]), PATH_MAX as nat),
    {
        proof {
            lemma_filled_push(pieces, seq![byte], PATH_MAX as nat);
            assert(old(self)@ + seq![byte] =~= old(self)@.push(byte));
        }
        push_to_path(&mut self.bytes, byte)
    }
}

/// Behind a piece that does not fit nothing changes.
pub proof fn lemma_filled_stops(pieces: Seq<Seq<u8>>, n: int, capacity: nat)
    requires
        0 <= n <= pieces.len(),
        !filled(pieces.take(n), capacity).1,
    ensures
        filled(pieces, capacity) == filled(pieces.take(n), capacity),
    decreases pieces.len() - n,
{
    if n < pieces.len() {
        assert(pieces.take(n + 1).drop_last() =~= pieces.take(n));
        lemma_filled_stops(pieces, n + 1, capacity);
    } else {
        assert(pieces.take(n) =~= pieces);
    }
}

impl CPathBuffer {
    /// Appends the bytes as the next of the pieces. If it returns `false`, so do all that
    /// follow.
    fn extend_next(
        &mut self,
        bytes: &[u8],
        Ghost(pieces): Ghost<Seq<Seq<u8>>>,
        Ghost(n): Ghost<int>,
    ) -> (res: bool)
        requires
            0 <= n < pieces.len(),
            pieces[n] == bytes@,
            filled(pieces.take(n), PATH_MAX as nat) == (old(self)@, true),
        ensures
            (final(self)@, res) == filled(pieces.take(n + 1), PATH_MAX as nat),
            !res ==> filled(pieces, PATH_MAX as nat) == (final(self)@, false),
    {
        let res = self.extend(bytes, Ghost(pieces.take(n)));
        proof {
            assert(pieces.take(n).push(bytes@) =~= pieces.take(n + 1));
            if !res {
                lemma_filled_stops(pieces, n + 1, PATH_MAX as nat);
            }
        }
        res
    }

    /// Appends the byte as the next of the pieces.
    fn push_next(
        &mut self,
        byte: u8,
        Ghost(pieces): Ghost<Seq<Seq<u8>>>,
        Ghost(n): Ghost<int>,
    ) -> (res: bool)
        requires
            0 <= n < pieces.len(),
            pieces[n] == seq![byte],
            filled(pieces.take(n), PATH_MAX as nat) == (old(self)@, true),
        ensures
            (final(self)@, res) == filled(pieces.take(n + 1), PATH_MAX as nat),
            !res ==> filled(pieces, PATH_MAX as nat) == (final(self)@, false),
    {
        let res = self.push(byte, Ghost(pieces.take(n)));
        proof {
            assert(pieces.take(n).push(seq![byte]) =~= pieces.take(n + 1));
            if !res {
                lemma_filled_stops(pieces, n + 1, PATH_MAX as nat);
            }
        }
        res
    }

    /// Makes this the path that consists of `a` and `b`. Without room for it, the buffer holds
    /// no path.
    pub fn set_concat(&mut self, a: &[u8], b: &[u8]) -> (res: Option<()>)
        ensures
            (final(self)@, res is Some) == filled(seq![a@, b@, seq![0u8]], PATH_MAX as nat),
    {
        let ghost pieces = seq![a@, b@, seq![0u8]];
        clear_path(&mut self.bytes);
        assert(pieces.take(0) =~= seq![]);
        assert(pieces.take(3) =~= pieces);
        if self.extend_next(a, Ghost(pieces), Ghost(0)) && self.extend_next(
            b,
            Ghost(pieces),
            Ghost(1),
        ) && self.push_next(0, Ghost(pieces), Ghost(2)) {
            Some(())
        } else {
            None
        }
    }

    /// `<dst>.<pid>.tmp` for an atomic build. Returns whether there was room for it; without,
    /// the buffer holds no path.
    pub fn set_tmp_path(&mut self, dst: &CPathBuffer, pid: u32) -> (res: bool)
        ensures
            (final(self)@, res) == filled(
                tmp_path_pieces(without_nul(dst@), pid),
                PATH_MAX as nat,
            ),
    {
        let ghost pieces = tmp_path_pieces(without_nul(dst@), pid);
        let mut digits = new_digits();
        let pid = format_number(&mut digits, pid);
        clear_path(&mut self.bytes);
        assert(pieces.take(0) =~= seq![]);
        assert(pieces.take(5) =~= pieces);
        self.extend_next(dst.as_bytes(), Ghost(pieces), Ghost(0)) && self.push_next(
            0x2e,
            Ghost(pieces),
            Ghost(1),
        ) && self.extend_next(pid.as_bytes(), Ghost(pieces), Ghost(2))
            && self.extend_next(".tmp".as_bytes(), Ghost(pieces), Ghost(3)) && self.push_next(
            0,
            Ghost(pieces),
            Ghost(4),
        )
    }

    /// The end of the next parent directory of the path, whose end is at `from` or behind it.
    /// `mkdir -p` makes a directory of each of these prefixes, the shortest first.
    pub fn parent_dir(&self, from: usize) -> (res: Option<usize>)
        ensures
            match res {
                Some(i) => is_first_parent(without_nul(self@), from as int, i as int),
                None => forall|i: int| from <= i ==> !is_parent_end(without_nul(self@), i),
            },
    {
        let bytes = self.as_bytes();
        let ghost path = without_nul(self@);
        let mut i: usize = if from > 0 {
            from
        } else {
            1
        };
        while i < bytes.len()
            invariant
                bytes@ == path,
                path == without_nul(self@),
                from <= i,
                1 <= i,
                forall|j: int| from <= j < i ==> !is_parent_end(path, j),
            decreases bytes@.len() - i,
        {
            if bytes[i] == 0x2f {
                return Some(i);
            }
            i = i + 1;
        }
        None
    }
}

/// Whether a directory on the way to the path ends at `i`: there is a slash, but not at the
/// start.
pub open spec fn is_parent_end(path: Seq<u8>, i: int) -> bool {
    1 <= i < path.len() && path[i] == 0x2f
}

/// Whether `i` is the first end of such a directory from `from` on.
pub open spec fn is_first_parent(path: Seq<u8>, from: int, i: int) -> bool {
    &&& from <= i
    &&& is_parent_end(path, i)
    &&& forall|j: int| from <= j < i ==> !is_parent_end(path, j)
}

/// Max bytes for the inline shebang-argument backing store (e.g. "node").
pub const SHEBANG_ARG_CAP: usize = 128;

/// A rebuilt argv, and the argument of the interpreter that it points to.
#[verifier::ext_equal]
pub struct Argv {
    pub slots: Seq<ArgvSlot>,
    /// With its nul.
    pub argument: Seq<u8>,
}

impl Argv {
    /// Without slots, so that the original argv stands.
    pub open spec fn is_unused(&self) -> bool {
        self.slots.len() == 0
    }

    /// Ready to use: it starts with the interpreter and ends with its only null.
    pub open spec fn is_complete(&self) -> bool {
        &&& 0 < self.slots.len() <= MAX_SHEBANG_ARGS
        &&& self.slots[0] == ArgvSlot::Interpreter
        &&& self.slots.last() == ArgvSlot::End
        &&& forall|i: int|
            0 <= i < self.slots.len() - 1 ==> #[trigger] self.slots[i] != ArgvSlot::End
        &&& self.slots.contains(ArgvSlot::Argument) ==> self.argument.len() > 0
            && self.argument.last() == 0
    }
}

/// The slots of the original arguments from `1` up to `argc`.
pub open spec fn original_slots(argc: int) -> Seq<ArgvSlot> {
    Seq::new(
        if argc > 1 {
            (argc - 1) as nat
        } else {
            0
        },
        |i: int| ArgvSlot::Original((i + 1) as usize),
    )
}

/// `[interpreter, argument?, script, original arguments, null]`.
pub open spec fn rebuilt_slots(argument: Seq<u8>, argc: int) -> Seq<ArgvSlot> {
    let start = if argument.len() > 0 {
        seq![ArgvSlot::Interpreter, ArgvSlot::Argument, ArgvSlot::Script]
    } else {
        seq![ArgvSlot::Interpreter, ArgvSlot::Script]
    };
    (start + original_slots(argc)).push(ArgvSlot::End)
}

/// Whether the argv that is to be rebuilt has room in its stores.
pub open spec fn argv_fits(argument: Seq<u8>, argc: int) -> bool {
    argument.len() < SHEBANG_ARG_CAP && rebuilt_slots(argument, argc).len() <= MAX_SHEBANG_ARGS
}

/// The argument of a shebang interpreter, with its nul.
struct ShebangArgument {
    buf: [u8; SHEBANG_ARG_CAP],
    len: usize,
}

impl ShebangArgument {
    #[verifier::type_invariant]
    spec fn fits(self) -> bool {
        self.len <= SHEBANG_ARG_CAP
    }

    spec fn view(&self) -> Seq<u8> {
        self.buf@.take(self.len as int)
    }

    fn empty() -> (res: Self)
        ensures
            res@ == Seq::<u8>::empty(),
    {
        let res = ShebangArgument { buf: [0; SHEBANG_ARG_CAP], len: 0 };
        assert(res@ =~= seq![]);
        res
    }

    fn with_nul(bytes: &[u8]) -> (res: Self)
        requires
            bytes@.len() < SHEBANG_ARG_CAP,
        ensures
            res@ == bytes@.push(0),
    {
        let mut buf: [u8; SHEBANG_ARG_CAP] = [0; SHEBANG_ARG_CAP];
        let mut i: usize = 0;
        while i < bytes.len()
            invariant
                i <= bytes@.len() < SHEBANG_ARG_CAP,
                buf@.take(i as int) == bytes@.take(i as int),
            decreases bytes@.len() - i,
        {
            let ghost before = buf@;
            buf[i] = bytes[i];
            assert(buf@.take(i + 1) =~= before.take(i as int).push(bytes@[i as int]));
            assert(bytes@.take(i + 1) =~= bytes@.take(i as int).push(bytes@[i as int]));
            i = i + 1;
        }
        let ghost before = buf@;
        buf[i] = 0;
        assert(buf@.take(i + 1) =~= before.take(i as int).push(0));
        assert(bytes@.take(i as int) =~= bytes@);
        ShebangArgument { buf, len: i + 1 }
    }

    fn as_slice(&self) -> (res: &[u8])
        ensures
            res@ == self@,
    {
        proof {
            use_type_invariant(self);
        }
        slice_subrange(self.buf.as_slice(), 0, self.len)
    }
}

/// Stack-allocated argv for shebang redirects. A complete one ends with a null, so `as_slice`
/// returns a ready-to-use, null-terminated argv.
pub struct ShebangArgv {
    slots: heapless::Vec<ArgvSlot, MAX_SHEBANG_ARGS>,
    /// Backing storage for the optional shebang interpreter argument. This must
    /// live as long as the rebuilt argv (i.e. in the caller's frame, alongside
    /// `slots`), because one of `slots` points into it.
    argument: ShebangArgument,
}

impl View for ShebangArgv {
    type V = Argv;

    closed spec fn view(&self) -> Argv {
        Argv { slots: argv_slots(self.slots), argument: self.argument@ }
    }
}

impl ShebangArgv {
    pub fn new() -> (res: Self)
        ensures
            res@ == (Argv { slots: seq![], argument: seq![] }),
    {
        let res = ShebangArgv { slots: new_argv(), argument: ShebangArgument::empty() };
        assert(res@.slots =~= seq![]);
        assert(res@.argument =~= seq![]);
        res
    }

    /// Appends a slot. Returns false, and changes nothing, without room for it.
    pub fn push(&mut self, slot: ArgvSlot) -> (res: bool)
        ensures
            res == (old(self)@.slots.len() < MAX_SHEBANG_ARGS),
            final(self)@ == (if res {
                Argv { slots: old(self)@.slots.push(slot), argument: old(self)@.argument }
            } else {
                old(self)@
            }),
    {
        push_to_argv(&mut self.slots, slot)
    }

    /// Copy `bytes` into the owned store (nul-terminating) and push a
    /// slot for it. Returns false on overflow of either store. Bytes without room are not
    /// copied; those that are copied stay, even if there is no slot for them.
    pub fn push_arg_bytes(&mut self, bytes: &[u8]) -> (res: bool)
        ensures
            res == (bytes@.len() < SHEBANG_ARG_CAP && old(self)@.slots.len() < MAX_SHEBANG_ARGS),
            final(self)@ == (if bytes@.len() < SHEBANG_ARG_CAP {
                Argv {
                    slots: if res {
                        old(self)@.slots.push(ArgvSlot::Argument)
                    } else {
                        old(self)@.slots
                    },
                    argument: bytes@.push(0),
                }
            } else {
                old(self)@
            }),
    {
        if bytes.len() >= SHEBANG_ARG_CAP {
            return false;
        }
        self.argument = ShebangArgument::with_nul(bytes);
        push_to_argv(&mut self.slots, ArgvSlot::Argument)
    }

    /// The slots, if this has been filled.
    pub fn as_slice(&self) -> (res: Option<&[ArgvSlot]>)
        ensures
            match res {
                Some(slots) => slots@ == self@.slots && !self@.is_unused(),
                None => self@.is_unused(),
            },
    {
        let slots = argv_slice(&self.slots);
        if slots.len() == 0 {
            None
        } else {
            Some(slots)
        }
    }

    /// The argument of the interpreter, with its nul.
    pub fn argument(&self) -> (res: &[u8])
        ensures
            res@ == self@.argument,
    {
        self.argument.as_slice()
    }

    fn try_rebuild(argument: &[u8], argc: usize) -> (res: Option<Self>)
        ensures
            res is Some <==> argv_fits(argument@, argc as int),
            res matches Some(argv) ==> argv@ == (Argv {
                slots: rebuilt_slots(argument@, argc as int),
                argument: if argument@.len() > 0 {
                    argument@.push(0)
                } else {
                    seq![]
                },
            }),
    {
        let mut argv = ShebangArgv::new();
        if !argv.push(ArgvSlot::Interpreter) {
            return None;
        }
        if argument.len() > 0 && !argv.push_arg_bytes(argument) {
            return None;
        }
        if !argv.push(ArgvSlot::Script) {
            return None;
        }
        let ghost start = argv@.slots;
        let ghost all = original_slots(argc as int);
        proof {
            if argument@.len() > 0 {
                assert(start =~= seq![
                    ArgvSlot::Interpreter,
                    ArgvSlot::Argument,
                    ArgvSlot::Script,
                ]);
            } else {
                assert(start =~= seq![ArgvSlot::Interpreter, ArgvSlot::Script]);
            }
        }
        let ghost stored = argv@.argument;
        let mut i: usize = 1;
        assert(argv@.slots =~= start + all.take(0));
        while i < argc
            invariant
                1 <= i,
                i <= argc || argc <= 1 && i == 1,
                all == original_slots(argc as int),
                argument@.len() < SHEBANG_ARG_CAP,
                rebuilt_slots(argument@, argc as int) == (start + all).push(ArgvSlot::End),
                argv@.argument == stored,
                argv@.slots == start + all.take(i - 1),
            decreases argc - i,
        {
            if !argv.push(ArgvSlot::Original(i)) {
                return None;
            }
            assert(start + all.take(i as int) =~= (start + all.take(i - 1)).push(all[i - 1]));
            i = i + 1;
        }
        assert(all.take(i - 1) =~= all);
        if !argv.push(ArgvSlot::End) {
            return None;
        }
        Some(argv)
    }

    /// Makes this the argv `[interpreter, argument?, script, original arguments]`, where the
    /// original argv has `argc` arguments. Returns false on overflow; this is then unused.
    pub fn rebuild(&mut self, argument: &[u8], argc: usize) -> (res: bool)
        ensures
            res == argv_fits(argument@, argc as int),
            final(self)@ == (if res {
                Argv {
                    slots: rebuilt_slots(argument@, argc as int),
                    argument: if argument@.len() > 0 {
                        argument@.push(0)
                    } else {
                        seq![]
                    },
                }
            } else {
                Argv { slots: seq![], argument: seq![] }
            }),
    {
        match Self::try_rebuild(argument, argc) {
            Some(argv) => {
                *self = argv;
                true
            },
            None => {
                *self = ShebangArgv::new();
                false
            },
        }
    }
}

/// A rebuilt argv is ready to use: it starts with the interpreter, and the null at its end is
/// there and is its only one.
pub proof fn a_rebuilt_argv_is_complete(argument: Seq<u8>, argc: int)
    requires
        argv_fits(argument, argc),
    ensures
        (Argv {
            slots: rebuilt_slots(argument, argc),
            argument: if argument.len() > 0 {
                argument.push(0)
            } else {
                seq![]
            },
        }).is_complete(),
{
    let slots = rebuilt_slots(argument, argc);
    if argument.len() == 0 {
        assert(forall|i: int| 0 <= i < slots.len() ==> #[trigger] slots[i] != ArgvSlot::Argument);
    }
}

/// The rebuilt argv starts with the interpreter, its argument if there is one, and the script;
/// the original arguments follow in their order, all but the first; and a null ends it.
pub proof fn the_arguments_follow_the_script(argument: Seq<u8>, argc: int, k: int)
    requires
        0 <= argc <= usize::MAX,
    ensures
        ({
            let slots = rebuilt_slots(argument, argc);
            let script = if argument.len() > 0 {
                2int
            } else {
                1
            };
            &&& slots[0] == ArgvSlot::Interpreter
            &&& argument.len() > 0 ==> slots[1] == ArgvSlot::Argument
            &&& slots[script] == ArgvSlot::Script
            &&& 1 <= k < argc ==> slots[script + k] == ArgvSlot::Original(k as usize)
            &&& slots.last() == ArgvSlot::End
            &&& slots.len() == script + (if argc > 1 {
                argc
            } else {
                1
            }) + 1
        }),
{
}

/// An argv has room just if it has at most 64 slots, with the null at its end, and the argument
/// has at most 127 bytes.
pub proof fn an_argv_has_room_for_so_much(argument: Seq<u8>, argc: int)
    requires
        0 <= argc <= usize::MAX,
    ensures
        argv_fits(argument, argc) <==> argument.len() <= 127 && (if argument.len() > 0 {
            2int
        } else {
            1
        }) + (if argc > 1 {
            argc
        } else {
            1
        }) + 1 <= 64,
{
}

/// A path that is put together from two has the bytes of the first, those of the second and a
/// nul, if these are at most 1024 bytes; otherwise it is no path.
pub proof fn paths_are_put_together(a: Seq<u8>, b: Seq<u8>)
    ensures
        ({
            let (bytes, fits) = filled(seq![a, b, seq![0u8]], 1024);
            &&& fits <==> a.len() + b.len() + 1 <= 1024
            &&& fits ==> bytes == (a + b).push(0) && without_nul(bytes) == a + b
        }),
        PATH_MAX == 1024,
{
    let pieces = seq![a, b, seq![0u8]];
    assert(pieces.drop_last() =~= seq![a, b]);
    assert(pieces.drop_last().drop_last() =~= seq![a]);
    assert(pieces.drop_last().drop_last().drop_last() =~= seq![]);
    reveal_with_fuel(joined, 4);
    pieces_fit_if_there_is_room(pieces, 1024);
    assert(joined(pieces) =~= (a + b).push(0));
    assert((a + b).push(0).drop_last() =~= a + b);
}

/// A temporary path is the path it is for, followed by a dot, the decimal digits of the pid and
/// `.tmp`; so it is another path.
pub proof fn temporary_paths_are_marked(dst: Seq<u8>, pid: u32)
    ensures
        ({
            let (bytes, fits) = filled(tmp_path_pieces(dst, pid), 1024);
            let mark = seq![0x2eu8] + encode_utf8(decimal(pid as nat)) + ".tmp".spec_bytes();
            &&& fits <==> dst.len() + mark.len() + 1 <= 1024
            &&& fits ==> bytes == (dst + mark).push(0) && without_nul(bytes) == dst + mark
                && without_nul(bytes) != dst
        }),
{
    let pieces = tmp_path_pieces(dst, pid);
    let mark = seq![0x2eu8] + encode_utf8(decimal(pid as nat)) + ".tmp".spec_bytes();
    reveal_with_fuel(joined, 6);
    pieces_fit_if_there_is_room(pieces, 1024);
    let p4 = pieces.drop_last();
    let p3 = p4.drop_last();
    let p2 = p3.drop_last();
    let p1 = p2.drop_last();
    assert(p1.drop_last() =~= seq![]);
    assert(joined(pieces) =~= (dst + mark).push(0));
    assert((dst + mark).push(0).drop_last() =~= dst + mark);
    assert((dst + mark).len() > dst.len());
}

/// The directories on the way to a path end at its slashes, all but one at its start, and are
/// found one after another: of two slashes the first, and none is passed over.
pub proof fn directories_end_at_slashes(path: Seq<u8>, from: int, i: int, j: int)
    ensures
        0 < i < path.len() && path[i] == 0x2f ==> is_parent_end(path, i),
        is_parent_end(path, i) ==> 0 < i < path.len() && path[i] == 0x2f,
        is_first_parent(path, from, i) ==> from <= i && 0 < i < path.len() && path[i] == 0x2f,
        is_first_parent(path, from, i) && from <= j < i && 0 < j ==> path[j] != 0x2f,
        from <= i && 0 < i < path.len() && path[i] == 0x2f && (forall|k: int|
            from <= k < i && 0 < k ==> #[trigger] path[k] != 0x2f) ==> is_first_parent(path, from, i),
{
    if is_first_parent(path, from, i) && from <= j < i {
        assert(!is_parent_end(path, j));
    }
}

} // verus!
