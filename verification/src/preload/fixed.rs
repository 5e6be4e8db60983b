//! Collections of a fixed capacity that live on the stack: there is no allocator in a preload.

use vstd::prelude::*;
use vstd::string::*;

verus! {

/// The size of the longest path, with its terminating nul.
pub const PATH_MAX: usize = 1024;

/// The most bytes of a message.
pub const MESSAGE_MAX: usize = 1024;

/// `heapless::Vec`: a vector of at most `N` items.
#[verifier::external_type_specification]
#[verifier::external_body]
#[verifier::reject_recursive_types(T)]
pub struct ExHeaplessVec<T, const N: usize>(heapless::Vec<T, N>);

/// `heapless::String`: a string of at most `N` bytes.
#[verifier::external_type_specification]
#[verifier::external_body]
pub struct ExHeaplessString<const N: usize>(heapless::String<N>);

/// The bytes in a path buffer.
pub uninterp spec fn path_bytes(v: heapless::Vec<u8, PATH_MAX>) -> Seq<u8>;

/// Calls `heapless::Vec::new`, which gives an empty vector.
#[verifier::external_body]
pub(crate) fn new_path() -> (res: heapless::Vec<u8, PATH_MAX>)
    ensures
        path_bytes(res) == Seq::<u8>::empty(),
{
    heapless::Vec::new()
}

/// Calls `heapless::Vec::clear`, which removes all items.
#[verifier::external_body]
pub(crate) fn clear_path(v: &mut heapless::Vec<u8, PATH_MAX>)
    ensures
        path_bytes(*final(v)) == Seq::<u8>::empty(),
{
    v.clear();
}

/// Calls `heapless::Vec::extend_from_slice`, which appends the items if there is room for all
/// of them, and otherwise changes nothing and returns an error.
#[verifier::external_body]
pub(crate) fn extend_path(v: &mut heapless::Vec<u8, PATH_MAX>, bytes: &[u8]) -> (res: bool)
    ensures
        res == (path_bytes(*old(v)).len() + bytes@.len() <= PATH_MAX),
        path_bytes(*final(v)) == (if res {
            path_bytes(*old(v)) + bytes@
        } else {
            path_bytes(*old(v))
        }),
{
    v.extend_from_slice(bytes).is_ok()
}

/// Calls `heapless::Vec::push`, which appends the item if there is room for it, and otherwise
/// changes nothing and returns it.
#[verifier::external_body]
pub(crate) fn push_to_path(v: &mut heapless::Vec<u8, PATH_MAX>, byte: u8) -> (res: bool)
    ensures
        res == (path_bytes(*old(v)).len() < PATH_MAX),
        path_bytes(*final(v)) == (if res {
            path_bytes(*old(v)).push(byte)
        } else {
            path_bytes(*old(v))
        }),
{
    v.push(byte).is_ok()
}

/// Calls `heapless::Vec::as_slice`, which gives all items.
#[verifier::external_body]
pub(crate) fn path_slice(v: &heapless::Vec<u8, PATH_MAX>) -> (res: &[u8])
    ensures
        res@ == path_bytes(*v),
        res@.len() <= PATH_MAX,
{
    v.as_slice()
}

/// The bytes of a message.
pub uninterp spec fn message_bytes(s: heapless::String<MESSAGE_MAX>) -> Seq<u8>;

/// Calls `heapless::String::new`, which gives an empty string.
#[verifier::external_body]
pub(crate) fn new_message() -> (res: heapless::String<MESSAGE_MAX>)
    ensures
        message_bytes(res) == Seq::<u8>::empty(),
{
    heapless::String::new()
}

/// Calls `heapless::String::push_str`, which appends the text if there is room for all of it,
/// and otherwise changes nothing and returns an error.
#[verifier::external_body]
pub(crate) fn push_to_message(s: &mut heapless::String<MESSAGE_MAX>, text: &str) -> (res: bool)
    ensures
        res == (message_bytes(*old(s)).len() + text.spec_bytes().len() <= MESSAGE_MAX),
        message_bytes(*final(s)) == (if res {
            message_bytes(*old(s)) + text.spec_bytes()
        } else {
            message_bytes(*old(s))
        }),
{
    s.push_str(text).is_ok()
}

/// Calls `heapless::String::as_str`, which gives the whole text.
#[verifier::external_body]
pub(crate) fn message_text(s: &heapless::String<MESSAGE_MAX>) -> (res: &str)
    ensures
        res.spec_bytes() == message_bytes(*s),
{
    s.as_str()
}

/// Max slots in a rebuilt argv for shebang redirects.
pub const MAX_SHEBANG_ARGS: usize = 64;

/// What a slot of a rebuilt argv points to.
#[derive(Clone, Copy, Debug, PartialEq, Eq, Structural)]
pub enum ArgvSlot {
    /// The path of the interpreter.
    Interpreter,
    /// The argument of the interpreter.
    Argument,
    /// The path of the script.
    Script,
    /// An argument of the original argv, by its index there.
    Original(usize),
    /// Nothing: the null at the end.
    End,
}

/// The slots of an argv.
pub uninterp spec fn argv_slots(v: heapless::Vec<ArgvSlot, MAX_SHEBANG_ARGS>) -> Seq<ArgvSlot>;

/// Calls `heapless::Vec::new`, which gives an empty vector.
#[verifier::external_body]
pub(crate) fn new_argv() -> (res: heapless::Vec<ArgvSlot, MAX_SHEBANG_ARGS>)
    ensures
        argv_slots(res) == Seq::<ArgvSlot>::empty(),
{
    heapless::Vec::new()
}

/// Calls `heapless::Vec::push`, which appends the item if there is room for it, and otherwise
/// changes nothing and returns it.
#[verifier::external_body]
pub(crate) fn push_to_argv(
    v: &mut heapless::Vec<ArgvSlot, MAX_SHEBANG_ARGS>,
    slot: ArgvSlot,
) -> (res: bool)
    ensures
        res == (argv_slots(*old(v)).len() < MAX_SHEBANG_ARGS),
        argv_slots(*final(v)) == (if res {
            argv_slots(*old(v)).push(slot)
        } else {
            argv_slots(*old(v))
        }),
{
    v.push(slot).is_ok()
}

/// Calls `heapless::Vec::as_slice`, which gives all items.
#[verifier::external_body]
pub(crate) fn argv_slice(v: &heapless::Vec<ArgvSlot, MAX_SHEBANG_ARGS>) -> (res: &[ArgvSlot])
    ensures
        res@ == argv_slots(*v),
        res@.len() <= MAX_SHEBANG_ARGS,
{
    v.as_slice()
}

} // verus!
