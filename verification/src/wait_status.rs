//! Reading the wait status of a process.

use vstd::prelude::*;

verus! {

/// The process was ended by a signal.
pub open spec fn was_signaled(status: i32) -> bool {
    status & 0x7f != 0 && status & 0x7f != 0x7f
}

/// The exit code of a process that ended by itself.
pub open spec fn exit_code(status: i32) -> i32 {
    (status >> 8) & 0xff
}

/// Calls `libc::WIFSIGNALED`. The low seven bits of the status are the number
/// of the signal: zero if the process exited, all ones if it was stopped.
#[verifier::external_body]
pub(crate) fn is_signaled(status: i32) -> (r: bool)
    ensures
        r == was_signaled(status),
{
    libc::WIFSIGNALED(status)
}

/// Calls `libc::WEXITSTATUS`. The result is the second byte of the status.
#[verifier::external_body]
pub(crate) fn exit_status(status: i32) -> (r: i32)
    ensures
        r == exit_code(status),
{
    libc::WEXITSTATUS(status)
}

/// A process that exits with a code has it in the second byte of its status; one
/// that a signal ends has the signal in the lowest seven bits, with the eighth
/// set if it left a core dump.
pub proof fn endings_are_told_apart(code: i32, signal: i32, dumped: bool)
    requires
        0 <= code <= 255,
        1 <= signal <= 126,
    ensures
        !was_signaled((256 * code) as i32),
        exit_code((256 * code) as i32) == code,
        was_signaled(
            (signal + if dumped {
                128int
            } else {
                0
            }) as i32,
        ),
{
    let a = (256 * code) as i32;
    assert(0 <= code <= 255 && a == 256 * code ==> a & 0x7f == 0 && (a >> 8) & 0xff == code)
        by (bit_vector);
    let b = (signal + 128) as i32;
    assert(1 <= signal <= 126 ==> signal & 0x7f == signal) by (bit_vector);
    assert(1 <= signal <= 126 && b == signal + 128 ==> b & 0x7f == signal) by (bit_vector);
}

} // verus!
