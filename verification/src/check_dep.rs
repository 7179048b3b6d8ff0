//! Checks before fuzzing begins.

use crate::defs::{DEFER_SIG, PERSIST_SIG, TRACE_SHM_ENV_VAR};
use vstd::prelude::*;

verus! {

/// What a target was built with.
#[derive(Clone, Copy, Debug, PartialEq, Eq, Structural)]
pub struct BinaryKind {
    /// A sanitizer is built in.
    pub uses_asan: bool,
    pub persistent_mode: bool,
    pub deferred_mode: bool,
}

/// Why a target cannot be used.
#[derive(Clone, Copy, Debug, PartialEq, Eq, Structural)]
pub enum BinaryError {
    /// It is too small for an executable.
    TooSmall,
    /// It is not an executable.
    NotElf,
    /// It is not instrumented.
    NotInstrumented,
}

/// The bytes of a text.
pub open spec fn text_bytes(s: Seq<char>) -> Seq<u8> {
    vstd::utf8::encode_utf8(s)
}

/// `pattern` stands at `i` in `text`.
pub open spec fn occurs_at(text: Seq<u8>, pattern: Seq<u8>, i: int) -> bool {
    0 <= i && i + pattern.len() <= text.len() && text.subrange(i, i + pattern.len()) == pattern
}

/// `pattern` stands somewhere in `text`.
pub open spec fn occurs(text: Seq<u8>, pattern: Seq<u8>) -> bool {
    exists|i: int| occurs_at(text, pattern, i)
}

/// Calls `twoway::find_bytes`, which finds the first occurrence of the
/// pattern; an empty pattern is found at the start.
#[verifier::external_body]
pub(crate) fn find_bytes(text: &[u8], pattern: &[u8]) -> (r: Option<usize>)
    ensures
        match r {
            Some(i) => occurs_at(text@, pattern@, i as int) && forall|k: int|
                0 <= k < i ==> !occurs_at(text@, pattern@, k),
            None => r is None && !occurs(text@, pattern@),
        },
{
    twoway::find_bytes(text, pattern)
}

/// Tells whether the bytes of `s` stand somewhere in `data`.
pub fn contains_string(data: &[u8], s: &str) -> (r: bool)
    ensures
        r == occurs(data@, text_bytes(s@)),
{
    find_bytes(data, s.as_bytes()).is_some()
}

/// The file begins as an executable does.
pub open spec fn is_elf(data: Seq<u8>) -> bool {
    data.len() >= 4 && data[0] == 0x7f && data[1] == 0x45 && data[2] == 0x4c && data[3] == 0x46
}

/// Reads off an executable whether it is instrumented, and what it was built
/// with.
pub fn check_binary(data: &[u8]) -> (r: Result<BinaryKind, BinaryError>)
    ensures
        r == if data@.len() < 4 {
            Err::<BinaryKind, BinaryError>(BinaryError::TooSmall)
        } else if !is_elf(data@) {
            Err(BinaryError::NotElf)
        } else if !occurs(data@, text_bytes(TRACE_SHM_ENV_VAR@)) {
            Err(BinaryError::NotInstrumented)
        } else {
            Ok(
                BinaryKind {
                    uses_asan: occurs(data@, text_bytes("__asan_init"@)) || occurs(
                        data@,
                        text_bytes("__msan_init"@),
                    ) || occurs(data@, text_bytes("__lsan_init"@)),
                    persistent_mode: occurs(data@, text_bytes(PERSIST_SIG@)),
                    deferred_mode: occurs(data@, text_bytes(DEFER_SIG@)),
                },
            )
        },
{
    if data.len() < 4 {
        return Err(BinaryError::TooSmall);
    }
    if data[0] != 0x7f || data[1] != 0x45 || data[2] != 0x4c || data[3] != 0x46 {
        return Err(BinaryError::NotElf);
    }
    if !contains_string(data, TRACE_SHM_ENV_VAR) {
        return Err(BinaryError::NotInstrumented);
    }
    let uses_asan = contains_string(data, "__asan_init") || contains_string(data, "__msan_init")
        || contains_string(data, "__lsan_init");
    let persistent_mode = contains_string(data, PERSIST_SIG);
    let deferred_mode = contains_string(data, DEFER_SIG);
    Ok(BinaryKind { uses_asan, persistent_mode, deferred_mode })
}

/// What is wrong with the directories.
#[derive(Clone, Copy, Debug, PartialEq, Eq, Structural)]
pub enum DirError {
    /// There is nothing to resume.
    NothingToResume,
    /// There are no seeds.
    NoInputDir,
}

/// What was found on disk.
#[derive(Clone, Copy, Debug, PartialEq, Eq, Structural)]
pub struct DirFacts {
    pub in_dir_exists: bool,
    pub in_dir_is_dir: bool,
    pub out_dir_exists: bool,
}

/// What is wrong with the directories: `-` asks to go on with what was
/// written before.
pub open spec fn dir_error(in_dir: Seq<char>, facts: DirFacts) -> Option<DirError> {
    if in_dir == "-"@ {
        if facts.out_dir_exists {
            None
        } else {
            Some(DirError::NothingToResume)
        }
    } else if facts.in_dir_exists && facts.in_dir_is_dir {
        None
    } else {
        Some(DirError::NoInputDir)
    }
}

/// Checks the directories.
pub fn check_io_dir(in_dir: &str, facts: DirFacts) -> (r: Result<(), DirError>)
    ensures
        match r {
            Ok(_) => dir_error(in_dir@, facts) is None,
            Err(e) => dir_error(in_dir@, facts) == Some(e),
        },
{
    let dash: String = "-".to_owned();
    if in_dir.to_owned() == dash {
        if !facts.out_dir_exists {
            return Err(DirError::NothingToResume);
        }
    } else if !facts.in_dir_exists || !facts.in_dir_is_dir {
        return Err(DirError::NoInputDir);
    }
    Ok(())
}

/// The system hands crashes to a program, which delays them.
pub open spec fn is_piped(core_pattern: Seq<char>) -> bool {
    core_pattern.len() > 0 && core_pattern[0] == '|'
}

/// Tells whether the system hands crashes to a program.
pub fn check_crash_handling(core_pattern: &str) -> (r: bool)
    ensures
        r == is_piped(core_pattern@),
{
    core_pattern.unicode_len() > 0 && core_pattern.get_char(0) == '|'
}

/// Checks the directories and the system. If all is well, tells whether to
/// warn of delayed crashes.
pub fn check_dep(in_dir: &str, facts: DirFacts, core_pattern: &str) -> (r: Result<bool, DirError>)
    ensures
        match r {
            Ok(warn) => dir_error(in_dir@, facts) is None && warn == is_piped(core_pattern@),
            Err(e) => dir_error(in_dir@, facts) == Some(e),
        },
{
    match check_io_dir(in_dir, facts) {
        Ok(_) => Ok(check_crash_handling(core_pattern)),
        Err(e) => Err(e),
    }
}


/// A pattern is found in whatever is put around it, and where it is found it
/// has something around it.
pub proof fn patterns_are_found(before: Seq<u8>, pattern: Seq<u8>, behind: Seq<u8>, text: Seq<u8>)
    ensures
        occurs(before + pattern + behind, pattern),
        occurs(text, pattern) ==> exists|a: Seq<u8>, b: Seq<u8>|
            text == #[trigger] ((a + pattern) + b),
{
    let all = before + pattern + behind;
    assert(all.subrange(before.len() as int, before.len() + pattern.len() as int) =~= pattern);
    assert(occurs_at(all, pattern, before.len() as int));
    if occurs(text, pattern) {
        let i = choose|i: int| occurs_at(text, pattern, i);
        let a = text.take(i);
        let b = text.skip(i + pattern.len());
        assert(text =~= (a + pattern) + b);
    }
}

/// An executable begins with the byte 127 and the letters ELF.
pub proof fn executables_have_a_mark(data: Seq<u8>)
    ensures
        is_elf(data) <==> data.len() >= 4 && data[0] == 127 && data[1] as char == 'E' && data[2]
            as char == 'L' && data[3] as char == 'F',
{
}

/// A run begins from a directory with seeds that is there, or goes on, if a
/// dash is given, from an output directory that is there; a run refused says
/// which of the two is missing.
pub proof fn runs_begin_or_go_on(in_dir: Seq<char>, facts: DirFacts)
    ensures
        in_dir == seq!['-'] ==> {
            &&& dir_error(in_dir, facts) is None <==> facts.out_dir_exists
            &&& dir_error(in_dir, facts) != Some(DirError::NoInputDir)
        },
        in_dir != seq!['-'] ==> {
            &&& dir_error(in_dir, facts) is None <==> facts.in_dir_exists && facts.in_dir_is_dir
            &&& dir_error(in_dir, facts) != Some(DirError::NothingToResume)
        },
{
    reveal_strlit("-");
    assert("-"@ =~= seq!['-']);
}

/// Crashes go to a program if and only if the pattern begins with a bar.
pub proof fn bars_hand_crashes_on(c: char, rest: Seq<char>)
    ensures
        is_piped(seq![c] + rest) <==> c == '|',
        !is_piped(Seq::empty()),
{
}

} // verus!
