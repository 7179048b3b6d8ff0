//! The protocol between the fuzzer and a target's fork server.

use crate::branches::MapSizeData;
use crate::defs::MSAN_ERROR_CODE;
use crate::status::StatusType;
use crate::wait_status::{exit_code, exit_status, is_signaled, was_signaled};
use vstd::prelude::*;

verus! {

/// The first word of a fork server that reports an error.
pub const FS_NEW_ERROR: u32 = 0xeffe0000;

/// The target tells the size of its map.
pub const FS_NEW_OPT_MAPSIZE: u32 = 0x00000001;

/// The target takes inputs from shared memory.
pub const FS_NEW_OPT_SHDMEM_FUZZ: u32 = 0x00000002;

/// The target would send a dictionary.
pub const FS_NEW_OPT_AUTODICT: u32 = 0x00000800;

/// What a fork server can report when it starts.
#[derive(Clone, Copy, Debug, PartialEq, Eq, Structural)]
pub enum FsError {
    /// The map is too small for the target.
    MapSize,
    /// The map cannot be at the address that the target wants.
    MapAddr,
    /// Shared memory could not be opened.
    ShmOpen,
    /// Shared memory could not be attached.
    Shmat,
    /// Shared memory could not be mapped.
    Mmap,
    /// Anything else.
    Unknown { code: u32 },
}

/// What an error code stands for.
pub open spec fn error_of(code: u32) -> FsError {
    if code == 1 {
        FsError::MapSize
    } else if code == 2 {
        FsError::MapAddr
    } else if code == 4 {
        FsError::ShmOpen
    } else if code == 8 {
        FsError::Shmat
    } else if code == 16 {
        FsError::Mmap
    } else {
        FsError::Unknown { code }
    }
}

/// Reads an error code.
pub fn fs_error(code: u32) -> (r: FsError)
    ensures
        r == error_of(code),
{
    if code == 1 {
        FsError::MapSize
    } else if code == 2 {
        FsError::MapAddr
    } else if code == 4 {
        FsError::ShmOpen
    } else if code == 8 {
        FsError::Shmat
    } else if code == 16 {
        FsError::Mmap
    } else {
        FsError::Unknown { code }
    }
}

/// Why a handshake failed.
#[derive(Clone, Copy, Debug, PartialEq, Eq, Structural)]
pub enum HandshakeError {
    /// The fork server reported an error.
    Reported { error: FsError },
    /// The target does not tell its map size, or would send a dictionary.
    BadOptions,
    /// A map is too large.
    TooLarge,
    /// The last word is not the first.
    Mismatch { first: u32, last: u32 },
}

/// The word that a handshake waits for.
#[derive(Clone, Copy, Debug, PartialEq, Eq, Structural)]
pub enum Awaited {
    Version,
    Options,
    MapSize,
    BranchMapSize,
    Closing,
    Nothing,
}

/// What is to be done next.
#[derive(Clone, Copy, Debug, PartialEq, Eq, Structural)]
pub enum HandshakeStep {
    /// Send this word, then read the next.
    Reply { word: u32 },
    /// Read the next word.
    Read,
    /// The fork server is ready.
    Ready,
    /// The target cannot be used.
    Failed { error: HandshakeError },
}

/// A handshake with a fork server.
#[derive(Clone, Copy, Debug, PartialEq, Eq, Structural)]
pub struct Handshake {
    pub awaited: Awaited,
    /// The first word.
    pub keep: u32,
    pub use_shmem_fuzz: bool,
    pub real_map_size: u32,
    pub real_branch_map_size: u32,
}

/// `x` rounded up to a multiple of 64.
pub open spec fn rounded(x: int) -> int {
    (x + 63) / 64 * 64
}

/// Rounding gives the least multiple of 64 that is large enough.
pub proof fn rounding_is_least(x: int, m: int)
    requires
        0 <= x,
    ensures
        rounded(x) % 64 == 0,
        x <= rounded(x) < x + 64,
        m % 64 == 0 && x <= m ==> rounded(x) <= m,
{
}

/// The first word reports an error.
pub open spec fn is_error(word: u32) -> bool {
    word & FS_NEW_ERROR == FS_NEW_ERROR
}

/// The target can be used with these options.
pub open spec fn is_supported(word: u32) -> bool {
    word & FS_NEW_OPT_MAPSIZE != 0 && word & FS_NEW_OPT_AUTODICT == 0
}

impl Handshake {
    /// What is to be done after `word`, and what is known by then.
    pub open spec fn fed(self, word: u32) -> (Handshake, HandshakeStep) {
        match self.awaited {
            Awaited::Version => if is_error(word) {
                (
                    self,
                    HandshakeStep::Failed {
                        error: HandshakeError::Reported { error: error_of(word & 0xffff) },
                    },
                )
            } else {
                (
                    Handshake { awaited: Awaited::Options, keep: word, ..self },
                    HandshakeStep::Reply { word: word ^ 0xffff_ffff },
                )
            },
            Awaited::Options => if !is_supported(word) {
                (self, HandshakeStep::Failed { error: HandshakeError::BadOptions })
            } else {
                (
                    Handshake {
                        awaited: Awaited::MapSize,
                        use_shmem_fuzz: word & FS_NEW_OPT_SHDMEM_FUZZ != 0,
                        ..self
                    },
                    HandshakeStep::Read,
                )
            },
            Awaited::MapSize => if word > u32::MAX - 63 {
                (self, HandshakeStep::Failed { error: HandshakeError::TooLarge })
            } else {
                (
                    Handshake { awaited: Awaited::BranchMapSize, real_map_size: word, ..self },
                    HandshakeStep::Read,
                )
            },
            Awaited::BranchMapSize => if word > u32::MAX - 63 {
                (self, HandshakeStep::Failed { error: HandshakeError::TooLarge })
            } else {
                (
                    Handshake {
                        awaited: Awaited::Closing,
                        real_branch_map_size: if word == 0 {
                            1
                        } else {
                            word
                        },
                        ..self
                    },
                    HandshakeStep::Read,
                )
            },
            Awaited::Closing => if word != self.keep {
                (
                    self,
                    HandshakeStep::Failed {
                        error: HandshakeError::Mismatch { first: self.keep, last: word },
                    },
                )
            } else {
                (Handshake { awaited: Awaited::Nothing, ..self }, HandshakeStep::Ready)
            },
            Awaited::Nothing => (self, HandshakeStep::Ready),
        }
    }

    /// The sizes can be rounded up.
    pub open spec fn wf(self) -> bool {
        self.real_map_size <= u32::MAX - 63 && self.real_branch_map_size <= u32::MAX - 63
    }

    /// A handshake that has not begun.
    pub fn new() -> (r: Self)
        ensures
            r == (Handshake {
                awaited: Awaited::Version,
                keep: 0,
                use_shmem_fuzz: false,
                real_map_size: 0,
                real_branch_map_size: 1,
            }),
            r.wf(),
    {
        Handshake {
            awaited: Awaited::Version,
            keep: 0,
            use_shmem_fuzz: false,
            real_map_size: 0,
            real_branch_map_size: 1,
        }
    }

    /// Takes the next word from the fork server.
    pub fn feed(&mut self, word: u32) -> (r: HandshakeStep)
        requires
            old(self).wf(),
        ensures
            (*final(self), r) == old(self).fed(word),
            final(self).wf(),
    {
        match self.awaited {
            Awaited::Version => {
                if word & FS_NEW_ERROR == FS_NEW_ERROR {
                    return HandshakeStep::Failed {
                        error: HandshakeError::Reported { error: fs_error(word & 0xffff) },
                    };
                }
                self.keep = word;
                self.awaited = Awaited::Options;
                HandshakeStep::Reply { word: word ^ 0xffff_ffff }
            },
            Awaited::Options => {
                if word & FS_NEW_OPT_MAPSIZE == 0 || word & FS_NEW_OPT_AUTODICT != 0 {
                    return HandshakeStep::Failed { error: HandshakeError::BadOptions };
                }
                self.use_shmem_fuzz = word & FS_NEW_OPT_SHDMEM_FUZZ != 0;
                self.awaited = Awaited::MapSize;
                HandshakeStep::Read
            },
            Awaited::MapSize => {
                if word > u32::MAX - 63 {
                    return HandshakeStep::Failed { error: HandshakeError::TooLarge };
                }
                self.real_map_size = word;
                self.awaited = Awaited::BranchMapSize;
                HandshakeStep::Read
            },
            Awaited::BranchMapSize => {
                if word > u32::MAX - 63 {
                    return HandshakeStep::Failed { error: HandshakeError::TooLarge };
                }
                self.real_branch_map_size = if word == 0 {
                    1
                } else {
                    word
                };
                self.awaited = Awaited::Closing;
                HandshakeStep::Read
            },
            Awaited::Closing => {
                if word != self.keep {
                    return HandshakeStep::Failed {
                        error: HandshakeError::Mismatch { first: self.keep, last: word },
                    };
                }
                self.awaited = Awaited::Nothing;
                HandshakeStep::Ready
            },
            Awaited::Nothing => HandshakeStep::Ready,
        }
    }

    /// The sizes of the target's maps: as reported, and rounded up for
    /// efficient access.
    pub fn get_map_size_data(&self) -> (r: MapSizeData)
        requires
            self.wf(),
        ensures
            r.real_map_size == self.real_map_size,
            r.used_map_size == rounded(self.real_map_size as int),
            r.real_branch_map_size == self.real_branch_map_size,
            r.used_branch_map_size == rounded(self.real_branch_map_size as int),
    {
        let used: u32 = (self.real_map_size + 63) / 64 * 64;
        let used_branch: u32 = (self.real_branch_map_size + 63) / 64 * 64;
        MapSizeData::new(
            self.real_map_size as usize,
            used as usize,
            self.real_branch_map_size as usize,
            used_branch as usize,
        )
    }
}

/// A fork server that answers the protocol's five words in their order is
/// ready, and its first word was answered by its complement. What it reported
/// is known; a map of branches has at least one cell.
pub proof fn handshakes_succeed(
    version: u32,
    options: u32,
    map_size: u32,
    branch_map_size: u32,
    h: Handshake,
)
    requires
        h.awaited == Awaited::Version,
        !is_error(version),
        is_supported(options),
        map_size <= u32::MAX - 63,
        branch_map_size <= u32::MAX - 63,
    ensures
        ({
            let (h1, s1) = h.fed(version);
            let (h2, s2) = h1.fed(options);
            let (h3, s3) = h2.fed(map_size);
            let (h4, s4) = h3.fed(branch_map_size);
            let (h5, s5) = h4.fed(version);
            &&& s1 == (HandshakeStep::Reply { word: version ^ 0xffff_ffff })
            &&& s2 == HandshakeStep::Read
            &&& s3 == HandshakeStep::Read
            &&& s4 == HandshakeStep::Read
            &&& s5 == HandshakeStep::Ready
            &&& h5.real_map_size == map_size
            &&& h5.real_branch_map_size == if branch_map_size == 0 {
                1
            } else {
                branch_map_size
            }
            &&& h5.use_shmem_fuzz == (options & FS_NEW_OPT_SHDMEM_FUZZ != 0)
        }),
{
}

/// Why there is no child to run an input.
#[derive(Clone, Copy, Debug, PartialEq, Eq, Structural)]
pub enum ChildError {
    /// The target cannot get at shared memory.
    SharedMemory,
    /// The fork server misbehaves.
    Misbehaving,
}

/// Any of the bits of an error that a fork server reports in place of a
/// child.
pub const FS_OPT_ERROR: i32 = -0x7ff_ff71;

/// Reads the identifier of the child that runs an input.
pub fn check_child(child_pid: i32) -> (r: Result<(), ChildError>)
    ensures
        match r {
            Ok(_) => child_pid > 0,
            Err(e) => child_pid <= 0 && e == if child_pid & FS_OPT_ERROR != 0 && (child_pid
                & 0x00ffff00) >> 8 == 4 {
                ChildError::SharedMemory
            } else {
                ChildError::Misbehaving
            },
        },
{
    if child_pid > 0 {
        return Ok(());
    }
    if child_pid & FS_OPT_ERROR != 0 && (child_pid & 0x00ffff00) >> 8 == 4 {
        Err(ChildError::SharedMemory)
    } else {
        Err(ChildError::Misbehaving)
    }
}

/// How a run ended.
pub open spec fn run_status(timed_out: bool, child_status: i32, uses_asan: bool) -> StatusType {
    if timed_out {
        StatusType::Timeout
    } else if was_signaled(child_status) || (uses_asan && exit_code(child_status)
        == MSAN_ERROR_CODE) {
        StatusType::Crash
    } else {
        StatusType::Normal
    }
}

/// Tells how a run ended: it timed out, or it was ended by a signal or a
/// sanitizer, or all was well.
pub fn classify_run(timed_out: bool, child_status: i32, uses_asan: bool) -> (r: StatusType)
    ensures
        r == run_status(timed_out, child_status, uses_asan),
{
    if timed_out {
        return StatusType::Timeout;
    }
    if is_signaled(child_status) || (uses_asan && exit_status(child_status) == MSAN_ERROR_CODE) {
        return StatusType::Crash;
    }
    StatusType::Normal
}

/// A run that takes too long is a timeout, however it ends; one that a signal
/// ends is a crash, and so is one that a sanitizer ends with its code; any
/// other that ends by itself is normal.
pub proof fn runs_are_classified(code: i32, signal: i32, dumped: bool, uses_asan: bool, status: i32)
    requires
        0 <= code <= 255,
        1 <= signal <= 126,
    ensures
        run_status(true, status, uses_asan) == StatusType::Timeout,
        run_status(false, (256 * code) as i32, uses_asan) == if uses_asan && code == 86 {
            StatusType::Crash
        } else {
            StatusType::Normal
        },
        run_status(
            false,
            (signal + if dumped {
                128int
            } else {
                0
            }) as i32,
            uses_asan,
        ) == StatusType::Crash,
{
    crate::wait_status::endings_are_told_apart(code, signal, dumped);
}

/// Handshakes fail for the reasons that the protocol has: an error in place of
/// the first word; options without the size of the map, or with a dictionary;
/// a map that cannot be rounded up; and a last word that is not the first.
pub proof fn handshakes_fail(h: Handshake, word: u32)
    ensures
        h.awaited == Awaited::Version && word & 0xeffe0000 == 0xeffe0000 ==> h.fed(word).1 == (
        HandshakeStep::Failed {
            error: HandshakeError::Reported { error: error_of(word & 0xffff) },
        }),
        h.awaited == Awaited::Options ==> ((h.fed(word).1 is Failed) <==> word & 1 == 0 || word
            & 0x800 != 0),
        h.awaited == Awaited::MapSize || h.awaited == Awaited::BranchMapSize ==> ((h.fed(
            word,
        ).1 is Failed) <==> word + 63 > u32::MAX),
        h.awaited == Awaited::Closing ==> h.fed(word).1 == if word == h.keep {
            HandshakeStep::Ready
        } else {
            HandshakeStep::Failed {
                error: HandshakeError::Mismatch { first: h.keep, last: word },
            }
        },
        h.fed(word).1 is Failed ==> h.fed(word).0 == h,
{
}


/// A first word is an error if and only if all bits of the mark are set in it;
/// its lower half then tells which. Otherwise each bit of it is turned round
/// in the answer, and it is kept. The second lowest bit of the options tells of
/// shared memory. Sizes are taken as they come, and nothing else is changed.
pub proof fn words_are_taken_in_turn(h: Handshake, word: u32)
    ensures
        h.awaited == Awaited::Version ==> {
            &&& h.fed(word).1 is Failed <==> word & 0xeffe0000 == 0xeffe0000
            &&& h.fed(word).1 matches HandshakeStep::Reply { word: reply } ==> word + reply
                == 0xffff_ffff && h.fed(word).0 == (Handshake {
                awaited: Awaited::Options,
                keep: word,
                ..h
            })
            &&& h.fed(word).1 is Failed || h.fed(word).1 is Reply
        },
        h.awaited == Awaited::Options ==> {
            &&& word & 1 != 0 && word & 0x800 == 0 ==> h.fed(word) == (
                Handshake { awaited: Awaited::MapSize, use_shmem_fuzz: word & 2 != 0, ..h },
                HandshakeStep::Read,
            )
            &&& h.fed(word).1 matches HandshakeStep::Failed { error } ==> error
                == HandshakeError::BadOptions
        },
        h.awaited == Awaited::MapSize ==> (h.fed(word).1 is Read ==> h.fed(word).0 == (Handshake {
            awaited: Awaited::BranchMapSize,
            real_map_size: word,
            ..h
        })),
        h.awaited == Awaited::BranchMapSize ==> (h.fed(word).1 is Read ==> h.fed(word).0.awaited
            == Awaited::Closing && h.fed(word).0.real_map_size == h.real_map_size && h.fed(
            word,
        ).0.real_branch_map_size == if word == 0 {
            1
        } else {
            word
        }),
        h.awaited == Awaited::MapSize || h.awaited == Awaited::BranchMapSize ==> (h.fed(
            word,
        ).1 matches HandshakeStep::Failed { error } ==> error == HandshakeError::TooLarge),
{
    assert(word + (word ^ 0xffff_ffff) == 0xffff_ffff) by (bit_vector);
}

/// What the codes of errors stand for.
pub proof fn codes_stand_for_errors(code: u32)
    ensures
        error_of(code) == FsError::MapSize <==> code == 0x1,
        error_of(code) == FsError::MapAddr <==> code == 0x2,
        error_of(code) == FsError::ShmOpen <==> code == 0x4,
        error_of(code) == FsError::Shmat <==> code == 0x8,
        error_of(code) == FsError::Mmap <==> code == 0x10,
        error_of(code) matches FsError::Unknown { code: c } ==> c == code,
{
}

} // verus!
