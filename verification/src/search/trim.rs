//! Making a seed shorter without a change in what it covers.
//!
//! First the largest suffix that can be removed is found by bisection, then
//! the largest prefix; then chunks are removed, with ever smaller steps.

use super::afl_mutators::{remove_at, without};
use super::edits::copy_of;
use crate::config::{TRIM_END_STEPS, TRIM_MIN_BYTES, TRIM_START_STEPS};
use crate::hash::hash_slice;
use crate::utils::{is_p2, next_p2};
use vstd::prelude::*;

verus! {

/// What is tried to be removed.
#[derive(Clone, Copy, Debug, PartialEq, Eq, Structural)]
pub enum TrimPhase {
    /// Bytes at the end, fewer than `open`.
    Suffix { open: usize },
    /// Bytes at the start, fewer than `open`.
    Prefix { open: usize },
    /// The `remove_len` bytes at `remove_pos`.
    Chunks { remove_len: usize, remove_pos: usize },
}

/// The work on a seed that is to be made shorter.
#[derive(Debug)]
pub struct Trim {
    /// The seed as short as it is so far.
    pub buf: Vec<u8>,
    /// The smallest power of two that is no less than its length.
    pub len_p2: usize,
    pub phase: TrimPhase,
    /// Bytes were removed.
    pub need_write: bool,
    /// The hash of what the seed covers.
    pub orig_hash: u64,
}

/// The larger of `x` and the least number of bytes to remove.
pub open spec fn at_least_min(x: int) -> int {
    if x >= TRIM_MIN_BYTES {
        x
    } else {
        TRIM_MIN_BYTES as int
    }
}

/// `p` is the smallest power of two that is no less than `len`.
pub open spec fn is_next_p2(len: int, p: int) -> bool {
    &&& len <= p
    &&& is_p2(p as nat)
    &&& forall|q: nat| is_p2(q) && len <= q ==> p <= q
}

/// Where a chunk can be removed next, and how long it is: rounds go through
/// the seed with ever smaller steps, each from its first step on.
pub open spec fn settled(remove_len: int, remove_pos: int, len: int, len_p2: int) -> Option<
    (int, int),
>
    decreases remove_len,
{
    if remove_len < at_least_min(len_p2 / TRIM_END_STEPS as int) {
        None
    } else if remove_pos < len {
        Some((remove_len, remove_pos))
    } else {
        settled(remove_len / 2, remove_len / 2, len, len_p2)
    }
}

/// The next chunk to remove.
pub open spec fn next_chunk(remove_len: int, remove_pos: int, len: int, len_p2: int) -> Option<
    TrimPhase,
> {
    match settled(remove_len, remove_pos, len, len_p2) {
        Some((n, pos)) => Some(
            TrimPhase::Chunks { remove_len: n as usize, remove_pos: pos as usize },
        ),
        None => None,
    }
}

/// What to try next once the suffix is found.
pub open spec fn after_suffix(open: usize, len: int, len_p2: int) -> Option<TrimPhase> {
    let first = at_least_min(len_p2 / TRIM_START_STEPS as int);
    if open >= 2 {
        Some(TrimPhase::Prefix { open })
    } else {
        next_chunk(first, first, len, len_p2)
    }
}

/// What to try next, if anything is left to try.
pub open spec fn next_phase(phase: TrimPhase, len: int, len_p2: int) -> Option<TrimPhase> {
    match phase {
        TrimPhase::Suffix { open } => if open >= 2 {
            Some(phase)
        } else {
            after_suffix(len as usize, len, len_p2)
        },
        TrimPhase::Prefix { open } => after_suffix(open, len, len_p2),
        TrimPhase::Chunks { remove_len, remove_pos } => next_chunk(
            remove_len as int,
            remove_pos as int,
            len,
            len_p2,
        ),
    }
}

/// There is something to try in a seed of the given length.
pub open spec fn can_try(phase: TrimPhase, len: int) -> bool {
    match phase {
        TrimPhase::Suffix { open } => 2 <= open <= len,
        TrimPhase::Prefix { open } => 2 <= open <= len,
        TrimPhase::Chunks { remove_len, remove_pos } => 0 < remove_len <= remove_pos < len,
    }
}

/// How many bytes of a chunk are removed: no more than there are.
pub open spec fn trim_avail(remove_len: int, remove_pos: int, len: int) -> int {
    if remove_len <= len - remove_pos {
        remove_len
    } else {
        len - remove_pos
    }
}

/// The input to run.
pub open spec fn trial(s: Seq<u8>, phase: TrimPhase) -> Seq<u8> {
    match phase {
        TrimPhase::Suffix { open } => s.take(s.len() - open / 2),
        TrimPhase::Prefix { open } => s.skip(open as int / 2),
        TrimPhase::Chunks { remove_len, remove_pos } => without(
            s,
            remove_pos as int,
            trim_avail(remove_len as int, remove_pos as int, s.len() as int),
        ),
    }
}

/// What is tried from there on, by whether the run covered the same.
pub open spec fn judged(phase: TrimPhase, same: bool) -> TrimPhase {
    match phase {
        TrimPhase::Suffix { open } => TrimPhase::Suffix { open: half_left(open, same) },
        TrimPhase::Prefix { open } => TrimPhase::Prefix { open: half_left(open, same) },
        TrimPhase::Chunks { remove_len, remove_pos } => if same {
            phase
        } else {
            TrimPhase::Chunks { remove_len, remove_pos: (remove_pos + remove_len) as usize }
        },
    }
}

/// What is open of a bisection after a try with half of it.
pub open spec fn half_left(open: usize, same: bool) -> usize {
    if same {
        (open - open / 2) as usize
    } else {
        open / 2
    }
}

impl Trim {
    pub open spec fn wf(&self) -> bool {
        &&& self.buf@.len() <= usize::MAX / 4
        &&& is_next_p2(self.buf@.len() as int, self.len_p2 as int)
        &&& match self.phase {
            TrimPhase::Suffix { open } => open <= self.buf@.len(),
            TrimPhase::Prefix { open } => open <= self.buf@.len(),
            TrimPhase::Chunks { remove_len, remove_pos } => remove_len <= usize::MAX / 4
                && remove_len <= remove_pos,
        }
    }

    /// The run of `input` was judged: it covered the same, so that it is the
    /// seed from there on, or it did not, and the seed stays as it is.
    pub open spec fn judged_to(self, after: Self, input: Vec<u8>, same: bool) -> bool {
        &&& after.orig_hash == self.orig_hash
        &&& after.phase == judged(self.phase, same)
        &&& if same {
            after.buf == input && after.need_write
        } else {
            after.buf == self.buf && after.len_p2 == self.len_p2 && after.need_write
                == self.need_write
        }
    }

    /// Begins with a seed whose run covered what `orig_hash` stands for.
    pub fn with_hash(buf: Vec<u8>, orig_hash: u64) -> (r: Self)
        requires
            buf@.len() <= usize::MAX / 4,
        ensures
            r.wf(),
            r.buf == buf,
            r.phase == (TrimPhase::Suffix { open: buf@.len() as usize }),
            !r.need_write,
            r.orig_hash == orig_hash,
    {
        let len_p2: usize = next_p2(buf.len());
        let phase = TrimPhase::Suffix { open: buf.len() };
        Trim { buf, len_p2, phase, need_write: false, orig_hash }
    }

    /// Begins with a seed whose run left `trace_map` behind.
    pub fn new(buf: Vec<u8>, trace_map: &[u8]) -> (r: Self)
        requires
            buf@.len() <= usize::MAX / 4,
        ensures
            r.wf(),
            r.buf == buf,
            r.phase == (TrimPhase::Suffix { open: buf@.len() as usize }),
            !r.need_write,
    {
        let hash: u64 = hash_slice(trace_map);
        Trim::with_hash(buf, hash)
    }

    /// Goes on to the next chunk, and tells whether there is one.
    fn settle(&mut self, remove_len: usize, remove_pos: usize) -> (r: bool)
        requires
            old(self).buf@.len() <= usize::MAX / 4,
            is_next_p2(old(self).buf@.len() as int, old(self).len_p2 as int),
            remove_len <= usize::MAX / 4,
            remove_len <= remove_pos,
        ensures
            final(self).wf(),
            ({
                let next = next_chunk(
                    remove_len as int,
                    remove_pos as int,
                    old(self).buf@.len() as int,
                    old(self).len_p2 as int,
                );
                &&& r == (next is Some)
                &&& *final(self) == (Trim { phase: final(self).phase, ..*old(self) })
                &&& r ==> next == Some(final(self).phase)
            }),
            r ==> can_try(final(self).phase, final(self).buf@.len() as int),
    {
        let steps: usize = self.len_p2 / TRIM_END_STEPS;
        let end: usize = if steps >= TRIM_MIN_BYTES {
            steps
        } else {
            TRIM_MIN_BYTES
        };
        let mut n: usize = remove_len;
        let mut pos: usize = remove_pos;
        while n >= end && pos >= self.buf.len()
            invariant
                *self == *old(self),
                n <= usize::MAX / 4,
                n <= pos,
                end == at_least_min(self.len_p2 as int / TRIM_END_STEPS as int),
                settled(
                    n as int,
                    pos as int,
                    self.buf@.len() as int,
                    self.len_p2 as int,
                ) == settled(
                    remove_len as int,
                    remove_pos as int,
                    self.buf@.len() as int,
                    self.len_p2 as int,
                ),
            decreases n,
        {
            n = n / 2;
            pos = n;
        }
        self.phase = TrimPhase::Chunks { remove_len: n, remove_pos: pos };
        n >= end
    }

    /// Goes on to what is to be tried next, and tells whether there is
    /// anything.
    fn advance(&mut self) -> (r: bool)
        requires
            old(self).wf(),
        ensures
            final(self).wf(),
            ({
                let next = next_phase(
                    old(self).phase,
                    old(self).buf@.len() as int,
                    old(self).len_p2 as int,
                );
                &&& r == (next is Some)
                &&& *final(self) == (Trim { phase: final(self).phase, ..*old(self) })
                &&& r ==> next == Some(final(self).phase)
            }),
            r ==> can_try(final(self).phase, final(self).buf@.len() as int),
    {
        if let TrimPhase::Suffix { open } = self.phase {
            if open >= 2 {
                return true;
            }
            self.phase = TrimPhase::Prefix { open: self.buf.len() };
        }
        match self.phase {
            TrimPhase::Chunks { remove_len, remove_pos } => self.settle(remove_len, remove_pos),
            TrimPhase::Suffix { open } | TrimPhase::Prefix { open } => {
                if open >= 2 {
                    return true;
                }
                let steps: usize = self.len_p2 / TRIM_START_STEPS;
                let first: usize = if steps >= TRIM_MIN_BYTES {
                    steps
                } else {
                    TRIM_MIN_BYTES
                };
                self.settle(first, first)
            },
        }
    }

    /// The next input to run, if there is one: the seed without some bytes.
    pub fn next_input(&mut self) -> (r: Option<Vec<u8>>)
        requires
            old(self).wf(),
        ensures
            final(self).wf(),
            *final(self) == (Trim { phase: final(self).phase, ..*old(self) }),
            match next_phase(
                old(self).phase,
                old(self).buf@.len() as int,
                old(self).len_p2 as int,
            ) {
                Some(phase) => {
                    &&& final(self).phase == phase
                    &&& can_try(phase, old(self).buf@.len() as int)
                    &&& r matches Some(v) && v@ == trial(old(self).buf@, phase)
                },
                None => r is None,
            },
    {
        if !self.advance() {
            return None;
        }
        let len: usize = self.buf.len();
        let v: Vec<u8> = match self.phase {
            TrimPhase::Suffix { open } => copy_of(&self.buf, 0, len - open / 2),
            TrimPhase::Prefix { open } => copy_of(&self.buf, open / 2, len - open / 2),
            TrimPhase::Chunks { remove_len, remove_pos } => {
                let mut v: Vec<u8> = self.buf.clone();
                assert(v@ =~= self.buf@);
                let left: usize = len - remove_pos;
                let n: usize = if remove_len <= left {
                    remove_len
                } else {
                    left
                };
                remove_at(&mut v, remove_pos, n);
                v
            },
        };
        assert(v@ =~= trial(self.buf@, self.phase));
        Some(v)
    }

    /// Judges the run of an input by the hash of what it covered: the bytes
    /// stay removed if nothing changed.
    pub fn judge_hash(&mut self, input: Vec<u8>, now_hash: u64)
        requires
            old(self).wf(),
            can_try(old(self).phase, old(self).buf@.len() as int),
            input@ == trial(old(self).buf@, old(self).phase),
        ensures
            final(self).wf(),
            old(self).judged_to(*final(self), input, now_hash == old(self).orig_hash),
    {
        let same = now_hash == self.orig_hash;
        proof {
            trials_are_shorter(self.buf@, self.phase);
        }
        self.phase = match self.phase {
            TrimPhase::Suffix { open } => TrimPhase::Suffix {
                open: if same {
                    open - open / 2
                } else {
                    open / 2
                },
            },
            TrimPhase::Prefix { open } => TrimPhase::Prefix {
                open: if same {
                    open - open / 2
                } else {
                    open / 2
                },
            },
            TrimPhase::Chunks { remove_len, remove_pos } => TrimPhase::Chunks {
                remove_len,
                remove_pos: if same {
                    remove_pos
                } else {
                    remove_pos + remove_len
                },
            },
        };
        if same {
            self.len_p2 = next_p2(input.len());
            self.buf = input;
            self.need_write = true;
        }
    }

    /// Judges the run of an input by the map that it left behind. Whether the
    /// bytes stay removed is up to the hash of the map.
    pub fn judge(&mut self, input: Vec<u8>, trace_map: &[u8])
        requires
            old(self).wf(),
            can_try(old(self).phase, old(self).buf@.len() as int),
            input@ == trial(old(self).buf@, old(self).phase),
        ensures
            final(self).wf(),
            old(self).judged_to(*final(self), input, true) || old(self).judged_to(
                *final(self),
                input,
                false,
            ),
    {
        let hash: u64 = hash_slice(trace_map);
        self.judge_hash(input, hash);
    }
}

/// What is tried is shorter than the seed and not empty.
pub proof fn trials_are_shorter(s: Seq<u8>, phase: TrimPhase)
    requires
        can_try(phase, s.len() as int),
    ensures
        0 < trial(s, phase).len() < s.len(),
        match phase {
            TrimPhase::Suffix { open } => trial(s, phase).len() == s.len() - open / 2,
            TrimPhase::Prefix { open } => trial(s, phase).len() == s.len() - open / 2,
            _ => true,
        },
{
}

/// A bisection finds the largest number of bytes that can be removed, if no
/// more than `most` can and all fewer can: while `removed` are gone and fewer
/// than `open` are tried, `most` stays in between, and at the end it is what
/// was removed.
pub proof fn bisections_find_the_most(removed: int, open: usize, most: int)
    requires
        removed <= most < removed + open,
    ensures
        open == 1 ==> removed == most,
        open >= 2 ==> {
            let half = open as int / 2;
            let same = removed + half <= most;
            let left = half_left(open, same);
            let now = if same {
                removed + half
            } else {
                removed
            };
            now <= most < now + left && left < open
        },
{
}

/// Chunks leave the first bytes of a seed where they are: a removal begins no
/// earlier than at the smallest step, and takes at least one byte.
pub proof fn chunks_leave_the_start(remove_len: int, remove_pos: int, len: int, len_p2: int)
    requires
        remove_pos >= remove_len,
        len_p2 >= 0,
        len >= 0,
    ensures
        settled(remove_len, remove_pos, len, len_p2) matches Some((n, pos)) ==> {
            &&& TRIM_MIN_BYTES <= n <= pos < len
            &&& 1 <= trim_avail(n, pos, len)
            &&& pos + trim_avail(n, pos, len) <= len
        },
    decreases remove_len,
{
    if remove_len >= at_least_min(len_p2 / TRIM_END_STEPS as int) && remove_pos >= len {
        chunks_leave_the_start(remove_len / 2, remove_len / 2, len, len_p2);
    }
}

/// Trimming ends. A bisection has less open after each judgement. The step of
/// the chunks never grows, and while it stays the same each judgement leaves
/// fewer bytes behind the place of the next removal, whether the bytes stay
/// removed or not.
pub proof fn trims_end(open: usize, remove_len: int, remove_pos: int, len: int, len_p2: int)
    requires
        open >= 2,
        0 <= remove_len <= remove_pos,
        len_p2 >= 0,
        len >= 0,
    ensures
        half_left(open, true) < open && half_left(open, false) < open,
        settled(remove_len, remove_pos, len, len_p2) matches Some((n, pos)) ==> {
            let avail = trim_avail(n, pos, len);
            &&& 0 < n < remove_len || (n == remove_len && pos == remove_pos)
            &&& (len - avail) - pos < len - pos
            &&& len - (pos + n) < len - pos
        },
    decreases remove_len,
{
    chunks_leave_the_start(remove_len, remove_pos, len, len_p2);
    if remove_len >= at_least_min(len_p2 / TRIM_END_STEPS as int) && remove_pos >= len {
        trims_end(open, remove_len / 2, remove_len / 2, len, len_p2);
    }
}


/// What is tried lacks one piece of the seed: its last bytes, its first bytes,
/// or those from a place on; all other bytes follow one another as they did.
pub proof fn trials_lack_one_piece(s: Seq<u8>, phase: TrimPhase, i: int)
    requires
        can_try(phase, s.len() as int),
        0 <= i < trial(s, phase).len(),
    ensures
        ({
            let t = trial(s, phase);
            let gone = s.len() - t.len();
            match phase {
                TrimPhase::Suffix { open } => gone == open / 2 && t[i] == s[i],
                TrimPhase::Prefix { open } => gone == open / 2 && t[i] == s[i + gone],
                TrimPhase::Chunks { remove_len, remove_pos } => {
                    &&& gone <= remove_len
                    &&& gone < remove_len ==> t.len() == remove_pos
                    &&& t[i] == s[if i < remove_pos {
                        i
                    } else {
                        i + gone
                    }]
                },
            }
        }),
{
}

/// A bisection goes on with what it left open: half of it was removed if the
/// run covered the same, and that half is all that is left to try if not. A
/// chunk that could be removed leaves another in its place; one that could not
/// is passed over.
pub proof fn judgements_lead_on(phase: TrimPhase, same: bool, open: usize)
    requires
        phase matches TrimPhase::Chunks { remove_len, remove_pos } ==> remove_len + remove_pos
            <= usize::MAX,
    ensures
        half_left(open, true) + half_left(open, false) == open,
        half_left(open, false) <= half_left(open, true) <= half_left(open, false) + 1,
        phase is Suffix <==> judged(phase, same) is Suffix,
        phase is Prefix <==> judged(phase, same) is Prefix,
        phase matches TrimPhase::Suffix { open } ==> judged(phase, same)->Suffix_open == half_left(
            open,
            same,
        ),
        phase matches TrimPhase::Prefix { open } ==> judged(phase, same)->Prefix_open == half_left(
            open,
            same,
        ),
        phase matches TrimPhase::Chunks { remove_len, remove_pos } ==> {
            &&& judged(phase, same)->remove_len == remove_len
            &&& judged(phase, same)->remove_pos == remove_pos + if same {
                0int
            } else {
                remove_len as int
            }
        },
{
}

/// The chunks go on where they are while bytes are left there. Behind the end
/// the next round begins, with half the step and at its own length; and all is
/// done when a step is below four bytes or a part in 1024.
pub proof fn rounds_halve_their_steps(remove_len: int, remove_pos: int, len: int, len_p2: int)
    requires
        0 <= remove_len,
        0 <= len_p2,
    ensures
        ({
            let ends = remove_len < 4 || remove_len < len_p2 / 1024;
            let next = settled(remove_len, remove_pos, len, len_p2);
            &&& ends ==> next is None
            &&& !ends && remove_pos < len ==> next == Some((remove_len, remove_pos))
            &&& !ends && remove_pos >= len ==> next == settled(
                remove_len / 2,
                remove_len / 2,
                len,
                len_p2,
            )
        }),
{
}

/// The suffix comes before the prefix, for which the whole seed is open, and
/// both before the chunks, which begin with a sixteenth of the seed or with
/// four bytes.
pub proof fn suffixes_come_first(len: usize, len_p2: int, open: usize, step: usize)
    requires
        0 <= len_p2,
        step == len_p2 / 16 || (step == 4 && len_p2 / 16 < 4),
        step >= 4,
    ensures
        open >= 2 ==> next_phase(TrimPhase::Suffix { open }, len as int, len_p2) == Some(
            TrimPhase::Suffix { open },
        ),
        open < 2 && len >= 2 ==> next_phase(TrimPhase::Suffix { open }, len as int, len_p2) == Some(
            TrimPhase::Prefix { open: len },
        ),
        open >= 2 ==> next_phase(TrimPhase::Prefix { open }, len as int, len_p2) == Some(
            TrimPhase::Prefix { open },
        ),
        open < 2 ==> next_phase(TrimPhase::Prefix { open }, len as int, len_p2) == next_phase(
            TrimPhase::Chunks { remove_len: step, remove_pos: step },
            len as int,
            len_p2,
        ),
        open < 2 && step < len ==> next_phase(TrimPhase::Prefix { open }, len as int, len_p2)
            == Some(TrimPhase::Chunks { remove_len: step, remove_pos: step }),
        open < 2 && len < 2 ==> next_phase(TrimPhase::Suffix { open }, len as int, len_p2)
            == next_phase(TrimPhase::Prefix { open }, len as int, len_p2),
{
    rounds_halve_their_steps(step as int, step as int, len as int, len_p2);
}

} // verus!
