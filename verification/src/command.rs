//! The settings of a fuzzing run and of its workers.

use crate::check_dep::BinaryKind;
use crate::depot::depot_dir::{join, joined};
use crate::text::{decimal_string, decimal_text};
use std::collections::HashMap;
use vstd::prelude::*;

verus! {

pub const FORKSRV_FD_INIT: i32 = 198;

pub const FULL_FORKSRV_FD_INIT: i32 = 200;

pub const TRACE_FORKSRV_FD_INIT: i32 = 202;

pub const FORKSRV_FD_START: i32 = 208;

pub const FULL_FORKSRV_FD_START: i32 = 210;

pub const TRACE_FORKSRV_FD_START: i32 = 212;

/// The settings of a fuzzing run, or of one of its workers.
#[derive(Debug)]
pub struct CommandOpt {
    pub id: usize,
    /// The target with fast instrumentation, and its arguments.
    pub main: (String, Vec<String>),
    /// The target with full instrumentation.
    pub full: (String, Vec<String>),
    /// The target that records operands.
    pub trace: (String, Vec<String>),
    pub tmp_dir: String,
    pub out_dir: String,
    /// The file that inputs are written to.
    pub out_file: String,
    /// Inputs are read from standard input.
    pub is_stdin: bool,
    /// In megabytes; zero for no limit.
    pub mem_limit: u64,
    /// In milliseconds.
    pub time_limit: u64,
    /// The settings are not yet those of a worker.
    pub is_raw: bool,
    pub uses_asan: bool,
    /// Inputs are handed over in shared memory.
    pub use_shmem_fuzz: bool,
    pub persistent_mode: bool,
    pub deferred_mode: bool,
    pub forksrv_fd: i32,
    pub full_forksrv_fd: i32,
    pub trace_forksrv_fd: i32,
    pub scheduled_mutation: bool,
    pub havoc_div: usize,
    pub max_taint_file: usize,
    /// The branch before each edge, as the target's table has it.
    pub edge_to_pred_branch_dict: HashMap<usize, usize>,
    /// How many edges lie behind each branch.
    pub branch_boundary: HashMap<usize, usize>,
    pub use_llm: bool,
}

/// The texts of some arguments.
pub open spec fn arg_texts(args: Seq<String>) -> Seq<Seq<char>> {
    Seq::new(args.len(), |i: int| args[i]@)
}

/// The argument that stands for the file with the input.
pub open spec fn input_mark() -> Seq<char> {
    "@@"@
}

/// Some argument stands for the file with the input.
pub open spec fn has_mark(args: Seq<String>) -> bool {
    exists|i: int| 0 <= i < args.len() && #[trigger] args[i]@ == input_mark()
}

/// The arguments with the mark replaced by a file.
pub open spec fn filled_in(args: Seq<String>, file: Seq<char>) -> Seq<Seq<char>> {
    Seq::new(
        args.len(),
        |i: int|
            if args[i]@ == input_mark() {
                file
            } else {
                args[i]@
            },
    )
}

/// The file that worker `id` writes its inputs to.
pub open spec fn worker_file(out_file: Seq<char>, id: nat) -> Seq<char> {
    out_file + "_"@ + decimal_text(id)
}

fn is_mark(arg: &String) -> (r: bool)
    ensures
        r == (arg@ == input_mark()),
{
    let mark: String = "@@".to_owned();
    *arg == mark
}

/// Copies the arguments from `from` on, with the mark replaced by `file` if
/// there is one.
fn copy_args(args: &Vec<String>, from: usize, file: Option<&String>) -> (r: Vec<String>)
    requires
        from <= args@.len(),
    ensures
        match file {
            Some(f) => arg_texts(r@) == filled_in(
                args@.subrange(from as int, args@.len() as int),
                f@,
            ),
            None => arg_texts(r@) == arg_texts(args@.subrange(from as int, args@.len() as int)),
        },
{
    let ghost src = args@.subrange(from as int, args@.len() as int);
    let mut r: Vec<String> = Vec::new();
    let mut i: usize = from;
    while i < args.len()
        invariant
            from <= i <= args@.len(),
            src == args@.subrange(from as int, args@.len() as int),
            r@.len() == i - from,
            forall|k: int|
                0 <= k < r@.len() ==> (#[trigger] r@[k])@ == match file {
                    Some(f) => filled_in(src, f@)[k],
                    None => arg_texts(src)[k],
                },
        decreases args@.len() - i,
    {
        assert(src[i - from] == args@[i as int]);
        let arg: String = match file {
            Some(f) => if is_mark(&args[i]) {
                f.clone()
            } else {
                args[i].clone()
            },
            None => args[i].clone(),
        };
        r.push(arg);
        i = i + 1;
    }
    match file {
        Some(f) => {
            assert(arg_texts(r@) =~= filled_in(src, f@));
        },
        None => {
            assert(arg_texts(r@) =~= arg_texts(src));
        },
    }
    r
}

fn find_mark(args: &Vec<String>) -> (r: bool)
    ensures
        r == has_mark(args@),
{
    let mut i: usize = 0;
    while i < args.len()
        invariant
            i <= args@.len(),
            forall|k: int| 0 <= k < i ==> (#[trigger] args@[k])@ != input_mark(),
        decreases args@.len() - i,
    {
        if is_mark(&args[i]) {
            return true;
        }
        i = i + 1;
    }
    false
}

impl CommandOpt {
    /// The settings for a target and its arguments. Inputs are read from
    /// standard input unless an argument stands for them; a target with a
    /// sanitizer has no memory limit.
    pub fn new(
        pargs: Vec<String>,
        full_target: &str,
        trace_target: &str,
        out_dir: &str,
        mem_limit: u64,
        time_limit: u64,
        scheduled_mutation: bool,
        use_llm: bool,
        binary: BinaryKind,
    ) -> (r: Self)
        requires
            pargs@.len() > 0,
        ensures
            r.id == 0,
            r.main.0@ == pargs@[0]@,
            r.full.0@ == full_target@,
            r.trace.0@ == trace_target@,
            arg_texts(r.main.1@) == arg_texts(pargs@.subrange(1, pargs@.len() as int)),
            arg_texts(r.full.1@) == arg_texts(r.main.1@),
            arg_texts(r.trace.1@) == arg_texts(r.main.1@),
            r.out_dir@ == out_dir@,
            r.tmp_dir@ == joined(out_dir@, "tmp"@),
            r.out_file@ == joined(r.tmp_dir@, "cur_input"@),
            r.is_stdin == !has_mark(pargs@),
            r.mem_limit == if binary.uses_asan {
                0
            } else {
                mem_limit
            },
            r.time_limit == time_limit,
            r.is_raw,
            r.uses_asan == binary.uses_asan,
            !r.use_shmem_fuzz,
            r.persistent_mode == binary.persistent_mode,
            r.deferred_mode == binary.deferred_mode,
            r.forksrv_fd == FORKSRV_FD_INIT,
            r.full_forksrv_fd == FULL_FORKSRV_FD_INIT,
            r.trace_forksrv_fd == TRACE_FORKSRV_FD_INIT,
            r.scheduled_mutation == scheduled_mutation,
            r.havoc_div == 1,
            r.max_taint_file == 1,
            r.edge_to_pred_branch_dict@ == Map::<usize, usize>::empty(),
            r.branch_boundary@ == Map::<usize, usize>::empty(),
            r.use_llm == use_llm,
    {
        let tmp_dir = join(out_dir, "tmp");
        let out_file = join(tmp_dir.as_str(), "cur_input");
        let has_input_arg = find_mark(&pargs);
        let main_args = copy_args(&pargs, 1, None);
        let full_args = copy_args(&main_args, 0, None);
        let trace_args = copy_args(&main_args, 0, None);
        assert(main_args@.subrange(0, main_args@.len() as int) =~= main_args@);
        CommandOpt {
            id: 0,
            main: (pargs[0].clone(), main_args),
            full: (full_target.to_owned(), full_args),
            trace: (trace_target.to_owned(), trace_args),
            tmp_dir,
            out_dir: out_dir.to_owned(),
            out_file,
            is_stdin: !has_input_arg,
            mem_limit: if binary.uses_asan {
                0
            } else {
                mem_limit
            },
            time_limit,
            is_raw: true,
            uses_asan: binary.uses_asan,
            use_shmem_fuzz: false,
            persistent_mode: binary.persistent_mode,
            deferred_mode: binary.deferred_mode,
            forksrv_fd: FORKSRV_FD_INIT,
            full_forksrv_fd: FULL_FORKSRV_FD_INIT,
            trace_forksrv_fd: TRACE_FORKSRV_FD_INIT,
            scheduled_mutation,
            havoc_div: 1,
            max_taint_file: 1,
            edge_to_pred_branch_dict: HashMap::new(),
            branch_boundary: HashMap::new(),
            use_llm,
        }
    }

    /// The mark for the input's file is allowed only if inputs are written to
    /// a file.
    pub open spec fn allows_mark(&self) -> bool {
        !self.is_stdin && !self.use_shmem_fuzz
    }

    /// Tells whether the settings can be made those of a worker, see
    /// [`CommandOpt::specify`].
    pub fn can_specify(&self) -> (r: bool)
        ensures
            r == (self.allows_mark() || !has_mark(self.main.1@)),
    {
        (!self.is_stdin && !self.use_shmem_fuzz) || !find_mark(&self.main.1)
    }

    /// The settings of worker `id`: it has a file for inputs and file
    /// descriptors of its own.
    pub fn specify(&self, id: usize) -> (r: Self)
        requires
            self.allows_mark() || !has_mark(self.main.1@),
            TRACE_FORKSRV_FD_START + id * 10 <= i32::MAX,
        ensures
            r.id == id,
            r.out_file@ == worker_file(self.out_file@, id as nat),
            r.main.0@ == self.main.0@,
            r.full.0@ == self.full.0@,
            r.trace.0@ == self.trace.0@,
            arg_texts(r.main.1@) == filled_in(
                self.main.1@,
                worker_file(self.out_file@, id as nat),
            ),
            arg_texts(r.full.1@) == arg_texts(r.main.1@),
            arg_texts(r.trace.1@) == arg_texts(r.main.1@),
            !r.is_raw,
            r.forksrv_fd == FORKSRV_FD_START + id * 10,
            r.full_forksrv_fd == FULL_FORKSRV_FD_START + id * 10,
            r.trace_forksrv_fd == TRACE_FORKSRV_FD_START + id * 10,
            r.tmp_dir@ == self.tmp_dir@,
            r.out_dir@ == self.out_dir@,
            r.is_stdin == self.is_stdin,
            r.mem_limit == self.mem_limit,
            r.time_limit == self.time_limit,
            r.uses_asan == self.uses_asan,
            r.use_shmem_fuzz == self.use_shmem_fuzz,
            r.persistent_mode == self.persistent_mode,
            r.deferred_mode == self.deferred_mode,
            r.scheduled_mutation == self.scheduled_mutation,
            r.havoc_div == self.havoc_div,
            r.max_taint_file == self.max_taint_file,
            r.edge_to_pred_branch_dict@ == self.edge_to_pred_branch_dict@,
            r.branch_boundary@ == self.branch_boundary@,
            r.use_llm == self.use_llm,
    {
        let mut out_file = self.out_file.clone();
        out_file.append("_");
        out_file.append(decimal_string(id as u64).as_str());
        let main_args = copy_args(&self.main.1, 0, Some(&out_file));
        assert(self.main.1@.subrange(0, self.main.1@.len() as int) =~= self.main.1@);
        let full_args = copy_args(&main_args, 0, None);
        let trace_args = copy_args(&main_args, 0, None);
        assert(main_args@.subrange(0, main_args@.len() as int) =~= main_args@);
        let offset: i32 = id as i32 * 10;
        CommandOpt {
            id,
            main: (self.main.0.clone(), main_args),
            full: (self.full.0.clone(), full_args),
            trace: (self.trace.0.clone(), trace_args),
            tmp_dir: self.tmp_dir.clone(),
            out_dir: self.out_dir.clone(),
            out_file,
            is_stdin: self.is_stdin,
            mem_limit: self.mem_limit,
            time_limit: self.time_limit,
            is_raw: false,
            uses_asan: self.uses_asan,
            use_shmem_fuzz: self.use_shmem_fuzz,
            persistent_mode: self.persistent_mode,
            deferred_mode: self.deferred_mode,
            forksrv_fd: FORKSRV_FD_START + offset,
            full_forksrv_fd: FULL_FORKSRV_FD_START + offset,
            trace_forksrv_fd: TRACE_FORKSRV_FD_START + offset,
            scheduled_mutation: self.scheduled_mutation,
            havoc_div: self.havoc_div,
            max_taint_file: self.max_taint_file,
            edge_to_pred_branch_dict: self.edge_to_pred_branch_dict.clone(),
            branch_boundary: self.branch_boundary.clone(),
            use_llm: self.use_llm,
        }
    }
}

/// The descriptors of fork server `k` of worker `id`: a pair of them.
pub open spec fn worker_fds(id: int, k: int) -> Set<int> {
    let fd = FORKSRV_FD_START + 2 * k + 10 * id;
    set![fd, fd + 1]
}

/// No two fork servers share a descriptor, be they of one worker or of two.
pub proof fn workers_share_no_fds(id: int, k: int, other_id: int, other_k: int)
    requires
        0 <= k < 3,
        0 <= other_k < 3,
        (id, k) != (other_id, other_k),
    ensures
        worker_fds(id, k).disjoint(worker_fds(other_id, other_k)),
        FORKSRV_FD_START + 2 == FULL_FORKSRV_FD_START,
        FORKSRV_FD_START + 4 == TRACE_FORKSRV_FD_START,
{
}

/// No two workers write their inputs to the same file.
pub proof fn workers_share_no_file(out_file: Seq<char>, id: nat, other_id: nat)
    requires
        id != other_id,
    ensures
        worker_file(out_file, id) != worker_file(out_file, other_id),
{
    crate::text::numbers_read_back(id);
    crate::text::numbers_read_back(other_id);
    let stem = out_file + "_"@;
    let a = worker_file(out_file, id);
    let b = worker_file(out_file, other_id);
    if a == b {
        assert(a.subrange(stem.len() as int, a.len() as int) =~= decimal_text(id));
        assert(b.subrange(stem.len() as int, b.len() as int) =~= decimal_text(other_id));
    }
}


/// Where the mark stands the file stands afterwards, and every other argument
/// stays what and where it is.
pub proof fn files_stand_for_marks(args: Seq<String>, file: Seq<char>, i: int)
    requires
        0 <= i < args.len(),
    ensures
        filled_in(args, file).len() == args.len(),
        args[i]@ == seq!['@', '@'] ==> filled_in(args, file)[i] == file && has_mark(args),
        args[i]@ != seq!['@', '@'] ==> filled_in(args, file)[i] == args[i]@,
        !has_mark(args) ==> filled_in(args, file) == arg_texts(args),
        arg_texts(args)[i] == args[i]@,
{
    reveal_strlit("@@");
    assert("@@"@ =~= seq!['@', '@']);
    if !has_mark(args) {
        assert(filled_in(args, file) =~= arg_texts(args));
    }
}

/// The file of a worker is that of all, an underscore and the worker's number.
pub proof fn files_tell_the_worker(out_file: Seq<char>, id: nat)
    ensures
        ({
            let name = worker_file(out_file, id);
            &&& name.take(out_file.len() as int) == out_file
            &&& name[out_file.len() as int] == '_'
            &&& crate::text::unsigned(name.skip(out_file.len() as int + 1), id) == Some(id)
        }),
{
    reveal_strlit("_");
    let name = worker_file(out_file, id);
    crate::text::numbers_read_back(id);
    assert(name.take(out_file.len() as int) =~= out_file);
    assert(name.skip(out_file.len() as int + 1) =~= decimal_text(id));
}

} // verus!
