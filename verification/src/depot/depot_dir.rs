//! The directories that inputs are stored in.

use vstd::prelude::*;

verus! {

/// The directories of a fuzzing run.
#[derive(Debug)]
pub struct DepotDir {
    /// Where inputs are stored.
    pub inputs_dir: String,
    /// Where inputs that hang are stored.
    pub hangs_dir: String,
    /// Where inputs that crash are stored.
    pub crashes_dir: String,
    /// Where the initial seeds are.
    pub seeds_dir: String,
}

/// The path of the entry `name` of directory `dir`.
pub open spec fn joined(dir: Seq<char>, name: Seq<char>) -> Seq<char> {
    if dir.len() == 0 || dir.last() == '/' {
        dir + name
    } else {
        dir.push('/') + name
    }
}

/// Builds the path of the entry `name` of directory `dir`.
pub fn join(dir: &str, name: &str) -> (r: String)
    ensures
        r@ == joined(dir@, name@),
{
    let n: usize = dir.unicode_len();
    let mut r = dir.to_owned();
    if n > 0 && dir.get_char(n - 1) != '/' {
        r.append("/");
        proof {
            reveal_strlit("/");
            assert(r@ =~= dir@.push('/'));
        }
    }
    r.append(name);
    r
}

impl DepotDir {
    /// The directories for a run that writes to `out_dir`.
    pub fn new(seeds_dir: String, out_dir: &str) -> (r: Self)
        ensures
            r.seeds_dir@ == seeds_dir@,
            r.inputs_dir@ == joined(out_dir@, "queue"@),
            r.hangs_dir@ == joined(out_dir@, "hangs"@),
            r.crashes_dir@ == joined(out_dir@, "crashes"@),
    {
        DepotDir {
            inputs_dir: join(out_dir, "queue"),
            hangs_dir: join(out_dir, "hangs"),
            crashes_dir: join(out_dir, "crashes"),
            seeds_dir,
        }
    }
}


/// The path of an entry is that of its directory, one slash, and its name; a
/// slash at the end of the directory is not written twice.
pub proof fn paths_lead_to_entries(dir: Seq<char>, name: Seq<char>)
    requires
        dir.len() > 0,
        dir.last() != '/',
    ensures
        joined(dir, name) == dir + seq!['/'] + name,
        joined(dir.push('/'), name) == dir + seq!['/'] + name,
        joined(Seq::empty(), name) == name,
{
    assert(joined(dir, name) =~= dir + seq!['/'] + name);
    assert(joined(dir.push('/'), name) =~= dir + seq!['/'] + name);
    assert(joined(Seq::empty(), name) =~= name);
}

} // verus!
