//! Chunked maps and the order in which their chunks are visited.
//!
//! A map of `total` cells is cut into consecutive chunks of almost equal size.
//! A walk over the chunks starts anywhere and advances by a step that has no
//! common factor with the number of chunks, so that it meets each chunk once.

use crate::rng::below;
use rand::rngs::ThreadRng;
use vstd::prelude::*;

verus! {

/// The greatest common divisor.
pub open spec fn gcd(a: nat, b: nat) -> nat
    decreases b,
{
    if b == 0 {
        a
    } else {
        gcd(b, a % b)
    }
}

/// Calls `num::integer::gcd`, which computes the greatest common divisor.
#[verifier::external_body]
pub(crate) fn num_gcd(x: usize, y: usize) -> (r: usize)
    ensures
        r == gcd(x as nat, y as nat),
{
    num::integer::gcd(x, y)
}

/// `gcd` is a combination of its arguments.
proof fn lemma_bezout(a: nat, b: nat) -> (c: (int, int))
    ensures
        c.0 * a + c.1 * b == gcd(a, b),
    decreases b,
{
    if b == 0 {
        (1, 0)
    } else {
        let d = lemma_bezout(b, a % b);
        let q = (a / b) as int;
        vstd::arithmetic::div_mod::lemma_fundamental_div_mod(a as int, b as int);
        let x = d.0;
        let y = d.1;
        let bi = b as int;
        let r = (a % b) as int;
        assert(y * (bi * q + r) + (x - y * q) * bi == x * bi + y * r) by (nonlinear_arith);
        (y, x - y * q)
    }
}

/// A number without common factor with `n` can be cancelled modulo `n`.
proof fn lemma_cancel(step: nat, n: nat, k: int)
    requires
        n > 0,
        gcd(step, n) == 1,
        (k * step) % (n as int) == 0,
    ensures
        k % (n as int) == 0,
{
    let c = lemma_bezout(step, n);
    let ni = n as int;
    let s = step as int;
    vstd::arithmetic::div_mod::lemma_fundamental_div_mod(k * s, ni);
    let q = (k * s) / ni;
    assert(k * s == ni * q);
    let m = c.0 * q + k * c.1;
    assert(k == ni * m) by (nonlinear_arith)
        requires
            c.0 * s + c.1 * ni == 1,
            k * s == ni * q,
            m == c.0 * q + k * c.1,
    {
        assert(k * (c.0 * s + c.1 * ni) == c.0 * (k * s) + k * c.1 * ni) by (nonlinear_arith);
        assert(c.0 * (ni * q) + k * c.1 * ni == ni * (c.0 * q + k * c.1)) by (nonlinear_arith);
    }
    vstd::arithmetic::div_mod::lemma_mod_multiples_basic(m, ni);
    vstd::arithmetic::mul::lemma_mul_is_commutative(m, ni);
}

/// The chunk met at step `k` of a walk.
pub open spec fn walk_at(n: nat, start: nat, step: nat, k: nat) -> int {
    ((start + k * step) as int) % (n as int)
}

/// `order` is the walk over `n` chunks from `start` by `step`.
pub open spec fn is_walk(order: Seq<usize>, n: nat, start: nat, step: nat) -> bool {
    &&& order.len() == n
    &&& forall|k: int| 0 <= k < n ==> #[trigger] order[k] == walk_at(n, start, step, k as nat)
}

/// A walk never meets a chunk twice.
proof fn lemma_walk_distinct(n: nat, start: nat, step: nat, i: nat, j: nat)
    requires
        n > 0,
        gcd(step, n) == 1,
        i < j < n,
    ensures
        walk_at(n, start, step, i) != walk_at(n, start, step, j),
{
    if walk_at(n, start, step, i) == walk_at(n, start, step, j) {
        let ni = n as int;
        let a = (start + i * step) as int;
        let b = (start + j * step) as int;
        let k = j - i;
        vstd::arithmetic::div_mod::lemma_fundamental_div_mod(a, ni);
        vstd::arithmetic::div_mod::lemma_fundamental_div_mod(b, ni);
        assert(k * (step as int) == j * step - i * step) by (nonlinear_arith)
            requires
                k == j - i,
        ;
        assert(b - a == (b / ni - a / ni) * ni) by (nonlinear_arith)
            requires
                a == ni * (a / ni) + a % ni,
                b == ni * (b / ni) + b % ni,
                a % ni == b % ni,
        ;
        vstd::arithmetic::div_mod::lemma_mod_multiples_basic(b / ni - a / ni, ni);
        lemma_cancel(step, n, k);
        vstd::arithmetic::div_mod::lemma_small_mod(k as nat, n);
    }
}

/// `order` lists each of `0..n` once.
pub open spec fn is_order(order: Seq<usize>, n: int) -> bool {
    &&& order.len() == n
    &&& forall|i: int| 0 <= i < n ==> 0 <= #[trigger] order[i] < n
    &&& forall|i: int, j: int| 0 <= i < j < n ==> order[i] != order[j]
}

/// An order of `0..n` lists every one of them.
pub proof fn order_meets_all(order: Seq<usize>, n: int, c: int)
    requires
        is_order(order, n),
        0 <= c < n,
    ensures
        order.contains(c as usize),
{
    let full = vstd::set_lib::set_int_range(0, n);
    let ints = order.map_values(|x: usize| x as int);
    assert(ints.no_duplicates());
    let met = ints.to_set();
    ints.unique_seq_to_set();
    vstd::set_lib::lemma_int_range(0, n);
    assert(met.subset_of(full)) by {
        assert forall|x: int| met.contains(x) implies full.contains(x) by {
            let i = choose|i: int| 0 <= i < ints.len() && ints[i] == x;
            assert(order[i] == x);
        }
    }
    vstd::set_lib::lemma_subset_equality(met, full);
    assert(met.contains(c));
    let i = choose|i: int| 0 <= i < ints.len() && ints[i] == c;
    assert(order[i] == c);
}

/// A walk of `n` steps is an order of the chunks.
pub proof fn walk_is_order(n: nat, start: nat, step: nat, order: Seq<usize>)
    requires
        n > 0,
        gcd(step, n) == 1,
        is_walk(order, n, start, step),
    ensures
        is_order(order, n as int),
{
    assert forall|i: int, j: int| 0 <= i < j < n implies order[i] != order[j] by {
        lemma_walk_distinct(n, start, step, i as nat, j as nat);
    }
    assert forall|i: int| 0 <= i < n implies 0 <= #[trigger] order[i] < n by {
        vstd::arithmetic::div_mod::lemma_mod_bound((start + i * step) as int, n as int);
    }
}

/// The step sizes a walk over `n` chunks may use: those below `n` that have no
/// common factor with it, and one if there is a single chunk.
pub open spec fn is_step(n: nat, step: nat) -> bool {
    if n == 1 {
        step == 1
    } else {
        1 <= step < n && gcd(step, n) == 1
    }
}

/// Every step size for `n` chunks has no common factor with `n`, and one is
/// always among them.
pub proof fn steps_are_coprime(n: nat, step: nat)
    requires
        n > 0,
    ensures
        is_step(n, step) ==> gcd(step, n) == 1,
        is_step(n, 1),
{
    assert(gcd(1, n) == 1) by {
        reveal_with_fuel(gcd, 3);
        if n > 1 {
            vstd::arithmetic::div_mod::lemma_small_mod(1, n);
        }
    }
}

/// The steps below `hi`, in increasing order.
pub open spec fn steps_below(n: nat, hi: nat) -> Seq<usize>
    decreases hi,
{
    if hi <= 1 {
        Seq::empty()
    } else {
        let rest = steps_below(n, (hi - 1) as nat);
        if gcd((hi - 1) as nat, n) == 1 {
            rest.push((hi - 1) as usize)
        } else {
            rest
        }
    }
}

/// All step sizes for `n` chunks, in increasing order.
pub open spec fn all_steps(n: nat) -> Seq<usize> {
    if n == 1 {
        seq![1usize]
    } else {
        steps_below(n, n)
    }
}

proof fn lemma_steps_below(n: nat, hi: nat)
    requires
        hi <= n,
        n <= usize::MAX,
        n > 1,
    ensures
        forall|i: int| 0 <= i < steps_below(n, hi).len() ==> is_step(
            n,
            #[trigger] steps_below(n, hi)[i] as nat,
        ) && steps_below(n, hi)[i] < hi,
        hi >= 2 ==> steps_below(n, hi).len() > 0,
    decreases hi,
{
    if hi > 1 {
        lemma_steps_below(n, (hi - 1) as nat);
        steps_are_coprime(n, 1);
        let rest = steps_below(n, (hi - 1) as nat);
        assert forall|i: int| 0 <= i < steps_below(n, hi).len() implies is_step(
            n,
            #[trigger] steps_below(n, hi)[i] as nat,
        ) && steps_below(n, hi)[i] < hi by {
            if i < rest.len() {
                assert(steps_below(n, hi)[i] == rest[i]);
            }
        }
    }
}

/// The table of step sizes holds steps only, and is never empty.
pub proof fn step_table(n: nat)
    requires
        0 < n <= usize::MAX,
    ensures
        all_steps(n).len() > 0,
        forall|i: int| 0 <= i < all_steps(n).len() ==> is_step(n, #[trigger] all_steps(n)[i] as nat),
{
    if n > 1 {
        lemma_steps_below(n, n);
    }
}

/// Precomputes the step sizes for `n` chunks.
pub fn coprime_steps(n: usize) -> (steps: Vec<usize>)
    requires
        n > 0,
    ensures
        steps@ == all_steps(n as nat),
{
    let mut steps: Vec<usize> = Vec::new();
    if n == 1 {
        steps.push(1);
        return steps;
    }
    let mut x: usize = 1;
    while x < n
        invariant
            1 <= x <= n,
            steps@ == steps_below(n as nat, x as nat),
        decreases n - x,
    {
        if num_gcd(x, n) == 1 {
            steps.push(x);
        }
        x = x + 1;
    }
    steps
}

/// The walk over `n` chunks from `start` by `step`.
pub fn chunk_order_from(n: usize, start: usize, step: usize) -> (order: Vec<usize>)
    requires
        2 * n <= usize::MAX,
        start < n,
        is_step(n as nat, step as nat),
    ensures
        is_walk(order@, n as nat, start as nat, step as nat),
        is_order(order@, n as int),
{
    let mut order: Vec<usize> = Vec::with_capacity(n);
    let mut idx: usize = start;
    proof {
        steps_are_coprime(n as nat, step as nat);
        vstd::arithmetic::div_mod::lemma_small_mod(start as nat, n as nat);
    }
    while order.len() < n
        invariant
            2 * n <= usize::MAX,
            start < n,
            is_step(n as nat, step as nat),
            order@.len() <= n,
            idx == walk_at(n as nat, start as nat, step as nat, order@.len()),
            idx < n,
            forall|k: int|
                0 <= k < order@.len() ==> #[trigger] order@[k] == walk_at(
                    n as nat,
                    start as nat,
                    step as nat,
                    k as nat,
                ),
        decreases n - order@.len(),
    {
        let ghost k = order@.len();
        order.push(idx);
        proof {
            let a = (start + k * step) as int;
            assert((k + 1) * step == k * step + step) by (nonlinear_arith);
            vstd::arithmetic::div_mod::lemma_add_mod_noop(a, step as int, n as int);
            vstd::arithmetic::div_mod::lemma_add_mod_noop(a % (n as int), step as int, n as int);
            vstd::arithmetic::div_mod::lemma_mod_twice(a, n as int);
        }
        idx = (idx + step) % n;
    }
    proof {
        walk_is_order(n as nat, start as nat, step as nat, order@);
    }
    order
}

/// A walk over `n` chunks with a random start and a random step.
pub fn random_chunk_order(rng: &mut ThreadRng, n: usize, steps: &Vec<usize>) -> (order: Vec<usize>)
    requires
        0 < n,
        2 * n <= usize::MAX,
        steps@ == all_steps(n as nat),
    ensures
        is_order(order@, n as int),
        exists|start: usize, step: usize|
            start < n && is_step(n as nat, step as nat) && #[trigger] is_walk(
                order@,
                n as nat,
                start as nat,
                step as nat,
            ),
{
    proof {
        step_table(n as nat);
    }
    let start: usize = below(rng, n);
    let pick: usize = below(rng, steps.len());
    let step: usize = steps[pick];
    assert(is_step(n as nat, all_steps(n as nat)[pick as int] as nat));
    chunk_order_from(n, start, step)
}

/// Where chunk `i` begins when `total` cells are cut into `n` chunks: all have
/// `total / n` cells and the first `total % n` one more.
pub open spec fn chunk_start(total: nat, n: nat, i: nat) -> nat {
    i * (total / n) + if i < total % n {
        i
    } else {
        total % n
    }
}

proof fn lemma_chunk_step(total: nat, n: nat, i: nat)
    requires
        n > 0,
    ensures
        chunk_start(total, n, i + 1) == chunk_start(total, n, i) + total / n + if i < total % n {
            1nat
        } else {
            0nat
        },
{
    let q = total / n;
    assert((i + 1) * q == i * q + q) by (nonlinear_arith);
}

/// Chunks follow one another, from the first cell to the last.
pub proof fn chunks_are_consecutive(total: nat, n: nat, i: nat, j: nat)
    requires
        n > 0,
        i <= j <= n,
    ensures
        chunk_start(total, n, 0) == 0,
        chunk_start(total, n, n) == total,
        chunk_start(total, n, i) <= chunk_start(total, n, j) <= total,
    decreases n - i,
{
    vstd::arithmetic::div_mod::lemma_fundamental_div_mod(total as int, n as int);
    vstd::arithmetic::div_mod::lemma_mod_bound(total as int, n as int);
    vstd::arithmetic::mul::lemma_mul_basics(n as int);
    vstd::arithmetic::mul::lemma_mul_basics((total / n) as int);
    if i < n {
        lemma_chunk_step(total, n, i);
        if i < j {
            chunks_are_consecutive(total, n, i + 1, j);
        } else {
            chunks_are_consecutive(total, n, i + 1, i + 1);
        }
    }
}

/// The boundary tables of a map of `total` cells in `n` chunks: chunk `i`
/// holds the cells `start[i]..end[i]`.
pub open spec fn is_table(start: Seq<usize>, end: Seq<usize>, total: nat, n: nat) -> bool {
    &&& start.len() == n
    &&& end.len() == n
    &&& forall|i: int| 0 <= i < n ==> #[trigger] start[i] == chunk_start(total, n, i as nat)
    &&& forall|i: int| 0 <= i < n ==> #[trigger] end[i] == chunk_start(total, n, (i + 1) as nat)
}

/// The chunks cover every cell once: a table is sorted, starts at zero, ends
/// at `total`, and each chunk ends where the next one starts.
pub proof fn table_shape(start: Seq<usize>, end: Seq<usize>, total: nat, n: nat)
    requires
        is_table(start, end, total, n),
        n > 0,
    ensures
        start[0] == 0,
        end[n - 1] == total,
        forall|i: int| 0 <= i < n ==> #[trigger] start[i] <= end[i],
        forall|i: int| 0 <= i < n ==> #[trigger] end[i] <= total,
        forall|i: int, j: int|
            0 <= i < n && j == i + 1 && j < n ==> #[trigger] end[i] == #[trigger] start[j],
        forall|i: int, j: int| 0 <= i < j < n ==> end[i] <= start[j],
{
    chunks_are_consecutive(total, n, 0, n);
    assert forall|i: int| 0 <= i < n implies #[trigger] start[i] <= end[i] by {
        chunks_are_consecutive(total, n, i as nat, (i + 1) as nat);
    }
    assert forall|i: int| 0 <= i < n implies #[trigger] end[i] <= total by {
        chunks_are_consecutive(total, n, (i + 1) as nat, n);
    }
    assert forall|i: int, j: int| 0 <= i < j < n implies end[i] <= start[j] by {
        chunks_are_consecutive(total, n, (i + 1) as nat, j as nat);
    }
}

/// A vector of `n` copies of `value`.
pub fn filled<T: Copy>(value: T, n: usize) -> (v: Vec<T>)
    ensures
        v@ == Seq::new(n as nat, |i: int| value),
{
    let mut v: Vec<T> = Vec::with_capacity(n);
    while v.len() < n
        invariant
            v@.len() <= n,
            forall|i: int| 0 <= i < v@.len() ==> v@[i] == value,
        decreases n - v@.len(),
    {
        v.push(value);
    }
    assert(v@ =~= Seq::new(n as nat, |i: int| value));
    v
}

/// The chunks of a map hold what its tables say.
pub open spec fn is_chunked<T>(chunks: Seq<Vec<T>>, start: Seq<usize>, end: Seq<usize>) -> bool {
    &&& chunks.len() == start.len()
    &&& forall|i: int|
        0 <= i < chunks.len() ==> #[trigger] chunks[i]@.len() == end[i] - start[i]
}

/// Cuts a map of `total_size` cells, all set to `fill_value`, into `chunk_num`
/// chunks, and returns them with their boundary tables.
pub fn create_chunks<T: Copy>(fill_value: T, total_size: usize, chunk_num: usize) -> (r: (
    Vec<Vec<T>>,
    Vec<usize>,
    Vec<usize>,
))
    requires
        chunk_num > 0,
    ensures
        is_table(r.1@, r.2@, total_size as nat, chunk_num as nat),
        is_chunked(r.0@, r.1@, r.2@),
        forall|c: int, i: int|
            0 <= c < chunk_num && 0 <= i < r.0@[c]@.len() ==> #[trigger] r.0@[c]@[i] == fill_value,
{
    let chunk_size: usize = total_size / chunk_num;
    let extra: usize = total_size % chunk_num;
    let mut current_pos: usize = 0;
    let mut start_pos: Vec<usize> = Vec::with_capacity(chunk_num);
    let mut end_pos: Vec<usize> = Vec::with_capacity(chunk_num);
    let mut chunks: Vec<Vec<T>> = Vec::with_capacity(chunk_num);
    proof {
        chunks_are_consecutive(total_size as nat, chunk_num as nat, 0, chunk_num as nat);
    }
    let mut i: usize = 0;
    while i < chunk_num
        invariant
            0 <= i <= chunk_num,
            chunk_num > 0,
            chunk_size == total_size / chunk_num,
            extra == total_size % chunk_num,
            current_pos == chunk_start(total_size as nat, chunk_num as nat, i as nat),
            start_pos@.len() == i,
            end_pos@.len() == i,
            chunks@.len() == i,
            forall|k: int|
                0 <= k < i ==> #[trigger] start_pos@[k] == chunk_start(
                    total_size as nat,
                    chunk_num as nat,
                    k as nat,
                ),
            forall|k: int|
                0 <= k < i ==> #[trigger] end_pos@[k] == chunk_start(
                    total_size as nat,
                    chunk_num as nat,
                    (k + 1) as nat,
                ),
            forall|k: int| 0 <= k < i ==> #[trigger] chunks@[k]@.len() == end_pos@[k] - start_pos@[k],
            forall|c: int, k: int|
                0 <= c < i && 0 <= k < chunks@[c]@.len() ==> #[trigger] chunks@[c]@[k]
                    == fill_value,
        decreases chunk_num - i,
    {
        proof {
            lemma_chunk_step(total_size as nat, chunk_num as nat, i as nat);
            chunks_are_consecutive(
                total_size as nat,
                chunk_num as nat,
                (i + 1) as nat,
                chunk_num as nat,
            );
        }
        let size: usize = if i < extra {
            chunk_size + 1
        } else {
            chunk_size
        };
        start_pos.push(current_pos);
        current_pos = current_pos + size;
        end_pos.push(current_pos);
        chunks.push(filled(fill_value, size));
        i = i + 1;
    }
    (chunks, start_pos, end_pos)
}

/// The chunk that owns cell `id`: the last one that starts at or before it.
pub fn chunk_of(start_pos: &Vec<usize>, id: usize) -> (c: usize)
    requires
        start_pos@.len() > 0,
        start_pos@[0] == 0,
        forall|i: int, j: int| 0 <= i <= j < start_pos@.len() ==> start_pos@[i] <= start_pos@[j],
    ensures
        c < start_pos@.len(),
        start_pos@[c as int] <= id,
        c + 1 < start_pos@.len() ==> id < start_pos@[c + 1],
{
    let mut lo: usize = 0;
    let mut hi: usize = start_pos.len();
    while lo + 1 < hi
        invariant
            lo < hi <= start_pos@.len(),
            start_pos@[lo as int] <= id,
            hi < start_pos@.len() ==> id < start_pos@[hi as int],
        decreases hi - lo,
    {
        let mid: usize = lo + (hi - lo) / 2;
        if start_pos[mid] <= id {
            lo = mid;
        } else {
            hi = mid;
        }
    }
    lo
}

/// Chunk `c` of the tables, among the first `thread_num`, holds cell `id`.
pub open spec fn holds_cell(
    start: Seq<usize>,
    end: Seq<usize>,
    thread_num: int,
    c: int,
    id: usize,
) -> bool {
    0 <= c < thread_num && c < start.len() && c < end.len() && start[c] <= id < end[c]
}

/// Finds the first chunk that holds cell `branch_id`, and its place in it.
/// `None` if the cell is out of range.
pub fn find_chunk_and_local_idx(
    branch_id: usize,
    branch_start_pos: &[usize],
    branch_end_pos: &[usize],
    thread_num: usize,
) -> (r: Option<(usize, usize)>)
    ensures
        match r {
            Some((c, local)) => {
                &&& holds_cell(branch_start_pos@, branch_end_pos@, thread_num as int, c as int, branch_id)
                &&& local == branch_id - branch_start_pos@[c as int]
                &&& forall|k: int|
                    k < c ==> !holds_cell(branch_start_pos@, branch_end_pos@, thread_num as int, k, branch_id)
            },
            None => forall|k: int|
                !holds_cell(branch_start_pos@, branch_end_pos@, thread_num as int, k, branch_id),
        },
{
    let mut c: usize = 0;
    while c < thread_num && c < branch_start_pos.len() && c < branch_end_pos.len()
        invariant
            forall|k: int|
                k < c ==> !holds_cell(
                    branch_start_pos@,
                    branch_end_pos@,
                    thread_num as int,
                    k,
                    branch_id,
                ),
        decreases thread_num - c,
    {
        if branch_id >= branch_start_pos[c] && branch_id < branch_end_pos[c] {
            return Some((c, branch_id - branch_start_pos[c]));
        }
        c = c + 1;
    }
    None
}

/// Every cell of a map is in one chunk of its tables and in no other, so both
/// ways of looking a cell up agree.
pub proof fn lookups_agree(
    start: Seq<usize>,
    end: Seq<usize>,
    total: nat,
    n: nat,
    id: usize,
    c: int,
)
    requires
        is_table(start, end, total, n),
        n > 0,
        id < total,
        0 <= c < n,
        start[c] <= id,
        c + 1 < n ==> id < start[c + 1],
    ensures
        holds_cell(start, end, n as int, c, id),
        forall|k: int| holds_cell(start, end, n as int, k, id) ==> k == c,
{
    table_shape(start, end, total, n);
    if c + 1 < n {
        assert(end[c] == start[c + 1]);
    }
    assert forall|k: int| holds_cell(start, end, n as int, k, id) implies k == c by {
        if k < c {
            assert(end[k] <= start[c]);
        } else if c < k {
            assert(end[c] <= start[k]);
        }
    }
}

/// The chunk that holds cell `id`.
pub open spec fn owner(start: Seq<usize>, end: Seq<usize>, id: int) -> int {
    choose|c: int| 0 <= c < start.len() && #[trigger] start[c] <= id < end[c]
}

/// A cell that lies in a chunk has that chunk for its owner.
pub proof fn owner_is(
    start: Seq<usize>,
    end: Seq<usize>,
    total: nat,
    n: nat,
    c: int,
    id: int,
)
    requires
        is_table(start, end, total, n),
        0 <= c < n,
        start[c] <= id < end[c],
    ensures
        owner(start, end, id) == c,
{
    table_shape(start, end, total, n);
    let d = owner(start, end, id);
    assert(0 <= d < start.len() && start[d] <= id < end[d]);
    if d < c {
        assert(end[d] <= start[c]);
    } else if c < d {
        assert(end[c] <= start[d]);
    }
}

proof fn lemma_owner_below(
    start: Seq<usize>,
    end: Seq<usize>,
    total: nat,
    n: nat,
    k: int,
    id: int,
) -> (c: int)
    requires
        is_table(start, end, total, n),
        0 < k <= n,
        0 <= id < end[k - 1],
    ensures
        0 <= c < k,
        start[c] <= id < end[c],
    decreases k,
{
    table_shape(start, end, total, n);
    if start[k - 1] <= id {
        k - 1
    } else {
        assert(end[k - 2] == start[k - 1]);
        lemma_owner_below(start, end, total, n, k - 1, id)
    }
}

/// Every cell has an owner.
pub proof fn owner_exists(start: Seq<usize>, end: Seq<usize>, total: nat, n: nat, id: int)
    requires
        is_table(start, end, total, n),
        0 < n,
        0 <= id < total,
    ensures
        0 <= owner(start, end, id) < n,
        start[owner(start, end, id)] <= id < end[owner(start, end, id)],
{
    table_shape(start, end, total, n);
    let c = lemma_owner_below(start, end, total, n, n as int, id);
    assert(0 <= c < start.len() && start[c] <= id < end[c]);
}


/// The greatest common divisor divides both numbers, and whatever divides both
/// divides it.
pub proof fn common_divisors_divide_the_greatest(a: nat, b: nat, d: int)
    requires
        a > 0 || b > 0,
        d > 0,
    ensures
        gcd(a, b) > 0,
        a % gcd(a, b) == 0,
        b % gcd(a, b) == 0,
        a as int % d == 0 && b as int % d == 0 ==> gcd(a, b) as int % d == 0,
    decreases b,
{
    if b == 0 {
        vstd::arithmetic::div_mod::lemma_mod_self_0(a as int);
        vstd::arithmetic::div_mod::lemma_small_mod(0, a);
    } else {
        common_divisors_divide_the_greatest(b, a % b, d);
        let g = gcd(a, b) as int;
        let (x, y) = (a as int, b as int);
        let r = x % y;
        let q = x / y;
        vstd::arithmetic::div_mod::lemma_fundamental_div_mod(x, y);
        vstd::arithmetic::div_mod::lemma_fundamental_div_mod(y, g);
        vstd::arithmetic::div_mod::lemma_fundamental_div_mod(r, g);
        let m = q * (y / g) + r / g;
        assert(x == m * g) by (nonlinear_arith)
            requires
                x == y * q + r,
                y == g * (y / g),
                r == g * (r / g),
                m == q * (y / g) + r / g,
        ;
        vstd::arithmetic::div_mod::lemma_mod_multiples_basic(m, g);
        if x % d == 0 && y % d == 0 {
            vstd::arithmetic::div_mod::lemma_fundamental_div_mod(x, d);
            vstd::arithmetic::div_mod::lemma_fundamental_div_mod(y, d);
            let n = x / d - q * (y / d);
            assert(r == n * d) by (nonlinear_arith)
                requires
                    x == y * q + r,
                    x == d * (x / d),
                    y == d * (y / d),
                    n == x / d - q * (y / d),
            ;
            vstd::arithmetic::div_mod::lemma_mod_multiples_basic(n, d);
        }
    }
}

proof fn lemma_all_steps_below(n: nat, hi: nat, x: usize)
    requires
        hi <= n <= usize::MAX,
    ensures
        steps_below(n, hi).contains(x) <==> 1 <= x < hi && gcd(x as nat, n) == 1,
        forall|i: int|
            0 <= i < steps_below(n, hi).len() ==> (#[trigger] steps_below(n, hi)[i]) < hi,
        forall|i: int, j: int|
            0 <= i < j < steps_below(n, hi).len() ==> steps_below(n, hi)[i] < steps_below(
                n,
                hi,
            )[j],
    decreases hi,
{
    if hi > 1 {
        let rest = steps_below(n, (hi - 1) as nat);
        lemma_all_steps_below(n, (hi - 1) as nat, x);
        let s = (hi - 1) as usize;
        if rest.contains(x) {
            let i = choose|i: int| 0 <= i < rest.len() && rest[i] == x;
            assert(rest.push(s)[i] == x);
        }
        if rest.push(s).contains(x) {
            let i = choose|i: int| 0 <= i < rest.push(s).len() && rest.push(s)[i] == x;
            if i < rest.len() {
                assert(rest[i] == x);
            }
        }
        assert(rest.push(s)[rest.len() as int] == s);
    }
}

/// The steps are all numbers below that of the chunks which have no divisor in
/// common with it, in increasing order.
pub proof fn no_step_is_missing(n: nat, x: usize)
    requires
        1 < n <= usize::MAX,
    ensures
        all_steps(n).contains(x) <==> 1 <= x < n && gcd(x as nat, n) == 1,
        forall|i: int, j: int|
            0 <= i < j < all_steps(n).len() ==> all_steps(n)[i] < all_steps(n)[j],
        all_steps(1) == seq![1usize],
{
    lemma_all_steps_below(n, n, x);
}

/// A walk begins at its start, and each chunk lies a step behind the one before
/// it, counted from the start again behind the end.
pub proof fn walks_go_step_by_step(order: Seq<usize>, n: nat, start: nat, step: nat, k: int)
    requires
        is_walk(order, n, start, step),
        start < n,
        0 <= k,
        k + 1 < n,
    ensures
        order[0] == start,
        order[k + 1] == (order[k] + step) % (n as int),
{
    assert(order[0] == walk_at(n, start, step, 0));
    assert(0 * step == 0);
    vstd::arithmetic::div_mod::lemma_small_mod(start, n);
    assert(order[k] == walk_at(n, start, step, k as nat));
    assert(order[k + 1] == walk_at(n, start, step, (k + 1) as nat));
    let a = (start + k * step) as int;
    assert((k + 1) * step == k * step + step) by (nonlinear_arith);
    vstd::arithmetic::div_mod::lemma_add_mod_noop(a, step as int, n as int);
    vstd::arithmetic::div_mod::lemma_add_mod_noop(a % (n as int), step as int, n as int);
    vstd::arithmetic::div_mod::lemma_mod_twice(a, n as int);
}

/// Chunks have almost the same size: an earlier one may have one cell more.
pub proof fn chunks_have_almost_one_size(
    start: Seq<usize>,
    end: Seq<usize>,
    total: nat,
    n: nat,
    i: int,
    j: int,
)
    requires
        is_table(start, end, total, n),
        0 <= i < j < n,
    ensures
        end[j] - start[j] <= end[i] - start[i] <= end[j] - start[j] + 1,
{
    lemma_chunk_step(total, n, i as nat);
    lemma_chunk_step(total, n, j as nat);
    assert(start[i] == chunk_start(total, n, i as nat));
    assert(start[j] == chunk_start(total, n, j as nat));
    assert(end[i] == chunk_start(total, n, (i + 1) as nat));
    assert(end[j] == chunk_start(total, n, (j + 1) as nat));
}

} // verus!
