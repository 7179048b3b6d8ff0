//! Asking the agent for mutation functions, and keeping track of them.

use crate::branches::GlobalBranches;
use crate::chunks::{coprime_steps, is_order, order_meets_all, random_chunk_order, table_shape};
use crate::config::{MAX_RETRY_COUNT, TIME_INTERVAL};
use crate::depot::depot_dir::{join, joined};
use crate::mutate_func::BranchMutateInfo;
use crate::search::ascii::{digits, digits_are_decimal, is_decimal, print_digits};
use crate::text::{
    chars_of, decimal_string, decimal_text, digits_are_solid, find_chars, is_space,
    lemma_first_place, lemma_next_word, lemma_no_word, numbers_read_back, parse_unsigned, place_of,
    places, slice_of, split_words, stands_at, trim, trimmed, unsigned, white_space_is_cut_off, words,
    Class,
};
use rand::rngs::ThreadRng;
use vstd::prelude::*;
use vstd::string::StringExecFns;

verus! {

/// A branch for which the agent is asked for a function.
#[derive(Clone, Copy, Debug, PartialEq, Eq, Structural)]
pub struct Request {
    pub chunk_idx: usize,
    pub local_idx: usize,
    pub branch_id: usize,
    /// The edge behind the branch that was not seen yet.
    pub edge_id: usize,
}

/// A branch that was reached long ago, is not covered, and has attempts left.
pub open spec fn needs_function(info: BranchMutateInfo, now: int) -> bool {
    &&& info.reach_time > 0
    &&& info.reach_time + TIME_INTERVAL < now
    &&& !info.is_covered
    &&& info.retry_count < MAX_RETRY_COUNT
}

/// Tells whether a branch needs a function, at time `now` in seconds.
pub fn is_due(info: &BranchMutateInfo, now: usize) -> (r: bool)
    ensures
        r == needs_function(*info, now as int),
{
    info.reach_time > 0 && now > TIME_INTERVAL && info.reach_time < now - TIME_INTERVAL
        && !info.is_covered && info.retry_count < MAX_RETRY_COUNT
}

/// The request for cell `l` of chunk `c`, if the branch needs a function and
/// one edge behind it was not seen yet.
pub open spec fn request_at(g: &GlobalBranches, c: int, l: int, now: int) -> Option<Request> {
    let b = g.branch_start_pos@[c] + l;
    let open_edges = g.branch_boundary@[b]@;
    if needs_function(g.branch_mutate_funcs@[c]@[l], now) && open_edges.len() == 1
        && open_edges[0] != 0 {
        Some(
            Request {
                chunk_idx: c as usize,
                local_idx: l as usize,
                branch_id: b as usize,
                edge_id: open_edges[0],
            },
        )
    } else {
        None
    }
}

/// The requests for the first `n` cells of chunk `c`.
pub open spec fn requests_in_chunk(g: &GlobalBranches, c: int, n: int, now: int) -> Seq<Request>
    decreases n,
{
    if n <= 0 {
        Seq::empty()
    } else {
        let before = requests_in_chunk(g, c, n - 1, now);
        match request_at(g, c, n - 1, now) {
            Some(r) => before.push(r),
            None => before,
        }
    }
}

/// The requests for the first `n` chunks in the given order.
pub open spec fn requests_in(
    g: &GlobalBranches,
    order: Seq<usize>,
    n: int,
    now: int,
) -> Seq<Request>
    decreases n,
{
    if n <= 0 {
        Seq::empty()
    } else {
        let c = order[n - 1] as int;
        requests_in(g, order, n - 1, now) + requests_in_chunk(
            g,
            c,
            g.branch_mutate_funcs@[c]@.len() as int,
            now,
        )
    }
}

proof fn lemma_chunk_finds(g: &GlobalBranches, c: int, n: int, now: int, l: int)
    requires
        0 <= l < n,
        request_at(g, c, l, now) is Some,
    ensures
        requests_in_chunk(g, c, n, now).contains(request_at(g, c, l, now)->0),
    decreases n,
{
    let r = request_at(g, c, l, now)->0;
    let before = requests_in_chunk(g, c, n - 1, now);
    let all = requests_in_chunk(g, c, n, now);
    if l == n - 1 {
        assert(all[before.len() as int] == r);
    } else {
        lemma_chunk_finds(g, c, n - 1, now, l);
        let i = choose|i: int| 0 <= i < before.len() && before[i] == r;
        assert(all[i] == r);
    }
}

proof fn lemma_order_finds(
    g: &GlobalBranches,
    order: Seq<usize>,
    n: int,
    now: int,
    k: int,
    l: int,
)
    requires
        0 <= k < n <= order.len(),
        0 <= l < g.branch_mutate_funcs@[order[k] as int]@.len(),
        request_at(g, order[k] as int, l, now) is Some,
    ensures
        requests_in(g, order, n, now).contains(request_at(g, order[k] as int, l, now)->0),
    decreases n,
{
    let r = request_at(g, order[k] as int, l, now)->0;
    let before = requests_in(g, order, n - 1, now);
    let c = order[n - 1] as int;
    let here = requests_in_chunk(g, c, g.branch_mutate_funcs@[c]@.len() as int, now);
    let all = requests_in(g, order, n, now);
    if k == n - 1 {
        lemma_chunk_finds(g, c, g.branch_mutate_funcs@[c]@.len() as int, now, l);
        let i = choose|i: int| 0 <= i < here.len() && here[i] == r;
        assert(all[before.len() + i] == r);
    } else {
        lemma_order_finds(g, order, n - 1, now, k, l);
        let i = choose|i: int| 0 <= i < before.len() && before[i] == r;
        assert(all[i] == r);
    }
}

/// Whatever the order of the chunks, every branch that needs a function is
/// asked for.
pub proof fn requests_miss_none(
    g: &GlobalBranches,
    order: Seq<usize>,
    now: int,
    c: usize,
    l: int,
)
    requires
        is_order(order, g.thread_num as int),
        c < g.thread_num,
        0 <= l < g.branch_mutate_funcs@[c as int]@.len(),
        request_at(g, c as int, l, now) is Some,
    ensures
        requests_in(g, order, order.len() as int, now).contains(
            request_at(g, c as int, l, now)->0,
        ),
{
    order_meets_all(order, g.thread_num as int, c as int);
    let k = choose|k: int| 0 <= k < order.len() && order[k] == c;
    lemma_order_finds(g, order, order.len() as int, now, k, l);
}

/// The requests to send, for chunks in the given order.
pub fn collect_requests(global: &GlobalBranches, order: &Vec<usize>, now: usize) -> (r: Vec<
    Request,
>)
    requires
        global.tables_wf(),
        is_order(order@, global.thread_num as int),
    ensures
        r@ == requests_in(global, order@, order@.len() as int, now as int),
{
    let mut r: Vec<Request> = Vec::new();
    let mut k: usize = 0;
    proof {
        table_shape(
            global.branch_start_pos@,
            global.branch_end_pos@,
            global.fast_map_size_data.used_branch_map_size as nat,
            global.n(),
        );
    }
    while k < order.len()
        invariant
            k <= order@.len(),
            global.tables_wf(),
            is_order(order@, global.thread_num as int),
            r@ == requests_in(global, order@, k as int, now as int),
        decreases order@.len() - k,
    {
        let c: usize = order[k];
        let start: usize = global.branch_start_pos[c];
        let infos = &global.branch_mutate_funcs[c];
        let ghost before = r@;
        assert(before + requests_in_chunk(global, c as int, 0, now as int) =~= before);
        proof {
            table_shape(
                global.branch_start_pos@,
                global.branch_end_pos@,
                global.fast_map_size_data.used_branch_map_size as nat,
                global.n(),
            );
        }
        let mut l: usize = 0;
        while l < infos.len()
            invariant
                l <= infos@.len(),
                c < global.thread_num,
                global.tables_wf(),
                start == global.branch_start_pos@[c as int],
                infos@ == global.branch_mutate_funcs@[c as int]@,
                start + infos@.len() <= global.branch_boundary@.len(),
                r@ == before + requests_in_chunk(global, c as int, l as int, now as int),
            decreases infos@.len() - l,
        {
            let ghost so_far = requests_in_chunk(global, c as int, l as int, now as int);
            assert(global.branch_boundary@.len() <= usize::MAX);
            if is_due(&infos[l], now) {
                let branch_id: usize = start + l;
                let open_edges = &global.branch_boundary[branch_id];
                if open_edges.len() == 1 && open_edges[0] != 0 {
                    let request = Request {
                        chunk_idx: c,
                        local_idx: l,
                        branch_id,
                        edge_id: open_edges[0],
                    };
                    r.push(request);
                    assert(before + so_far.push(request) =~= (before + so_far).push(request));
                }
            }
            l = l + 1;
        }
        k = k + 1;
    }
    r
}

/// The requests to send at time `now`. The chunks are visited in a random
/// order.
pub fn choose_requests(global: &GlobalBranches, rng: &mut ThreadRng, now: usize) -> (r: Vec<
    Request,
>)
    requires
        global.tables_wf(),
    ensures
        exists|order: Seq<usize>|
            is_order(order, global.thread_num as int) && r@ == #[trigger] requests_in(
                global,
                order,
                order.len() as int,
                now as int,
            ),
{
    let steps: Vec<usize> = coprime_steps(global.thread_num);
    let order: Vec<usize> = random_chunk_order(rng, global.thread_num, &steps);
    collect_requests(global, &order, now)
}

/// The bytes of a request: a one, the branch and the edge.
pub open spec fn request_text(branch_id: nat, edge_id: nat) -> Seq<u8> {
    seq![49u8, 32u8] + digits(branch_id) + seq![32u8] + digits(edge_id) + seq![10u8]
}

/// The bytes of a request.
pub fn request_bytes(request: &Request) -> (r: Vec<u8>)
    ensures
        r@ == request_text(request.branch_id as nat, request.edge_id as nat),
{
    let mut r: Vec<u8> = Vec::new();
    r.push(49);
    r.push(32);
    let mut branch: Vec<u8> = print_digits(request.branch_id as u64);
    r.append(&mut branch);
    r.push(32);
    let mut edge: Vec<u8> = print_digits(request.edge_id as u64);
    r.append(&mut edge);
    r.push(10);
    assert(r@ =~= request_text(request.branch_id as nat, request.edge_id as nat));
    r
}

/// What the agent answered.
#[derive(Debug)]
pub enum Response {
    /// The function lies in this library.
    Load { path: String },
    /// The function lies in the library at the usual place.
    LoadDefault,
    /// No function can help.
    Impossible,
    /// Something went wrong.
    Failed,
}

/// The model of [`Response`].
pub ghost enum ResponseView {
    Load { path: Seq<char> },
    LoadDefault,
    Impossible,
    Failed,
}

impl View for Response {
    type V = ResponseView;

    open spec fn view(&self) -> ResponseView {
        match self {
            Response::Load { path } => ResponseView::Load { path: path@ },
            Response::LoadDefault => ResponseView::LoadDefault,
            Response::Impossible => ResponseView::Impossible,
            Response::Failed => ResponseView::Failed,
        }
    }
}

/// Word `i` of a text.
pub open spec fn word(text: Seq<char>, i: int) -> Seq<char> {
    let w = words(text, 0)[i];
    text.subrange(w.0, w.1)
}

/// What an answer to a request for `branch_id` means. A zero and the branch
/// report success, with or without a path; a one and a zero report that it is
/// impossible; anything else is a failure.
pub open spec fn response_of(text: Seq<char>, branch_id: nat) -> ResponseView {
    let n = words(text, 0).len();
    if (n == 2 || n == 3) && word(text, 0) == seq!['0'] {
        if unsigned(word(text, 1), usize::MAX as nat) != Some(branch_id) {
            ResponseView::Failed
        } else if n == 3 {
            ResponseView::Load { path: word(text, 2) }
        } else {
            ResponseView::LoadDefault
        }
    } else if n == 2 && word(text, 0) == seq!['1'] && word(text, 1) == seq!['0'] {
        ResponseView::Impossible
    } else {
        ResponseView::Failed
    }
}

fn is_char(s: &[char], w: (usize, usize), c: char) -> (r: bool)
    requires
        w.0 <= w.1 <= s@.len(),
    ensures
        r == (s@.subrange(w.0 as int, w.1 as int) == seq![c]),
{
    let ghost t = s@.subrange(w.0 as int, w.1 as int);
    if w.1 - w.0 != 1 {
        assert(t.len() != 1);
        return false;
    }
    assert(t[0] == s@[w.0 as int]);
    assert(s[w.0 as int] == c ==> t =~= seq![c]);
    s[w.0] == c
}

/// Reads an answer to a request for `branch_id`.
pub fn parse_response(text: &str, branch_id: usize) -> (r: Response)
    ensures
        r@ == response_of(text@, branch_id as nat),
{
    let s: Vec<char> = chars_of(text);
    let w: Vec<(usize, usize)> = split_words(&s);
    let n: usize = w.len();
    assert(places(w@).len() == n);
    if n != 2 && n != 3 {
        return Response::Failed;
    }
    assert(words(text@, 0)[0] == (w@[0].0 as int, w@[0].1 as int));
    assert(words(text@, 0)[1] == (w@[1].0 as int, w@[1].1 as int));
    if is_char(&s, w[0], '0') {
        let id_text: Vec<char> = slice_of(&s, w[1].0, w[1].1);
        let matches = match parse_unsigned(&id_text, usize::MAX as u64) {
            Some(id) => id == branch_id as u64,
            None => false,
        };
        if !matches {
            return Response::Failed;
        }
        if n == 3 {
            assert(words(text@, 0)[2] == (w@[2].0 as int, w@[2].1 as int));
            let path = text.substring_char(w[2].0, w[2].1).to_owned();
            return Response::Load { path };
        }
        return Response::LoadDefault;
    }
    if n == 2 && is_char(&s, w[0], '1') && is_char(&s, w[1], '0') {
        return Response::Impossible;
    }
    Response::Failed
}

/// Words with a space between each two of them.
pub open spec fn spaced(parts: Seq<Seq<char>>) -> Seq<char>
    decreases parts.len(),
{
    if parts.len() == 0 {
        Seq::empty()
    } else if parts.len() == 1 {
        parts[0]
    } else {
        spaced(parts.drop_last()) + seq![' '] + parts.last()
    }
}

/// A word: at least one character, and no white space.
pub open spec fn is_word(s: Seq<char>) -> bool {
    s.len() > 0 && forall|i: int| 0 <= i < s.len() ==> !is_space(#[trigger] s[i])
}

/// Two words are told apart.
proof fn lemma_two_words(a: Seq<char>, b: Seq<char>)
    requires
        is_word(a),
        is_word(b),
    ensures
        ({
            let s = spaced(seq![a, b]);
            &&& words(s, 0).len() == 2
            &&& word(s, 0) == a
            &&& word(s, 1) == b
        }),
{
    reveal_with_fuel(spaced, 3);
    let s = spaced(seq![a, b]);
    let n = a.len() as int;
    assert(seq![a, b].drop_last() =~= seq![a]);
    assert(s =~= a + seq![' '] + b);
    lemma_next_word(s, 0, 0, n);
    lemma_next_word(s, n, n + 1, s.len() as int);
    lemma_no_word(s);
    assert(words(s, 0) =~= seq![(0int, n), (n + 1, s.len() as int)]);
    assert(word(s, 0) =~= a);
    assert(word(s, 1) =~= b);
}

/// Three words are told apart.
proof fn lemma_three_words(a: Seq<char>, b: Seq<char>, c: Seq<char>)
    requires
        is_word(a),
        is_word(b),
        is_word(c),
    ensures
        ({
            let s = spaced(seq![a, b, c]);
            &&& words(s, 0).len() == 3
            &&& word(s, 0) == a
            &&& word(s, 1) == b
            &&& word(s, 2) == c
        }),
{
    reveal_with_fuel(spaced, 4);
    let s = spaced(seq![a, b, c]);
    let n = a.len() as int;
    let m = n + 1 + b.len();
    assert(seq![a, b, c].drop_last() =~= seq![a, b]);
    assert(seq![a, b].drop_last() =~= seq![a]);
    assert(s =~= a + seq![' '] + b + seq![' '] + c);
    lemma_next_word(s, 0, 0, n);
    lemma_next_word(s, n, n + 1, m);
    lemma_next_word(s, m, m + 1, s.len() as int);
    lemma_no_word(s);
    assert(words(s, 0) =~= seq![(0int, n), (n + 1, m), (m + 1, s.len() as int)]);
    assert(word(s, 0) =~= a);
    assert(word(s, 1) =~= b);
    assert(word(s, 2) =~= c);
}

/// The answers of the protocol are understood: a zero and the branch with or
/// without the path of a library, a one and a zero, and a one and a one. An
/// answer for another branch is a failure.
pub proof fn answers_are_understood(branch_id: usize, other: usize, path: Seq<char>)
    requires
        is_word(path),
        other != branch_id,
    ensures
        ({
            let id = decimal_text(branch_id as nat);
            let b = branch_id as nat;
            &&& response_of(spaced(seq![seq!['0'], id, path]), b) == (ResponseView::Load { path })
            &&& response_of(spaced(seq![seq!['0'], id]), b) == ResponseView::LoadDefault
            &&& response_of(spaced(seq![seq!['1'], seq!['0']]), b) == ResponseView::Impossible
            &&& response_of(spaced(seq![seq!['1'], seq!['1']]), b) == ResponseView::Failed
            &&& response_of(spaced(seq![seq!['0'], decimal_text(other as nat), path]), b)
                == ResponseView::Failed
            &&& response_of(spaced(seq![seq!['0'], decimal_text(other as nat)]), b)
                == ResponseView::Failed
        }),
{
    let id = decimal_text(branch_id as nat);
    let not_id = decimal_text(other as nat);
    numbers_read_back(branch_id as nat);
    numbers_read_back(other as nat);
    digits_are_solid(id);
    digits_are_solid(not_id);
    lemma_three_words(seq!['0'], id, path);
    lemma_two_words(seq!['0'], id);
    lemma_two_words(seq!['1'], seq!['0']);
    lemma_two_words(seq!['1'], seq!['1']);
    lemma_three_words(seq!['0'], not_id, path);
    lemma_two_words(seq!['0'], not_id);
    assert(seq!['1'][0] != seq!['0'][0]);
}

/// What is known of a branch after a failed attempt.
pub open spec fn after_failure(info: BranchMutateInfo) -> BranchMutateInfo {
    BranchMutateInfo { retry_count: (info.retry_count + 1) as usize, ..info }
}

/// What is known of a branch that the agent cannot help with.
pub open spec fn given_up(info: BranchMutateInfo) -> BranchMutateInfo {
    BranchMutateInfo { retry_count: MAX_RETRY_COUNT, ..info }
}

/// What is known of a branch whose function was loaded at time `now`. The
/// attempt counts, and the branch has time again before the next one; not so
/// for functions that are found at the start.
pub open spec fn after_loading(
    info: BranchMutateInfo,
    func: usize,
    initial: bool,
    now: usize,
) -> BranchMutateInfo {
    BranchMutateInfo {
        mutate_func: Some(func),
        is_covered: info.is_covered,
        reach_time: if initial {
            info.reach_time
        } else {
            now
        },
        retry_count: (info.retry_count + 1) as usize,
    }
}

/// Branches that were given up are asked for no more, whatever the time.
pub proof fn given_up_for_good(info: BranchMutateInfo, now: int)
    ensures
        !needs_function(given_up(info), now),
{
}

/// No branch is asked for more often than its attempts allow: success and
/// failure both count as one.
pub proof fn attempts_run_out(info: BranchMutateInfo, func: usize, initial: bool, time: usize)
    requires
        info.retry_count < usize::MAX,
    ensures
        after_failure(info).retry_count == info.retry_count + 1,
        after_loading(info, func, initial, time).retry_count == info.retry_count + 1,
        forall|now: int|
            info.retry_count + 1 >= MAX_RETRY_COUNT ==> !needs_function(after_failure(info), now)
                && !#[trigger] needs_function(after_loading(info, func, initial, time), now),
{
}

/// Counts a failed attempt.
pub fn note_failure(global: &mut GlobalBranches, branch_id: usize)
    requires
        old(global).wf(),
        branch_id < old(global).branch_boundary@.len(),
        old(global).info(branch_id as int).retry_count < usize::MAX,
    ensures
        final(global).wf(),
        final(global).same_but(old(global), branch_id as int),
        final(global).info(branch_id as int) == after_failure(old(global).info(branch_id as int)),
{
    let mut info: BranchMutateInfo = global.get_info(branch_id);
    info.retry_count = info.retry_count + 1;
    global.set_info(branch_id, info);
}

/// Gives a branch up.
pub fn note_impossible(global: &mut GlobalBranches, branch_id: usize)
    requires
        old(global).wf(),
        branch_id < old(global).branch_boundary@.len(),
    ensures
        final(global).wf(),
        final(global).same_but(old(global), branch_id as int),
        final(global).info(branch_id as int) == given_up(old(global).info(branch_id as int)),
{
    let mut info: BranchMutateInfo = global.get_info(branch_id);
    info.retry_count = MAX_RETRY_COUNT;
    global.set_info(branch_id, info);
}

/// Notes the function of a branch.
pub fn note_loaded(
    global: &mut GlobalBranches,
    branch_id: usize,
    func: usize,
    is_initial_load: bool,
    now: usize,
)
    requires
        old(global).wf(),
        branch_id < old(global).branch_boundary@.len(),
        old(global).info(branch_id as int).retry_count < usize::MAX,
    ensures
        final(global).wf(),
        final(global).same_but(old(global), branch_id as int),
        final(global).info(branch_id as int) == after_loading(
            old(global).info(branch_id as int),
            func,
            is_initial_load,
            now,
        ),
{
    let mut info: BranchMutateInfo = global.get_info(branch_id);
    info.mutate_func = Some(func);
    info.retry_count = info.retry_count + 1;
    if !is_initial_load {
        info.reach_time = now;
    }
    global.set_info(branch_id, info);
}

/// What a line of the list of branches that were given up holds.
#[derive(Clone, Copy, Debug, PartialEq, Eq, Structural)]
pub enum ListLine {
    /// Nothing.
    Blank,
    /// A branch.
    Branch { id: usize },
    /// Anything else.
    Invalid,
}

/// The number that a line holds, with white space around it.
pub open spec fn line_number(line: Seq<char>) -> Option<nat> {
    unsigned(trim(line), usize::MAX as nat)
}

/// What a line holds, if there are `total` branches.
pub open spec fn list_line(line: Seq<char>, total: nat) -> ListLine {
    if trim(line).len() == 0 {
        ListLine::Blank
    } else {
        match line_number(line) {
            Some(id) => if id < total {
                ListLine::Branch { id: id as usize }
            } else {
                ListLine::Invalid
            },
            None => ListLine::Invalid,
        }
    }
}

/// Reads the number that a line holds.
pub fn read_line_number(line: &str) -> (r: Option<usize>)
    ensures
        match r {
            Some(id) => line_number(line@) == Some(id as nat),
            None => line_number(line@) is None,
        },
{
    let s: Vec<char> = chars_of(line);
    let t: Vec<char> = trimmed(&s);
    match parse_unsigned(&t, usize::MAX as u64) {
        Some(id) => Some(id as usize),
        None => None,
    }
}

/// Reads a line of the list.
pub fn read_list_line(line: &str, total: usize) -> (r: ListLine)
    ensures
        r == list_line(line@, total as nat),
{
    let s: Vec<char> = chars_of(line);
    let t: Vec<char> = trimmed(&s);
    if t.len() == 0 {
        return ListLine::Blank;
    }
    match read_line_number(line) {
        Some(id) => {
            if id < total {
                ListLine::Branch { id }
            } else {
                ListLine::Invalid
            }
        },
        None => ListLine::Invalid,
    }
}

/// Branch `b` is in the first `n` lines of the list.
pub open spec fn is_listed(lines: Seq<String>, n: int, total: nat, b: int) -> bool {
    exists|i: int|
        0 <= i < n && #[trigger] list_line(lines[i]@, total) == (ListLine::Branch {
            id: b as usize,
        })
}

/// How many of the first `n` lines hold a branch.
pub open spec fn listed(lines: Seq<String>, n: int, total: nat) -> int
    decreases n,
{
    if n <= 0 {
        0
    } else {
        listed(lines, n - 1, total) + if list_line(lines[n - 1]@, total) is Branch {
            1int
        } else {
            0
        }
    }
}

/// How many of the first `n` lines are invalid.
pub open spec fn invalid_lines(lines: Seq<String>, n: int, total: nat) -> int
    decreases n,
{
    if n <= 0 {
        0
    } else {
        invalid_lines(lines, n - 1, total) + if list_line(lines[n - 1]@, total) is Invalid {
            1int
        } else {
            0
        }
    }
}

/// Gives up the branches of the list, and tells how many lines held one and
/// how many were invalid.
pub fn load_impossible_branches(global: &mut GlobalBranches, lines: &Vec<String>) -> (r: (
    usize,
    usize,
))
    requires
        old(global).wf(),
    ensures
        final(global).wf(),
        final(global).same_but_functions(old(global)),
        r.0 == listed(lines@, lines@.len() as int, old(global).branch_boundary@.len()),
        r.1 == invalid_lines(lines@, lines@.len() as int, old(global).branch_boundary@.len()),
        forall|b: int|
            0 <= b < old(global).branch_boundary@.len() ==> #[trigger] final(global).info(b) == (
            if is_listed(lines@, lines@.len() as int, old(global).branch_boundary@.len(), b) {
                given_up(old(global).info(b))
            } else {
                old(global).info(b)
            }),
{
    let total: usize = global.branch_boundary.len();
    let mut loaded: usize = 0;
    let mut invalid: usize = 0;
    let mut i: usize = 0;
    while i < lines.len()
        invariant
            i <= lines@.len(),
            total == old(global).branch_boundary@.len(),
            total == global.branch_boundary@.len(),
            global.wf(),
            global.same_but_functions(old(global)),
            loaded <= i,
            invalid <= i,
            loaded == listed(lines@, i as int, total as nat),
            invalid == invalid_lines(lines@, i as int, total as nat),
            forall|b: int|
                0 <= b < total ==> #[trigger] global.info(b) == (if is_listed(
                    lines@,
                    i as int,
                    total as nat,
                    b,
                ) {
                    given_up(old(global).info(b))
                } else {
                    old(global).info(b)
                }),
        decreases lines@.len() - i,
    {
        let line = read_list_line(lines[i].as_str(), total);
        let ghost g = *global;
        match line {
            ListLine::Blank => {},
            ListLine::Branch { id } => {
                note_impossible(global, id);
                loaded = loaded + 1;
            },
            ListLine::Invalid => {
                invalid = invalid + 1;
            },
        }
        proof {
            assert forall|b: int| 0 <= b < total implies #[trigger] global.info(b) == (
            if is_listed(lines@, i + 1, total as nat, b) {
                given_up(old(global).info(b))
            } else {
                old(global).info(b)
            }) by {
                assert(g.info(b) == if is_listed(lines@, i as int, total as nat, b) {
                    given_up(old(global).info(b))
                } else {
                    old(global).info(b)
                });
                assert(list_line(lines@[i as int]@, total as nat) == line);
                let now = line == (ListLine::Branch { id: b as usize });
                assert(is_listed(lines@, i + 1, total as nat, b) == (is_listed(
                    lines@,
                    i as int,
                    total as nat,
                    b,
                ) || now)) by {
                    if is_listed(lines@, i + 1, total as nat, b) {
                        let k = choose|k: int|
                            0 <= k < i + 1 && #[trigger] list_line(lines@[k]@, total as nat) == (
                            ListLine::Branch { id: b as usize });
                        if k == i {
                            assert(now);
                        }
                    }
                    if is_listed(lines@, i as int, total as nat, b) {
                        let k = choose|k: int|
                            0 <= k < i && #[trigger] list_line(lines@[k]@, total as nat) == (
                            ListLine::Branch { id: b as usize });
                        assert(0 <= k < i + 1);
                    }
                }
            }
        }
        i = i + 1;
    }
    (loaded, invalid)
}

/// One of the first `n` lines of the list holds the number `b`, be there such
/// a branch or not.
pub open spec fn is_written(lines: Seq<String>, n: int, b: nat) -> bool {
    exists|i: int| 0 <= i < n && #[trigger] line_number(lines[i]@) == Some(b)
}

/// Tells whether a branch that is given up has still to be written to the
/// list.
pub fn write_impossible_branch(lines: &Vec<String>, branch_id: usize) -> (r: Option<String>)
    ensures
        match r {
            Some(line) => !is_written(lines@, lines@.len() as int, branch_id as nat) && line@
                == decimal_text(branch_id as nat),
            None => is_written(lines@, lines@.len() as int, branch_id as nat),
        },
{
    let mut i: usize = 0;
    while i < lines.len()
        invariant
            i <= lines@.len(),
            !is_written(lines@, i as int, branch_id as nat),
        decreases lines@.len() - i,
    {
        if let Some(id) = read_line_number(lines[i].as_str()) {
            if id == branch_id {
                assert(line_number(lines@[i as int]@) == Some(branch_id as nat));
                return None;
            }
        }
        i = i + 1;
    }
    Some(decimal_string(branch_id as u64))
}

proof fn lemma_number_is_trimmed(id: usize)
    ensures
        trim(decimal_text(id as nat)) == decimal_text(id as nat),
        decimal_text(id as nat).len() > 0,
        line_number(decimal_text(id as nat)) == Some(id as nat),
{
    let s = decimal_text(id as nat);
    numbers_read_back(id as nat);
    digits_are_solid(s);
    assert(!is_space(s[0]));
    assert(!is_space(s[s.len() - 1]));
    assert(trim(s) =~= s);
}

/// What is written to the list is read back from it.
pub proof fn lists_keep_branches(id: usize, total: nat)
    requires
        id < total,
    ensures
        list_line(decimal_text(id as nat), total) == (ListLine::Branch { id }),
{
    lemma_number_is_trimmed(id);
}

/// A branch is written to the list once: as soon as its line was put behind
/// the others, it counts as written, whatever is put behind it.
pub proof fn branches_are_written_once(
    before: Seq<String>,
    line: String,
    after: Seq<String>,
    id: usize,
)
    requires
        line@ == decimal_text(id as nat),
    ensures
        is_written(
            before.push(line) + after,
            (before.push(line) + after).len() as int,
            id as nat,
        ),
{
    lemma_number_is_trimmed(id);
    let all = before.push(line) + after;
    assert(all[before.len() as int] == line);
    assert(line_number(all[before.len() as int]@) == Some(id as nat));
}

/// A branch of the target is given up by the list if and only if it was
/// written there.
pub proof fn written_branches_are_listed(lines: Seq<String>, total: nat, b: usize)
    requires
        b < total,
    ensures
        is_listed(lines, lines.len() as int, total, b as int) == is_written(
            lines,
            lines.len() as int,
            b as nat,
        ),
{
    let n = lines.len() as int;
    if is_listed(lines, n, total, b as int) {
        let i = choose|i: int|
            0 <= i < n && #[trigger] list_line(lines[i]@, total) == (ListLine::Branch {
                id: b as int as usize,
            });
        assert(line_number(lines[i]@) == Some(b as nat));
    }
    if is_written(lines, n, b as nat) {
        let i = choose|i: int| 0 <= i < n && #[trigger] line_number(lines[i]@) == Some(b as nat);
        assert(list_line(lines[i]@, total) == (ListLine::Branch { id: b as int as usize }));
    }
}

/// The place of the newest of some files, the first if there are several.
pub open spec fn is_latest(times: Seq<u128>, i: int) -> bool {
    &&& 0 <= i < times.len()
    &&& forall|k: int| 0 <= k < times.len() ==> #[trigger] times[k] <= times[i]
    &&& forall|k: int| 0 <= k < i ==> #[trigger] times[k] < times[i]
}

/// Chooses the newest of some files by their times of change.
pub fn find_latest(times: &Vec<u128>) -> (r: Option<usize>)
    ensures
        match r {
            Some(i) => is_latest(times@, i as int),
            None => times@.len() == 0,
        },
{
    if times.len() == 0 {
        return None;
    }
    let mut best: usize = 0;
    let mut i: usize = 1;
    while i < times.len()
        invariant
            1 <= i <= times@.len(),
            best < i,
            forall|k: int| 0 <= k < i ==> #[trigger] times@[k] <= times@[best as int],
            forall|k: int| 0 <= k < best ==> #[trigger] times@[k] < times@[best as int],
        decreases times@.len() - i,
    {
        if times[i] > times[best] {
            best = i;
        }
        i = i + 1;
    }
    Some(best)
}

/// The name of the library with the function of a branch.
pub open spec fn library_name(branch_id: nat) -> Seq<char> {
    "libmut_branch_"@ + decimal_text(branch_id) + ".so"@
}

/// The path of the library with the function of a branch, below the
/// directory that it was built in.
pub open spec fn library_path(dir: Seq<char>, branch_id: nat) -> Seq<char> {
    joined(joined(joined(dir, "target"@), "release"@), library_name(branch_id))
}

/// The name of the function of a branch.
pub open spec fn function_name(branch_id: nat) -> Seq<char> {
    "mutate_branch_"@ + decimal_text(branch_id)
}

/// Builds the path of the library with the function of a branch.
pub fn so_path_in(dir: &str, branch_id: usize) -> (r: String)
    ensures
        r@ == library_path(dir@, branch_id as nat),
{
    let mut name = "libmut_branch_".to_owned();
    name.append(decimal_string(branch_id as u64).as_str());
    name.append(".so");
    let target = join(dir, "target");
    let release = join(target.as_str(), "release");
    join(release.as_str(), name.as_str())
}

/// Builds the path of the library at the usual place, below the directory of
/// all functions.
pub fn default_so_path(mut_funcs_dir: &str, branch_id: usize) -> (r: String)
    ensures
        r@ == library_path(
            joined(mut_funcs_dir@, decimal_text(branch_id as nat)),
            branch_id as nat,
        ),
{
    let branch_dir = join(mut_funcs_dir, decimal_string(branch_id as u64).as_str());
    so_path_in(branch_dir.as_str(), branch_id)
}

/// Builds the name of the function of a branch.
pub fn func_name(branch_id: usize) -> (r: String)
    ensures
        r@ == function_name(branch_id as nat),
{
    let mut name = "mutate_branch_".to_owned();
    name.append(decimal_string(branch_id as u64).as_str());
    name
}

/// The branch that the name of a library speaks of: what stands between the
/// first `libmut_branch_` and the first `.so` behind it.
pub open spec fn branch_in_name(name: Seq<char>) -> Option<nat> {
    match place_of(name, "libmut_branch_"@, 0) {
        Some(p) => match place_of(name, ".so"@, p + 14) {
            Some(e) => unsigned(name.subrange(p + 14, e), usize::MAX as nat),
            None => None,
        },
        None => None,
    }
}

/// Reads the branch off the name of its library.
pub fn branch_of_library(name: &str) -> (r: Option<usize>)
    ensures
        match r {
            Some(id) => branch_in_name(name@) == Some(id as nat),
            None => branch_in_name(name@) is None,
        },
{
    let s: Vec<char> = chars_of(name);
    let prefix: Vec<char> = chars_of("libmut_branch_");
    let suffix: Vec<char> = chars_of(".so");
    proof {
        reveal_strlit("libmut_branch_");
        reveal_strlit(".so");
    }
    match find_chars(&s, &prefix, 0) {
        Some(p) => {
            assert(prefix@.len() == 14);
            assert(s.len() == s@.len());
            let from: usize = p + 14;
            match find_chars(&s, &suffix, from) {
                Some(e) => {
                    let id: Vec<char> = slice_of(&s, from, e);
                    match parse_unsigned(&id, usize::MAX as u64) {
                        Some(v) => Some(v as usize),
                        None => None,
                    }
                },
                None => None,
            }
        },
        None => None,
    }
}

/// The name of a branch's library tells the branch.
pub proof fn library_names_read_back(branch_id: usize)
    ensures
        branch_in_name(library_name(branch_id as nat)) == Some(branch_id as nat),
{
    reveal_strlit("libmut_branch_");
    reveal_strlit(".so");
    let id = decimal_text(branch_id as nat);
    let name = library_name(branch_id as nat);
    let e = 14 + id.len() as int;
    numbers_read_back(branch_id as nat);
    assert(name.subrange(0, 14) =~= "libmut_branch_"@);
    assert(name.subrange(e, e + 3) =~= ".so"@);
    assert forall|k: int| 14 <= k < e implies !stands_at(name, ".so"@, k) by {
        assert(Class::Digit.holds(id[k - 14]));
        assert(name[k] == id[k - 14]);
        if stands_at(name, ".so"@, k) {
            assert(name.subrange(k, k + 3)[0] == name[k]);
        }
    }
    lemma_first_place(name, ".so"@, 14, e);
    assert(name.subrange(14, e) =~= id);
}

/// The branch whose function the library of the given name is to be tried
/// for, or what is wrong with the name.
pub fn test_load_mutation_function_from_path(filename: &str) -> (r: Result<usize, String>)
    ensures
        match r {
            Ok(id) => branch_in_name(filename@) == Some(id as nat),
            Err(e) => branch_in_name(filename@) is None && e@
                == "Could not extract branch_id from filename: "@ + filename@
                + ". Please use test_load_and_use_mutation_function() with explicit branch_id."@,
        },
{
    match branch_of_library(filename) {
        Some(id) => Ok(id),
        None => {
            let mut e = "Could not extract branch_id from filename: ".to_owned();
            e.append(filename);
            e.append(
                ". Please use test_load_and_use_mutation_function() with explicit branch_id.",
            );
            Err(e)
        },
    }
}

/// What to do with a directory that may hold a branch's functions.
#[derive(Clone, Copy, Debug, PartialEq, Eq, Structural)]
pub enum Preload {
    /// It is no branch's.
    Ignore,
    /// There is no such branch, or its function is there already.
    Skip,
    /// Load the newest function in it.
    Load { branch_id: usize },
}

/// Decides what to do with the directory of the given name.
pub fn preload_of(global: &GlobalBranches, name: &str) -> (r: Preload)
    requires
        global.tables_wf(),
    ensures
        r == match unsigned(name@, usize::MAX as nat) {
            None => Preload::Ignore,
            Some(id) => if id >= global.branch_boundary@.len() || global.info(
                id as int,
            ).mutate_func is Some {
                Preload::Skip
            } else {
                Preload::Load { branch_id: id as usize }
            },
        },
{
    let s: Vec<char> = chars_of(name);
    match parse_unsigned(&s, usize::MAX as u64) {
        None => Preload::Ignore,
        Some(v) => {
            let branch_id: usize = v as usize;
            if branch_id >= global.branch_boundary.len() {
                return Preload::Skip;
            }
            if global.get_info(branch_id).mutate_func.is_some() {
                return Preload::Skip;
            }
            Preload::Load { branch_id }
        },
    }
}

/// What to do while a library is being built.
#[derive(Clone, Copy, Debug, PartialEq, Eq, Structural)]
pub enum WaitStep {
    Load,
    Timeout,
    Stopped,
    Sleep,
}

/// How long a library is waited for, in milliseconds.
pub const MAX_WAIT_MS: u64 = 300000;

/// Decides what to do while a library is being built.
pub fn wait_for_library(is_there: bool, elapsed_ms: u64, running: bool) -> (r: WaitStep)
    ensures
        r == if is_there {
            WaitStep::Load
        } else if elapsed_ms > MAX_WAIT_MS {
            WaitStep::Timeout
        } else if !running {
            WaitStep::Stopped
        } else {
            WaitStep::Sleep
        },
{
    if is_there {
        WaitStep::Load
    } else if elapsed_ms > MAX_WAIT_MS {
        WaitStep::Timeout
    } else if !running {
        WaitStep::Stopped
    } else {
        WaitStep::Sleep
    }
}

/// What came of a request.
#[derive(Debug)]
pub enum Reply<'a> {
    /// It could not be sent.
    NotSent,
    /// The agent hung up.
    Closed,
    /// No answer could be read.
    NotRead,
    /// An answer.
    Text { text: &'a str },
}

/// What is to be done next.
#[derive(Debug)]
pub enum ReplyAction {
    /// Go on with the next request.
    Next,
    /// Send no more requests.
    Stop,
    /// Load the function from this library, then report.
    Load { path: String },
    /// Wait for the library at the usual place, then report.
    LoadDefault,
    /// Write the branch to the list of those given up, then go on.
    Record,
}

/// What a reply means: nothing if the request was not sent or the agent hung
/// up, a failure if there is no answer.
pub open spec fn meaning_of(reply: Reply<'_>, branch_id: nat) -> Option<ResponseView> {
    match reply {
        Reply::NotSent => None,
        Reply::Closed => None,
        Reply::NotRead => Some(ResponseView::Failed),
        Reply::Text { text } => Some(response_of(text@, branch_id)),
    }
}

/// Takes the reply to a request.
pub fn take_reply(global: &mut GlobalBranches, branch_id: usize, reply: Reply<'_>) -> (r:
    ReplyAction)
    requires
        old(global).wf(),
        branch_id < old(global).branch_boundary@.len(),
        old(global).info(branch_id as int).retry_count < usize::MAX,
    ensures
        final(global).wf(),
        final(global).same_but(old(global), branch_id as int),
        ({
            let before = old(global).info(branch_id as int);
            let after = final(global).info(branch_id as int);
            match meaning_of(reply, branch_id as nat) {
                None => after == before && if reply is Closed {
                    r is Stop
                } else {
                    r is Next
                },
                Some(ResponseView::Load { path }) => after == before && (r matches ReplyAction::Load {
                    path: p,
                } && p@ == path),
                Some(ResponseView::LoadDefault) => after == before && r is LoadDefault,
                Some(ResponseView::Impossible) => after == given_up(before) && r is Record,
                Some(ResponseView::Failed) => after == after_failure(before) && r is Next,
            }
        }),
{
    match reply {
        Reply::NotSent => ReplyAction::Next,
        Reply::Closed => ReplyAction::Stop,
        Reply::NotRead => {
            note_failure(global, branch_id);
            ReplyAction::Next
        },
        Reply::Text { text } => match parse_response(text, branch_id) {
            Response::Load { path } => ReplyAction::Load { path },
            Response::LoadDefault => ReplyAction::LoadDefault,
            Response::Impossible => {
                note_impossible(global, branch_id);
                ReplyAction::Record
            },
            Response::Failed => {
                note_failure(global, branch_id);
                ReplyAction::Next
            },
        },
    }
}

/// Takes the outcome of loading a function: the number under which it was
/// loaded, or nothing. A function that is found at the start and cannot be
/// loaded counts for nothing.
pub fn take_loaded(
    global: &mut GlobalBranches,
    branch_id: usize,
    loaded: Option<usize>,
    is_initial_load: bool,
    now: usize,
)
    requires
        old(global).wf(),
        branch_id < old(global).branch_boundary@.len(),
        old(global).info(branch_id as int).retry_count < usize::MAX,
    ensures
        final(global).wf(),
        final(global).same_but(old(global), branch_id as int),
        final(global).info(branch_id as int) == match loaded {
            Some(func) => after_loading(
                old(global).info(branch_id as int),
                func,
                is_initial_load,
                now,
            ),
            None => if is_initial_load {
                old(global).info(branch_id as int)
            } else {
                after_failure(old(global).info(branch_id as int))
            },
        },
{
    match loaded {
        Some(func) => {
            note_loaded(global, branch_id, func, is_initial_load, now);
        },
        None => {
            if !is_initial_load {
                note_failure(global, branch_id);
            }
        },
    }
}

/// The agent is asked for a branch only if it was reached more than six hours
/// ago, is not covered, was asked for less than twice, and has one edge left
/// that was not seen; the request names the branch and the edge.
pub proof fn only_branches_that_resist_are_asked_for(g: &GlobalBranches, c: int, l: int, now: int)
    ensures
        ({
            let info = g.branch_mutate_funcs@[c]@[l];
            let b = g.branch_start_pos@[c] + l;
            let left = g.branch_boundary@[b]@;
            let due = info.reach_time > 0 && now - info.reach_time > 6 * 60 * 60
                && !info.is_covered && info.retry_count < 2 && left.len() == 1 && left[0] != 0;
            &&& request_at(g, c, l, now) is Some <==> due
            &&& due ==> request_at(g, c, l, now) == Some(
                Request {
                    chunk_idx: c as usize,
                    local_idx: l as usize,
                    branch_id: b as usize,
                    edge_id: left[0],
                },
            )
        }),
{
}

/// A request is a line with a one, the branch and the edge in decimal.
pub proof fn requests_are_lines(branch_id: nat, edge_id: nat)
    ensures
        exists|b: Seq<u8>, e: Seq<u8>| #[trigger]
            is_decimal(b, branch_id as int) && #[trigger] is_decimal(e, edge_id as int)
                && request_text(branch_id, edge_id) == seq![0x31u8, 0x20u8] + b + seq![0x20u8] + e
                + seq![0x0au8],
{
    digits_are_decimal(branch_id);
    digits_are_decimal(edge_id);
}

/// Once a function was loaded the branch is left alone for six hours, unless it
/// was found at the start; a failure and a success both count as an attempt,
/// and a branch that is given up has none left.
pub proof fn loaded_branches_have_time(
    info: BranchMutateInfo,
    func: usize,
    time: usize,
    now: int,
)
    requires
        info.retry_count < usize::MAX,
    ensures
        now <= time + 21600 ==> !needs_function(after_loading(info, func, false, time), now),
        after_loading(info, func, true, time).reach_time == info.reach_time,
        after_loading(info, func, false, time).mutate_func == Some(func),
        after_loading(info, func, true, time).mutate_func == Some(func),
        after_loading(info, func, true, time).retry_count == info.retry_count + 1,
        after_failure(info).retry_count == info.retry_count + 1,
        after_failure(info).mutate_func == info.mutate_func,
        after_failure(info).reach_time == info.reach_time,
        given_up(info).retry_count == 2,
        given_up(info).mutate_func == info.mutate_func,
        given_up(info).reach_time == info.reach_time,
{
}


/// A line of the list tells a branch if nothing but its number and white space
/// stands in it, and there is such a branch; a line of white space tells
/// nothing; all others are invalid.
pub proof fn lines_tell_branches(before: Seq<char>, id: usize, behind: Seq<char>, total: nat)
    requires
        forall|i: int| 0 <= i < before.len() ==> is_space(#[trigger] before[i]),
        forall|i: int| 0 <= i < behind.len() ==> is_space(#[trigger] behind[i]),
    ensures
        id < total ==> list_line(before + decimal_text(id as nat) + behind, total) == (
        ListLine::Branch { id }),
        id >= total ==> list_line(before + decimal_text(id as nat) + behind, total)
            == ListLine::Invalid,
        list_line(before + behind, total) == ListLine::Blank,
{
    let s = decimal_text(id as nat);
    numbers_read_back(id as nat);
    lemma_number_is_trimmed(id);
    digits_are_solid(s);
    assert(!is_space(s[0]));
    assert(!is_space(s[s.len() - 1]));
    white_space_is_cut_off(before, s, behind);
    white_space_is_cut_off(before, Seq::empty(), behind);
    assert(before + Seq::<char>::empty() + behind =~= before + behind);
}

/// What is taken for success names the branch that was asked for, behind a
/// zero, and at most a path behind it.
pub proof fn only_answers_are_understood(text: Seq<char>, branch_id: nat)
    ensures
        match response_of(text, branch_id) {
            ResponseView::Load { path } => words(text, 0).len() == 3 && word(text, 0) == seq!['0']
                && unsigned(word(text, 1), usize::MAX as nat) == Some(branch_id) && word(text, 2)
                == path,
            ResponseView::LoadDefault => words(text, 0).len() == 2 && word(text, 0) == seq!['0']
                && unsigned(word(text, 1), usize::MAX as nat) == Some(branch_id),
            ResponseView::Impossible => words(text, 0).len() == 2 && word(text, 0) == seq!['1']
                && word(text, 1) == seq!['0'],
            ResponseView::Failed => true,
        },
{
}

/// How many lines there are of each kind: they add up, and one more line adds
/// to its own kind.
pub proof fn lines_are_counted(lines: Seq<String>, n: int, total: nat)
    requires
        0 <= n,
    ensures
        listed(lines, 0, total) == 0 && invalid_lines(lines, 0, total) == 0,
        listed(lines, n + 1, total) - listed(lines, n, total) == if list_line(
            lines[n]@,
            total,
        ) is Branch {
            1int
        } else {
            0
        },
        invalid_lines(lines, n + 1, total) - invalid_lines(lines, n, total) == if list_line(
            lines[n]@,
            total,
        ) is Invalid {
            1int
        } else {
            0
        },
{
}

/// Where the function of a branch is, and how it is called.
pub proof fn functions_have_places(dir: Seq<char>, branch_id: nat)
    requires
        dir.len() > 0,
        dir.last() != '/',
    ensures
        library_path(dir, branch_id) == dir + "/target/release/libmut_branch_"@ + decimal_text(
            branch_id,
        ) + ".so"@,
        function_name(branch_id) == "mutate_branch_"@ + decimal_text(branch_id),
{
    reveal_strlit("target");
    reveal_strlit("release");
    reveal_strlit("libmut_branch_");
    reveal_strlit("/target/release/libmut_branch_");
    let target = joined(dir, "target"@);
    assert(target.last() == 't');
    let release = joined(target, "release"@);
    assert(release.last() == 'e');
    assert(library_path(dir, branch_id) =~= dir + "/target/release/libmut_branch_"@ + decimal_text(
        branch_id,
    ) + ".so"@);
}

/// A request that was not sent, or is not answered since the agent is gone, has
/// no meaning; one whose answer cannot be read has failed.
pub proof fn replies_have_meanings(reply: Reply<'_>, branch_id: nat)
    ensures
        meaning_of(reply, branch_id) is None <==> reply is NotSent || reply is Closed,
        reply is NotRead ==> meaning_of(reply, branch_id) == Some(ResponseView::Failed),
        reply matches Reply::Text { text } ==> meaning_of(reply, branch_id) == Some(
            response_of(text@, branch_id),
        ),
{
}

} // verus!
