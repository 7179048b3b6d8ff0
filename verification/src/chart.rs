//! The overview of a fuzzing run.

use crate::branches::GlobalBranches;
use crate::depot::Depot;
use crate::fuzz_type::FUZZ_TYPE_NUM;
use crate::stats::{Counter, FuzzStats, LocalStats, StrategyStats};
use crate::text::{decimal, decimal_string, decimal_text, digit_char, numbers_read_back};
use vstd::prelude::*;
use vstd::string::StringExecFns;

verus! {

/// How much was covered, of how much, and the share in hundredths of a
/// percent.
#[derive(Clone, Copy, Debug, PartialEq, Eq, Structural)]
pub struct CovData(pub usize, pub usize, pub usize);

/// The overview of a fuzzing run.
#[derive(Clone, Copy, Debug)]
pub struct ChartStats {
    pub edge_data: CovData,
    pub branch_data: CovData,
    pub num_rounds: Counter,
    pub num_exec: Counter,
    pub num_inputs: Counter,
    pub num_hangs: Counter,
    pub num_crashes: Counter,
    pub reached_branches: Counter,
    /// How many seeds are favored for branches.
    pub branch_favor_seeds: Counter,
    /// How many seeds are favored for edges.
    pub bit_favor_seeds: Counter,
    /// The time limit, in milliseconds.
    pub timeout: Counter,
    /// The counts of every stage.
    pub fuzz: FuzzStats,
}

/// A share in hundredths of a percent as a percentage, without zeros at the
/// end.
pub open spec fn percent_text(hundredths: nat) -> Seq<char> {
    let whole = decimal_text(hundredths / 100);
    let rest = hundredths % 100;
    if rest == 0 {
        whole
    } else if rest % 10 == 0 {
        whole + "."@ + decimal_text(rest / 10)
    } else if rest < 10 {
        whole + ".0"@ + decimal_text(rest)
    } else {
        whole + "."@ + decimal_text(rest)
    }
}

/// Writes a share as a percentage.
pub fn percent_string(hundredths: usize) -> (r: String)
    ensures
        r@ == percent_text(hundredths as nat),
{
    let mut r = decimal_string((hundredths / 100) as u64);
    let rest: usize = hundredths % 100;
    if rest == 0 {
        return r;
    }
    if rest % 10 == 0 {
        r.append(".");
        r.append(decimal_string((rest / 10) as u64).as_str());
    } else if rest < 10 {
        r.append(".0");
        r.append(decimal_string(rest as u64).as_str());
    } else {
        r.append(".");
        r.append(decimal_string(rest as u64).as_str());
    }
    r
}

/// The sum of the counts `f` over the first `n` stages.
pub open spec fn stage_sum(stages: Seq<StrategyStats>, n: int, f: spec_fn(StrategyStats) -> int) ->
    int
    decreases n,
{
    if n <= 0 {
        0
    } else {
        stage_sum(stages, n - 1, f) + f(stages[n - 1])
    }
}

proof fn lemma_sum_update(
    stages: Seq<StrategyStats>,
    n: int,
    i: int,
    new: StrategyStats,
    f: spec_fn(StrategyStats) -> int,
)
    requires
        0 <= n <= stages.len(),
        0 <= i < stages.len(),
    ensures
        stage_sum(stages.update(i, new), n, f) == stage_sum(stages, n, f) + if i < n {
            f(new) - f(stages[i])
        } else {
            0
        },
    decreases n,
{
    if n > 0 {
        lemma_sum_update(stages, n - 1, i, new, f);
    }
}

impl ChartStats {
    /// Nothing was counted yet.
    pub fn new() -> (r: Self)
        ensures
            r.is_fresh(),
            r.adds_up(),
    {
        let r = ChartStats {
            edge_data: CovData(0, 0, 0),
            branch_data: CovData(0, 0, 0),
            num_rounds: Counter(0),
            num_exec: Counter(0),
            num_inputs: Counter(0),
            num_hangs: Counter(0),
            num_crashes: Counter(0),
            reached_branches: Counter(0),
            branch_favor_seeds: Counter(0),
            bit_favor_seeds: Counter(0),
            timeout: Counter(0),
            fuzz: FuzzStats::default(),
        };
        proof {
            reveal_with_fuel(stage_sum, 8);
        }
        r
    }

    /// Nothing was counted yet.
    pub open spec fn is_fresh(self) -> bool {
        &&& self.edge_data == CovData(0, 0, 0)
        &&& self.branch_data == CovData(0, 0, 0)
        &&& self.num_rounds.0 == 0
        &&& self.num_exec.0 == 0
        &&& self.num_inputs.0 == 0
        &&& self.num_hangs.0 == 0
        &&& self.num_crashes.0 == 0
        &&& self.reached_branches.0 == 0
        &&& self.branch_favor_seeds.0 == 0
        &&& self.bit_favor_seeds.0 == 0
        &&& self.timeout.0 == 0
        &&& forall|i: int|
            0 <= i < FUZZ_TYPE_NUM ==> self.fuzz.0@[i] == StrategyStats::spec_default()
    }

    /// The totals are the sums over all stages.
    pub open spec fn adds_up(self) -> bool {
        let s = self.fuzz.0@;
        &&& self.num_exec.0 == stage_sum(s, 7, |t: StrategyStats| t.num_exec.0 as int)
        &&& self.num_inputs.0 == stage_sum(s, 7, |t: StrategyStats| t.num_inputs.0 as int)
        &&& self.num_hangs.0 == stage_sum(s, 7, |t: StrategyStats| t.num_hangs.0 as int)
        &&& self.num_crashes.0 == stage_sum(s, 7, |t: StrategyStats| t.num_crashes.0 as int)
    }

    /// There is room to add what a worker counted.
    pub open spec fn has_room_for(self, local: LocalStats) -> bool {
        &&& local.fuzz_type.spec_index() < FUZZ_TYPE_NUM
        &&& self.num_rounds.0 < usize::MAX
        &&& self.num_exec.0 + local.num_exec.0 <= usize::MAX
        &&& self.num_inputs.0 + local.num_inputs.0 <= usize::MAX
        &&& self.num_hangs.0 + local.num_hangs.0 <= usize::MAX
        &&& self.num_crashes.0 + local.num_crashes.0 <= usize::MAX
        &&& self.fuzz.0@[local.fuzz_type.spec_index() as int].has_room_for(local)
    }

    /// Adds what a worker counted in a stage, to that stage and to the
    /// totals.
    pub fn sync_from_local(&mut self, local: &LocalStats)
        requires
            old(self).has_room_for(*local),
        ensures
            final(self).num_rounds.0 == old(self).num_rounds.0 + 1,
            final(self).num_exec.0 == old(self).num_exec.0 + local.num_exec.0,
            final(self).num_inputs.0 == old(self).num_inputs.0 + local.num_inputs.0,
            final(self).num_hangs.0 == old(self).num_hangs.0 + local.num_hangs.0,
            final(self).num_crashes.0 == old(self).num_crashes.0 + local.num_crashes.0,
            final(self).fuzz.0@ == old(self).fuzz.0@.update(
                local.fuzz_type.spec_index() as int,
                old(self).fuzz.0@[local.fuzz_type.spec_index() as int].plus(*local),
            ),
            final(self).edge_data == old(self).edge_data,
            final(self).branch_data == old(self).branch_data,
            final(self).reached_branches == old(self).reached_branches,
            final(self).branch_favor_seeds == old(self).branch_favor_seeds,
            final(self).bit_favor_seeds == old(self).bit_favor_seeds,
            final(self).timeout == old(self).timeout,
            old(self).adds_up() ==> final(self).adds_up(),
    {
        self.num_rounds.count();
        let i: usize = local.fuzz_type.index();
        let st = self.fuzz.get_mut(i);
        st.add_local(local);
        self.num_exec.inc(local.num_exec.0);
        self.num_inputs.inc(local.num_inputs.0);
        self.num_hangs.inc(local.num_hangs.0);
        self.num_crashes.inc(local.num_crashes.0);
        proof {
            let s = old(self).fuzz.0@;
            let new = s[i as int].plus(*local);
            lemma_sum_update(s, 7, i as int, new, |t: StrategyStats| t.num_exec.0 as int);
            lemma_sum_update(s, 7, i as int, new, |t: StrategyStats| t.num_inputs.0 as int);
            lemma_sum_update(s, 7, i as int, new, |t: StrategyStats| t.num_hangs.0 as int);
            lemma_sum_update(s, 7, i as int, new, |t: StrategyStats| t.num_crashes.0 as int);
        }
    }

    /// Takes over what is known of the coverage and of the seeds.
    pub fn sync_from_global(&mut self, depot: &Depot, gb: &GlobalBranches)
        requires
            depot.wf(),
            gb.fast_map_size_data.real_map_size > 0,
            gb.fast_map_size_data.real_branch_map_size > 0,
            gb.cov_edges * 10000 <= usize::MAX,
            gb.cov_branches * 10000 <= usize::MAX,
        ensures
            *final(self) == (ChartStats {
                edge_data: CovData(
                    gb.cov_edges,
                    gb.fast_map_size_data.real_map_size,
                    (gb.cov_edges as int * 10000
                        / gb.fast_map_size_data.real_map_size as int) as usize,
                ),
                branch_data: CovData(
                    gb.cov_branches,
                    gb.fast_map_size_data.real_branch_map_size,
                    (gb.cov_branches as int * 10000
                        / gb.fast_map_size_data.real_branch_map_size as int) as usize,
                ),
                reached_branches: Counter(gb.reached_branches),
                branch_favor_seeds: Counter(depot.branches().favor.dom().len() as usize),
                bit_favor_seeds: Counter(depot.edges().favor.dom().len() as usize),
                ..*old(self)
            }),
    {
        let (a, b, c) = gb.get_edge_stats();
        self.edge_data = CovData(a, b, c);
        let (x, y, z) = gb.get_branch_stats();
        self.branch_data = CovData(x, y, z);
        self.reached_branches = Counter(gb.get_reached_branches());
        self.branch_favor_seeds = Counter(depot.get_branch_priority_num());
        self.bit_favor_seeds = Counter(depot.get_bit_priority_num());
    }

    /// The line of the log at `secs` seconds.
    pub open spec fn log_line(self, secs: nat) -> Seq<char> {
        decimal_text(secs) + ", "@ + decimal_text(self.edge_data.0 as nat) + ", "@ + percent_text(
            self.edge_data.2 as nat,
        ) + ", "@ + decimal_text(self.branch_data.0 as nat) + ", "@ + percent_text(
            self.branch_data.2 as nat,
        ) + ", "@ + decimal_text(self.num_inputs.0 as nat) + ", "@ + decimal_text(
            self.num_hangs.0 as nat,
        ) + ", "@ + decimal_text(self.num_crashes.0 as nat) + ", "@ + decimal_text(
            self.num_exec.0 as nat,
        )
    }

    /// The head of the log, and its line at `secs` seconds.
    pub fn mini_log(&self, secs: u64) -> (r: (String, String))
        ensures
            r.0@
                == "time_sec, edges_cur, edges_pct, branches_cur, branches_pct, inputs, hangs, crashes, execs"@,
            r.1@ == self.log_line(secs as nat),
    {
        let head =
            "time_sec, edges_cur, edges_pct, branches_cur, branches_pct, inputs, hangs, crashes, execs";
        let mut line = decimal_string(secs);
        line.append(", ");
        line.append(decimal_string(self.edge_data.0 as u64).as_str());
        line.append(", ");
        line.append(percent_string(self.edge_data.2).as_str());
        line.append(", ");
        line.append(decimal_string(self.branch_data.0 as u64).as_str());
        line.append(", ");
        line.append(percent_string(self.branch_data.2).as_str());
        line.append(", ");
        line.append(decimal_string(self.num_inputs.0 as u64).as_str());
        line.append(", ");
        line.append(decimal_string(self.num_hangs.0 as u64).as_str());
        line.append(", ");
        line.append(decimal_string(self.num_crashes.0 as u64).as_str());
        line.append(", ");
        line.append(decimal_string(self.num_exec.0 as u64).as_str());
        (head.to_owned(), line)
    }
}

/// A share in hundredths of a percent as a percentage with two places.
pub open spec fn percent_places(hundredths: nat) -> Seq<char> {
    let rest = hundredths % 100;
    decimal_text(hundredths / 100) + (if rest < 10 {
        ".0"@
    } else {
        "."@
    }) + decimal_text(rest)
}

/// The report of a branch analysis.
pub open spec fn report_text(reached: nat, covered: nat, total: nat, hundredths: nat) -> Seq<
    char,
> {
    "Reached branches: "@ + decimal_text(reached) + "\nCovered branches: "@ + decimal_text(covered)
        + "\nTotal branches: "@ + decimal_text(total) + "\nCoverage percent: "@ + percent_places(
        hundredths,
    ) + "%\n"@
}

fn percent_with_places(hundredths: usize) -> (r: String)
    ensures
        r@ == percent_places(hundredths as nat),
{
    let mut r = decimal_string((hundredths / 100) as u64);
    let rest: usize = hundredths % 100;
    if rest < 10 {
        r.append(".0");
    } else {
        r.append(".");
    }
    r.append(decimal_string(rest as u64).as_str());
    r
}

/// Writes the report of a branch analysis: how many branches were reached and
/// covered, how many there are, and the share covered in hundredths of a
/// percent.
pub fn write_branch_coverage(reached: usize, covered: usize, total: usize, hundredths: usize) -> (r:
    String)
    ensures
        r@ == report_text(reached as nat, covered as nat, total as nat, hundredths as nat),
{
    let mut r = "Reached branches: ".to_owned();
    r.append(decimal_string(reached as u64).as_str());
    r.append("\nCovered branches: ");
    r.append(decimal_string(covered as u64).as_str());
    r.append("\nTotal branches: ");
    r.append(decimal_string(total as u64).as_str());
    r.append("\nCoverage percent: ");
    r.append(percent_with_places(hundredths).as_str());
    r.append("%\n");
    r
}


/// A percentage with two places is the hundredths in base ten with a point
/// before the last two digits. Without zeros at the end it is the same text up
/// to the last digit that is not zero, or up to the point if both are.
pub proof fn percentages_are_hundredths(n: nat)
    ensures
        ({
            let full = percent_places(n);
            let short = percent_text(n);
            let len = full.len() as int;
            &&& len >= 4
            &&& decimal(full.take(len - 3)) == n / 100
            &&& full[len - 3] == '.'
            &&& full[len - 2] as nat == 48 + n / 10 % 10
            &&& full[len - 1] as nat == 48 + n % 10
            &&& n % 10 != 0 ==> short == full
            &&& n % 10 == 0 && n % 100 != 0 ==> short == full.take(len - 1)
            &&& n % 100 == 0 ==> short == full.take(len - 3)
        }),
{
    let whole = decimal_text(n / 100);
    let rest = n % 100;
    let full = percent_places(n);
    let len = full.len() as int;
    reveal_strlit(".");
    reveal_strlit(".0");
    numbers_read_back(n / 100);
    assert(n / 10 % 10 == rest / 10);
    assert(rest % 10 == n % 10);
    reveal_with_fuel(decimal_text, 3);
    assert(whole.len() >= 1);
    if rest < 10 {
        assert(decimal_text(rest) =~= seq![digit_char(rest)]);
    } else {
        assert(decimal_text(rest) =~= seq![digit_char(rest / 10), digit_char(rest % 10)]);
    }
    assert(full.take(len - 3) =~= whole);
    if rest == 0 {
        assert(percent_text(n) =~= full.take(len - 3));
    } else if rest % 10 == 0 {
        assert(decimal_text(rest / 10) =~= seq![digit_char(rest / 10)]);
        assert(percent_text(n) =~= full.take(len - 1));
    } else {
        assert(percent_text(n) =~= full);
    }
}


/// Texts with a comma and a space between each two.
pub open spec fn listed(parts: Seq<Seq<char>>) -> Seq<char>
    decreases parts.len(),
{
    if parts.len() == 0 {
        Seq::empty()
    } else if parts.len() == 1 {
        parts[0]
    } else {
        listed(parts.drop_last()) + seq![',', ' '] + parts.last()
    }
}

/// A line of the log has nine fields, as its head tells: the time, the edges
/// that were seen and their share, the same of the branches, how many inputs,
/// hangs and crashes were found, and how many runs were made.
pub proof fn lines_have_nine_fields(c: ChartStats, secs: nat)
    ensures
        c.log_line(secs) == listed(
            seq![
                decimal_text(secs),
                decimal_text(c.edge_data.0 as nat),
                percent_text(c.edge_data.2 as nat),
                decimal_text(c.branch_data.0 as nat),
                percent_text(c.branch_data.2 as nat),
                decimal_text(c.num_inputs.0 as nat),
                decimal_text(c.num_hangs.0 as nat),
                decimal_text(c.num_crashes.0 as nat),
                decimal_text(c.num_exec.0 as nat),
            ],
        ),
{
    reveal_strlit(", ");
    assert(", "@ =~= seq![',', ' ']);
    let p9 = seq![
        decimal_text(secs),
        decimal_text(c.edge_data.0 as nat),
        percent_text(c.edge_data.2 as nat),
        decimal_text(c.branch_data.0 as nat),
        percent_text(c.branch_data.2 as nat),
        decimal_text(c.num_inputs.0 as nat),
        decimal_text(c.num_hangs.0 as nat),
        decimal_text(c.num_crashes.0 as nat),
        decimal_text(c.num_exec.0 as nat),
    ];
    let p8 = p9.drop_last();
    let p7 = p8.drop_last();
    let p6 = p7.drop_last();
    let p5 = p6.drop_last();
    let p4 = p5.drop_last();
    let p3 = p4.drop_last();
    let p2 = p3.drop_last();
    let p1 = p2.drop_last();
    assert(listed(p1) == p9[0]);
    assert(listed(p2) == listed(p1) + seq![',', ' '] + p9[1]);
    assert(listed(p3) == listed(p2) + seq![',', ' '] + p9[2]);
    assert(listed(p4) == listed(p3) + seq![',', ' '] + p9[3]);
    assert(listed(p5) == listed(p4) + seq![',', ' '] + p9[4]);
    assert(listed(p6) == listed(p5) + seq![',', ' '] + p9[5]);
    assert(listed(p7) == listed(p6) + seq![',', ' '] + p9[6]);
    assert(listed(p8) == listed(p7) + seq![',', ' '] + p9[7]);
    assert(listed(p9) == listed(p8) + seq![',', ' '] + p9[8]);
}

/// The totals are what is counted in the seven stages together.
pub proof fn totals_are_those_of_the_stages(c: ChartStats)
    requires
        c.adds_up(),
    ensures
        ({
            let s = c.fuzz.0@;
            &&& c.num_exec.0 == s[0].num_exec.0 + s[1].num_exec.0 + s[2].num_exec.0
                + s[3].num_exec.0 + s[4].num_exec.0 + s[5].num_exec.0 + s[6].num_exec.0
            &&& c.num_inputs.0 == s[0].num_inputs.0 + s[1].num_inputs.0 + s[2].num_inputs.0
                + s[3].num_inputs.0 + s[4].num_inputs.0 + s[5].num_inputs.0 + s[6].num_inputs.0
            &&& c.num_hangs.0 == s[0].num_hangs.0 + s[1].num_hangs.0 + s[2].num_hangs.0
                + s[3].num_hangs.0 + s[4].num_hangs.0 + s[5].num_hangs.0 + s[6].num_hangs.0
            &&& c.num_crashes.0 == s[0].num_crashes.0 + s[1].num_crashes.0 + s[2].num_crashes.0
                + s[3].num_crashes.0 + s[4].num_crashes.0 + s[5].num_crashes.0
                + s[6].num_crashes.0
        }),
{
    reveal_with_fuel(stage_sum, 8);
}


/// A text, a number and the end of a line.
pub open spec fn labelled(label: Seq<char>, value: Seq<char>) -> Seq<char> {
    label + value + seq!['\n']
}

/// The report has four lines: the branches that were reached, those that were
/// covered, all, and the share that was covered.
pub proof fn reports_have_four_lines(reached: nat, covered: nat, total: nat, hundredths: nat)
    ensures
        report_text(reached, covered, total, hundredths) == labelled(
            "Reached branches: "@,
            decimal_text(reached),
        ) + labelled("Covered branches: "@, decimal_text(covered)) + labelled(
            "Total branches: "@,
            decimal_text(total),
        ) + labelled("Coverage percent: "@, percent_places(hundredths) + seq!['%']),
{
    reveal_strlit("\nCovered branches: ");
    reveal_strlit("\nTotal branches: ");
    reveal_strlit("\nCoverage percent: ");
    reveal_strlit("Covered branches: ");
    reveal_strlit("Total branches: ");
    reveal_strlit("Coverage percent: ");
    reveal_strlit("%\n");
    assert("\nCovered branches: "@ =~= seq!['\n'] + "Covered branches: "@);
    assert("\nTotal branches: "@ =~= seq!['\n'] + "Total branches: "@);
    assert("\nCoverage percent: "@ =~= seq!['\n'] + "Coverage percent: "@);
    assert("%\n"@ =~= seq!['%', '\n']);
    let a = labelled("Reached branches: "@, decimal_text(reached));
    let b = labelled("Covered branches: "@, decimal_text(covered));
    let c = labelled("Total branches: "@, decimal_text(total));
    let d = labelled("Coverage percent: "@, percent_places(hundredths) + seq!['%']);
    assert(report_text(reached, covered, total, hundredths) =~= a + b + c + d);
}

} // verus!
