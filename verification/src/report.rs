//! Aggregation of probe results into the final scan report.
//!
//! Workers emit the open ports they find into a shared sink; the aggregator
//! drains the sink after every worker has finished and sorts what it
//! collected. Emission order across workers is arbitrary, so the report is
//! pinned down by two facts alone: it is ascending, and it holds exactly the
//! drained multiset. `lemma_scan_idempotent` turns that into the idempotence
//! law: two runs that drain the same multiset report the same sequence.

use vstd::prelude::*;
use vstd::relations::{sorted_by, total_ordering};
use vstd::seq_lib::group_to_multiset_ensures;
use vstd::seq_lib::lemma_no_dup_in_concat;
use vstd::seq_lib::lemma_sorted_unique;

verus! {

/// Ascending order on port sequences.
pub open spec fn sorted(s: Seq<u16>) -> bool {
    forall|a: int, b: int| 0 <= a < b < s.len() ==> s[a] <= s[b]
}

/// The subsequence of `ports` whose elements occur in `open`, in the order
/// of `ports`: what a worker visiting `ports` emits against a target whose
/// open ports are `open`.
pub open spec fn open_subseq(ports: Seq<u16>, open: Seq<u16>) -> Seq<u16>
    decreases ports.len(),
{
    if ports.len() == 0 {
        Seq::empty()
    } else if open.contains(ports.last()) {
        open_subseq(ports.drop_last(), open).push(ports.last())
    } else {
        open_subseq(ports.drop_last(), open)
    }
}

/// Linear membership test.
fn vec_contains(v: &Vec<u16>, x: u16) -> (r: bool)
    ensures
        r == v@.contains(x),
{
    let mut idx: usize = 0;
    while idx < v.len()
        invariant
            idx <= v@.len(),
            forall|j: int| 0 <= j < idx ==> v@[j] != x,
        decreases v@.len() - idx,
    {
        if v[idx] == x {
            return true;
        }
        idx = idx + 1;
    }
    false
}

/// What one worker emits: the open ports among those it visits, in visiting
/// order.
pub fn open_ports_of(ports: &Vec<u16>, open: &Vec<u16>) -> (r: Vec<u16>)
    ensures
        r@ == open_subseq(ports@, open@),
{
    let mut r: Vec<u16> = Vec::new();
    let mut idx: usize = 0;
    while idx < ports.len()
        invariant
            idx <= ports@.len(),
            r@ == open_subseq(ports@.take(idx as int), open@),
        decreases ports@.len() - idx,
    {
        let p = ports[idx];
        proof {
            assert(ports@.take(idx + 1).drop_last() =~= ports@.take(idx as int));
            assert(ports@.take(idx + 1).last() == ports@[idx as int]);
        }
        if vec_contains(open, p) {
            r.push(p);
        }
        idx = idx + 1;
    }
    proof {
        assert(ports@.take(ports@.len() as int) =~= ports@);
    }
    r
}

/// Sorts the drained results ascending: the scan report. The output is the
/// input's multiset in ascending order, nothing added, nothing lost.
pub fn aggregate(results: Vec<u16>) -> (report: Vec<u16>)
    ensures
        sorted(report@),
        report@.to_multiset() == results@.to_multiset(),
{
    broadcast use group_to_multiset_ensures;

    let mut report: Vec<u16> = Vec::new();
    let mut idx: usize = 0;
    while idx < results.len()
        invariant
            idx <= results@.len(),
            sorted(report@),
            report@.to_multiset() == results@.take(idx as int).to_multiset(),
        decreases results@.len() - idx,
    {
        let x = results[idx];
        let mut pos: usize = 0;
        while pos < report.len() && report[pos] <= x
            invariant
                pos <= report@.len(),
                forall|j: int| 0 <= j < pos ==> report@[j] <= x,
            decreases report@.len() - pos,
        {
            pos = pos + 1;
        }
        let ghost before = report@;
        report.insert(pos, x);
        proof {
            assert forall|a: int, b: int| 0 <= a < b < report@.len() implies report@[a]
                <= report@[b] by {
                if b < pos {
                    assert(report@[a] == before[a] && report@[b] == before[b]);
                } else if a > pos {
                    assert(report@[a] == before[a - 1] && report@[b] == before[b - 1]);
                } else if a < pos && b == pos {
                    assert(report@[a] == before[a]);
                } else if a == pos && b > pos {
                    assert(report@[b] == before[b - 1]);
                    assert(pos < before.len() ==> x < before[pos as int]);
                } else if a < pos && b > pos {
                    assert(report@[a] == before[a] && report@[b] == before[b - 1]);
                }
            }
            vstd::seq_lib::to_multiset_insert(before, pos as int, x);
            assert(results@.take(idx + 1) =~= results@.take(idx as int).push(x));
            vstd::seq_lib::to_multiset_build(results@.take(idx as int), x);
        }
        idx = idx + 1;
    }
    proof {
        assert(results@.take(results@.len() as int) =~= results@);
    }
    report
}

/// A worker's emissions come from its own port list and the open set, and
/// repeat no port if the list repeats none.
pub proof fn lemma_open_subseq_sub(ports: Seq<u16>, open: Seq<u16>)
    ensures
        forall|p: u16| #[trigger]
            open_subseq(ports, open).contains(p) ==> ports.contains(p) && open.contains(p),
        ports.no_duplicates() ==> open_subseq(ports, open).no_duplicates(),
    decreases ports.len(),
{
    if ports.len() > 0 {
        let rest = open_subseq(ports.drop_last(), open);
        lemma_open_subseq_sub(ports.drop_last(), open);
        assert forall|p: u16| #[trigger]
            open_subseq(ports, open).contains(p) implies ports.contains(p) && open.contains(
            p,
        ) by {
            if p == ports.last() {
                assert(ports[ports.len() - 1] == p);
            } else {
                assert(rest.contains(p));
                let j = choose|j: int| 0 <= j < ports.drop_last().len() && ports.drop_last()[j] == p;
                assert(ports[j] == p);
            }
        }
        if ports.no_duplicates() {
            assert(ports.drop_last().no_duplicates());
            if open.contains(ports.last()) {
                assert(!rest.contains(ports.last())) by {
                    if rest.contains(ports.last()) {
                        assert(ports.drop_last().contains(ports.last()));
                        let j = choose|j: int|
                            0 <= j < ports.drop_last().len() && ports.drop_last()[j]
                                == ports.last();
                        assert(ports[j] == ports[ports.len() - 1]);
                    }
                }
                assert(rest.push(ports.last()).no_duplicates());
            }
        }
    }
}

/// Distinct workers emit no port in common: each port belongs to one
/// residue class.
pub proof fn lemma_workers_share_no_port(i: int, j: int, t: int, open: Seq<u16>)
    requires
        1 <= t <= 65535,
        0 <= i < t,
        0 <= j < t,
        i != j,
    ensures
        forall|p: u16|
            open_subseq(crate::ports::worker_ports_spec(i, t), open).contains(p)
                ==> !open_subseq(crate::ports::worker_ports_spec(j, t), open).contains(p),
{
    let pi = crate::ports::worker_ports_spec(i, t);
    let pj = crate::ports::worker_ports_spec(j, t);
    lemma_open_subseq_sub(pi, open);
    lemma_open_subseq_sub(pj, open);
    crate::ports::lemma_ports_spec_corresponds(i, t);
    crate::ports::lemma_ports_spec_corresponds(j, t);
    assert forall|p: u16| open_subseq(pi, open).contains(p) implies !open_subseq(
        pj,
        open,
    ).contains(p) by {
        if open_subseq(pj, open).contains(p) {
            assert(crate::ports::worker_seq(i, t).contains(p as int));
            assert(crate::ports::worker_seq(j, t).contains(p as int));
            let k = choose|k: int|
                0 <= k < crate::ports::worker_seq(i, t).len() && crate::ports::worker_seq(i, t)[k]
                    == p as int;
            crate::ports::lemma_worker_seq_in_range(i, t, k);
            crate::ports::lemma_partition(t, p as int);
        }
    }
}

/// One whole run's emissions, workers `0..n` in order: the drain of a scan
/// holds these values, in whatever interleaving the sink produced.
pub open spec fn emissions_up_to(n: int, t: int, open: Seq<u16>) -> Seq<u16>
    recommends
        1 <= t,
        0 <= n <= t,
    decreases n,
{
    if n <= 0 {
        Seq::empty()
    } else {
        emissions_up_to(n - 1, t, open) + open_subseq(
            crate::ports::worker_ports_spec(n - 1, t),
            open,
        )
    }
}

/// Whatever a run emits came from some worker `m < n`.
proof fn lemma_emissions_membership(n: int, t: int, open: Seq<u16>)
    requires
        1 <= t <= 65535,
        0 <= n <= t,
    ensures
        forall|p: u16| #[trigger]
            emissions_up_to(n, t, open).contains(p) ==> exists|m: int|
                0 <= m < n && #[trigger] open_subseq(
                    crate::ports::worker_ports_spec(m, t),
                    open,
                ).contains(p),
    decreases n,
{
    if n > 0 {
        lemma_emissions_membership(n - 1, t, open);
        let prev = emissions_up_to(n - 1, t, open);
        let block = open_subseq(crate::ports::worker_ports_spec(n - 1, t), open);
        assert forall|p: u16| #[trigger]
            emissions_up_to(n, t, open).contains(p) implies exists|m: int|
            0 <= m < n && #[trigger] open_subseq(
                crate::ports::worker_ports_spec(m, t),
                open,
            ).contains(p) by {
            let idx = choose|idx: int|
                0 <= idx < emissions_up_to(n, t, open).len() && emissions_up_to(n, t, open)[idx]
                    == p;
            if idx < prev.len() {
                assert(prev[idx] == p);
                assert(prev.contains(p));
            } else {
                assert(block[idx - prev.len()] == p);
                assert(block.contains(p));
                assert(0 <= n - 1 < n && open_subseq(
                    crate::ports::worker_ports_spec(n - 1, t),
                    open,
                ).contains(p));
            }
        }
    }
}

/// No port occurs twice among everything one run emits: each port is
/// visited by exactly one worker, and no worker visits a port twice. This
/// is why a drain, and with it the report, is duplicate-free by
/// construction.
pub proof fn lemma_run_no_duplicates(n: int, t: int, open: Seq<u16>)
    requires
        1 <= t <= 65535,
        0 <= n <= t,
    ensures
        emissions_up_to(n, t, open).no_duplicates(),
    decreases n,
{
    if n > 0 {
        lemma_run_no_duplicates(n - 1, t, open);
        let prev = emissions_up_to(n - 1, t, open);
        let block = open_subseq(crate::ports::worker_ports_spec(n - 1, t), open);
        crate::ports::lemma_ports_spec_corresponds(n - 1, t);
        lemma_open_subseq_sub(crate::ports::worker_ports_spec(n - 1, t), open);
        lemma_emissions_membership(n - 1, t, open);
        assert forall|a: int, b: int|
            0 <= a < prev.len() && 0 <= b < block.len() implies prev[a] != block[b] by {
            let p = prev[a];
            assert(prev.contains(p));
            let m = choose|m: int|
                0 <= m < n - 1 && #[trigger] open_subseq(
                    crate::ports::worker_ports_spec(m, t),
                    open,
                ).contains(p);
            lemma_workers_share_no_port(m, n - 1, t, open);
            if block[b] == p {
                assert(block.contains(p));
            }
        }
        lemma_no_dup_in_concat(prev, block);
    }
}

/// A report drawn from a duplicate-free drain is itself duplicate-free:
/// each port is visited by exactly one worker, so no run reports a port
/// twice.
pub proof fn lemma_report_no_duplicates(drain: Seq<u16>, report: Seq<u16>)
    requires
        drain.no_duplicates(),
        report.to_multiset() == drain.to_multiset(),
    ensures
        report.no_duplicates(),
{
    drain.lemma_multiset_has_no_duplicates();
    report.lemma_multiset_has_no_duplicates_conv();
}

/// Any two sorted sequences that hold the same multiset are identical.
pub proof fn lemma_report_unique(a: Seq<u16>, b: Seq<u16>)
    requires
        sorted(a),
        sorted(b),
        a.to_multiset() == b.to_multiset(),
    ensures
        a == b,
{
    let leq = |x: u16, y: u16| x <= y;
    assert(sorted_by(a, leq));
    assert(sorted_by(b, leq));
    assert(total_ordering(leq));
    lemma_sorted_unique(a, b, leq);
    assert(a =~= b);
}

/// Idempotence of the scan: against a target whose set of open ports is
/// stable, two runs drain multisets that agree (each worker's emissions are
/// a function of its port list and the open set), so the two sorted reports
/// are identical, whatever order the sink delivered the results in.
pub proof fn lemma_scan_idempotent(
    drain1: Seq<u16>,
    drain2: Seq<u16>,
    report1: Seq<u16>,
    report2: Seq<u16>,
)
    requires
        drain1.to_multiset() == drain2.to_multiset(),
        sorted(report1),
        report1.to_multiset() == drain1.to_multiset(),
        sorted(report2),
        report2.to_multiset() == drain2.to_multiset(),
    ensures
        report1 == report2,
{
    lemma_report_unique(report1, report2);
}

/// The whole story for one target: a scan with `t` workers against a
/// stable open-port set drains some interleaving of the run's emissions.
/// Any two such runs, sorted, give one and the same report, and that report
/// repeats no port.
pub proof fn lemma_fixed_target_reports_agree(
    t: int,
    open: Seq<u16>,
    drain1: Seq<u16>,
    drain2: Seq<u16>,
    report1: Seq<u16>,
    report2: Seq<u16>,
)
    requires
        1 <= t <= 65535,
        drain1.to_multiset() == emissions_up_to(t, t, open).to_multiset(),
        drain2.to_multiset() == emissions_up_to(t, t, open).to_multiset(),
        sorted(report1),
        report1.to_multiset() == drain1.to_multiset(),
        sorted(report2),
        report2.to_multiset() == drain2.to_multiset(),
    ensures
        report1 == report2,
        report1.no_duplicates(),
{
    lemma_run_no_duplicates(t, t, open);
    lemma_report_no_duplicates(emissions_up_to(t, t, open), report1);
    lemma_report_unique(report1, report2);
}

} // verus!
