//! Partition of the port range `1..=65535` among `t` workers.
//!
//! Worker `i` (with `0 <= i < t`) owns the residue class of `i + 1` modulo
//! `t`: it visits `i+1, i+1+t, i+1+2t, ...` for as long as the value stays
//! at most 65535. The lemmas below state the partition laws: every port in
//! `1..=65535` is visited by exactly one worker, no worker visits a port
//! twice, and the workers together attempt exactly 65535 probes.

use vstd::prelude::*;
use vstd::arithmetic::div_mod::{
    lemma_div_by_multiple, lemma_div_is_ordered, lemma_div_pos_is_pos,
    lemma_fundamental_div_mod, lemma_fundamental_div_mod_converse, lemma_mod_bound,
};

verus! {

/// How many ports worker `i` of `t` visits: the size of
/// `{ k >= 0 | i + 1 + k*t <= 65535 }`.
pub open spec fn worker_count(i: int, t: int) -> int
    recommends
        1 <= t,
        0 <= i < t,
{
    (65534 - i) / t + 1
}

/// The ports worker `i` of `t` visits, in visiting order.
pub open spec fn worker_seq(i: int, t: int) -> Seq<int>
    recommends
        1 <= t,
        0 <= i < t,
{
    Seq::new(worker_count(i, t) as nat, |k: int| i + 1 + k * t)
}

/// The same port list, as the `u16` values the scanner hands around.
pub open spec fn worker_ports_spec(i: int, t: int) -> Seq<u16>
    recommends
        1 <= t,
        0 <= i < t,
{
    Seq::new(worker_count(i, t) as nat, |k: int| (i + 1 + k * t) as u16)
}

/// The worker whose residue class port `p` falls in.
pub open spec fn worker_of(p: int, t: int) -> int
    recommends
        1 <= t,
        1 <= p,
{
    (p - 1) % t
}

/// Ports assigned to worker `i` when `t` workers share the scan.
pub fn worker_ports(i: u16, t: u16) -> (r: Vec<u16>)
    requires
        1 <= t,
        i < t,
    ensures
        r@.len() == worker_count(i as int, t as int),
        forall|k: int| 0 <= k < r@.len() ==> r@[k] as int == worker_seq(i as int, t as int)[k],
        r@ == worker_ports_spec(i as int, t as int),
{
    let ghost gi = i as int;
    let ghost gt = t as int;
    let mut r: Vec<u16> = Vec::new();
    let mut port: u32 = i as u32 + 1;
    proof {
        assert(r@.len() == 0);
        assert(0int * gt == 0) by (nonlinear_arith);
    }
    while port <= 65535
        invariant
            gi == i as int,
            gt == t as int,
            1 <= gt <= 65535,
            0 <= gi < gt,
            port == gi + 1 + r@.len() * gt,
            r@.len() <= worker_count(gi, gt),
            forall|k: int| 0 <= k < r@.len() ==> r@[k] as int == gi + 1 + k * gt,
        decreases worker_count(gi, gt) - r@.len(),
    {
        proof {
            // The port about to be pushed is in range, so its index is
            // still below the worker's count.
            let len = r@.len() as int;
            assert(len * gt <= 65534 - gi);
            lemma_div_is_ordered(len * gt, 65534 - gi, gt);
            lemma_div_by_multiple(len, gt);
            assert(len <= (65534 - gi) / gt);
            assert((len + 1) * gt == len * gt + gt) by (nonlinear_arith);
        }
        r.push(port as u16);
        port = port + t as u32;
    }
    proof {
        // The loop stopped, so the next candidate exceeds 65535; together
        // with the upper bound this pins the length to the worker's count.
        let len = r@.len() as int;
        if len < worker_count(gi, gt) {
            let q: int = (65534 - gi) / gt;
            lemma_fundamental_div_mod(65534 - gi, gt);
            lemma_mod_bound(65534 - gi, gt);
            assert(q * gt <= 65534 - gi) by (nonlinear_arith)
                requires
                    65534 - gi == gt * q + (65534 - gi) % gt,
                    0 <= (65534 - gi) % gt,
            ;
            assert(len * gt <= q * gt) by (nonlinear_arith)
                requires
                    len <= q,
                    0 < gt,
            ;
            assert(false);
        }
        lemma_ports_spec_corresponds(gi, gt);
        assert(r@ =~= worker_ports_spec(gi, gt));
    }
    r
}

/// Partition law, first half: port `p` is on the list of the worker of its
/// residue class, and of no other worker.
pub proof fn lemma_partition(t: int, p: int)
    requires
        1 <= t <= 65535,
        1 <= p <= 65535,
    ensures
        0 <= worker_of(p, t) < t,
        worker_seq(worker_of(p, t), t).contains(p),
        forall|i: int| 0 <= i < t && i != worker_of(p, t) ==> !worker_seq(i, t).contains(p),
{
    let i: int = worker_of(p, t);
    let k: int = (p - 1) / t;
    lemma_mod_bound(p - 1, t);
    lemma_div_pos_is_pos(p - 1, t);
    lemma_fundamental_div_mod(p - 1, t);
    assert(p == i + 1 + k * t);
    // k is below the worker's count.
    assert(k * t <= 65534 - i);
    lemma_div_is_ordered(k * t, 65534 - i, t);
    lemma_div_by_multiple(k, t);
    assert(k < worker_count(i, t));
    assert(worker_seq(i, t)[k] == p);
    assert(worker_seq(i, t).contains(p));
    assert forall|j: int| 0 <= j < t && j != i implies !worker_seq(j, t).contains(p) by {
        if worker_seq(j, t).contains(p) {
            let m = choose|m: int|
                0 <= m < worker_seq(j, t).len() && worker_seq(j, t)[m] == p;
            assert(p - 1 == m * t + j);
            lemma_fundamental_div_mod_converse(p - 1, t, m, j);
        }
    }
}

/// Partition law, second half: no worker visits a port twice.
pub proof fn lemma_worker_seq_distinct(i: int, t: int)
    requires
        1 <= t,
        0 <= i < t,
    ensures
        worker_seq(i, t).no_duplicates(),
{
    assert forall|a: int, b: int|
        0 <= a < worker_seq(i, t).len() && 0 <= b < worker_seq(i, t).len() && a != b
        implies worker_seq(i, t)[a] != worker_seq(i, t)[b] by {
        assert(a * t != b * t) by (nonlinear_arith)
            requires
                a != b,
                0 < t,
        ;
    }
}

/// Every entry of a worker's list is a port in `1..=65535`.
pub proof fn lemma_worker_seq_in_range(i: int, t: int, k: int)
    requires
        1 <= t <= 65535,
        0 <= i < t,
        0 <= k < worker_count(i, t),
    ensures
        1 <= worker_seq(i, t)[k] <= 65535,
{
    let q: int = (65534 - i) / t;
    lemma_fundamental_div_mod(65534 - i, t);
    lemma_mod_bound(65534 - i, t);
    assert(q * t <= 65534 - i) by (nonlinear_arith)
        requires
            65534 - i == t * q + (65534 - i) % t,
            0 <= (65534 - i) % t,
    ;
    assert(k * t <= q * t) by (nonlinear_arith)
        requires
            k <= q,
            0 < t,
    ;
    assert(k * t >= 0) by (nonlinear_arith)
        requires
            k >= 0,
            t >= 0,
    ;
}

/// The `u16` list and the mathematical list agree entry by entry; in
/// particular the `u16` list repeats no port, and holds the same ports.
pub proof fn lemma_ports_spec_corresponds(i: int, t: int)
    requires
        1 <= t <= 65535,
        0 <= i < t,
    ensures
        worker_ports_spec(i, t).len() == worker_count(i, t),
        forall|k: int|
            0 <= k < worker_count(i, t) ==> #[trigger] worker_ports_spec(i, t)[k] as int
                == worker_seq(i, t)[k],
        worker_ports_spec(i, t).no_duplicates(),
        forall|p: u16| #[trigger]
            worker_ports_spec(i, t).contains(p) <==> worker_seq(i, t).contains(p as int),
{
    assert forall|k: int|
        0 <= k < worker_count(i, t) implies #[trigger] worker_ports_spec(i, t)[k] as int
        == worker_seq(i, t)[k] by {
        lemma_worker_seq_in_range(i, t, k);
    }
    lemma_worker_seq_distinct(i, t);
    assert forall|a: int, b: int|
        0 <= a < worker_ports_spec(i, t).len() && 0 <= b < worker_ports_spec(i, t).len() && a != b
        implies worker_ports_spec(i, t)[a] != worker_ports_spec(i, t)[b] by {
        lemma_worker_seq_in_range(i, t, a);
        lemma_worker_seq_in_range(i, t, b);
    }
    assert forall|p: u16| #[trigger]
        worker_ports_spec(i, t).contains(p) == worker_seq(i, t).contains(p as int) by {
        if worker_ports_spec(i, t).contains(p) {
            let k = choose|k: int|
                0 <= k < worker_ports_spec(i, t).len() && worker_ports_spec(i, t)[k] == p;
            lemma_worker_seq_in_range(i, t, k);
            assert(worker_seq(i, t)[k] == p as int);
        }
        if worker_seq(i, t).contains(p as int) {
            let k = choose|k: int|
                0 <= k < worker_seq(i, t).len() && worker_seq(i, t)[k] == p as int;
            lemma_worker_seq_in_range(i, t, k);
            assert(worker_ports_spec(i, t)[k] == p);
        }
    }
}

/// Boundary law, low end: one worker alone visits every port `1..=65535`,
/// in order.
pub proof fn lemma_single_worker()
    ensures
        worker_count(0, 1) == 65535,
        forall|k: int| 0 <= k < 65535 ==> worker_seq(0, 1)[k] == k + 1,
{
    vstd::arithmetic::div_mod::lemma_div_basics(65534);
}

/// Boundary law, high end: with 65535 workers, each visits exactly one
/// port, its own starting port.
pub proof fn lemma_one_port_each(i: int)
    requires
        0 <= i < 65535,
    ensures
        worker_count(i, 65535) == 1,
        worker_seq(i, 65535)[0] == i + 1,
{
    vstd::arithmetic::div_mod::lemma_basic_div(65534 - i, 65535);
}

/// Probe attempts of workers `0..n`, summed.
pub open spec fn probes_up_to(n: int, t: int) -> int
    recommends
        1 <= t,
    decreases n,
{
    if n <= 0 {
        0
    } else {
        probes_up_to(n - 1, t) + worker_count(n - 1, t)
    }
}

/// A worker's count, written against the division of 65534 by `t`: the first
/// `65534 % t + 1` workers visit one port more than the rest.
proof fn lemma_worker_count_value(i: int, t: int)
    requires
        1 <= t <= 65535,
        0 <= i < t,
    ensures
        worker_count(i, t) == if i <= 65534int % t {
            65534int / t + 1
        } else {
            65534int / t
        },
{
    let q: int = 65534int / t;
    let r: int = 65534int % t;
    lemma_mod_bound(65534, t);
    lemma_fundamental_div_mod(65534, t);
    if i <= r {
        assert(65534 - i == q * t + (r - i)) by (nonlinear_arith)
            requires
                65534 == t * q + r,
        ;
        lemma_fundamental_div_mod_converse(65534 - i, t, q, r - i);
    } else {
        assert(65534 - i == (q - 1) * t + (t + r - i)) by (nonlinear_arith)
            requires
                65534 == t * q + r,
        ;
        lemma_fundamental_div_mod_converse(65534 - i, t, q - 1, t + r - i);
    }
}

/// Closed form of `probes_up_to` below any `n <= t`.
proof fn lemma_probes_closed(n: int, t: int)
    requires
        1 <= t <= 65535,
        0 <= n <= t,
    ensures
        probes_up_to(n, t) == if n <= 65534int % t + 1 {
            n * (65534int / t + 1)
        } else {
            (65534int % t + 1) * (65534int / t + 1) + (n - 65534int % t - 1) * (65534int / t)
        },
    decreases n,
{
    let q: int = 65534int / t;
    let r: int = 65534int % t;
    if n == 0 {
    } else {
        lemma_probes_closed(n - 1, t);
        lemma_worker_count_value(n - 1, t);
        if n <= r + 1 {
            assert(n * (q + 1) == (n - 1) * (q + 1) + (q + 1)) by (nonlinear_arith);
        } else if n == r + 2 {
            assert((n - 1) * (q + 1) + q == (r + 1) * (q + 1) + (n - r - 1) * q)
                by (nonlinear_arith)
                requires
                    n == r + 2,
            ;
        } else {
            assert((r + 1) * (q + 1) + (n - 1 - r - 1) * q + q == (r + 1) * (q + 1) + (n - r - 1)
                * q) by (nonlinear_arith);
        }
    }
}

/// Probe-count law: the `t` workers together attempt exactly 65535 probes.
pub proof fn lemma_total_probes(t: int)
    requires
        1 <= t <= 65535,
    ensures
        probes_up_to(t, t) == 65535,
{
    let q: int = 65534int / t;
    let r: int = 65534int % t;
    lemma_probes_closed(t, t);
    lemma_mod_bound(65534, t);
    lemma_fundamental_div_mod(65534, t);
    if t <= r + 1 {
        assert(t == r + 1);
        assert(t * (q + 1) == t * q + r + 1) by (nonlinear_arith)
            requires
                t == r + 1,
        ;
        assert(t * q == q * t);
    } else {
        assert((r + 1) * (q + 1) + (t - r - 1) * q == t * q + r + 1) by (nonlinear_arith);
        assert(t * q == q * t);
    }
}

} // verus!
