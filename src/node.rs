//! Nodes of the topology graph: their kinds, a drone's bounded delivery
//! history and the cost of passing through a node.

use vstd::prelude::*;
use vstd::arithmetic::power2::{lemma2_to64, lemma_pow2_unfold, pow2};
use crate::packet::SimpleNodeType;

verus! {

/// Identifier of a node of the simulated network.
pub type NodeId = u8;

/// How many delivery outcomes a drone remembers.
pub const MEMORY_SIZE: usize = 250;

/// Below this many outcomes the drop rate of a drone is taken to be zero.
pub const MIN_OBSERVATIONS: usize = 25;

/// Fixed cost of every drone hop, in millionths.
pub const ALPHA: u64 = 100_000;

/// Weight of the logarithmic part of a drone's cost, in millionths.
pub const LOG_WEIGHT: u64 = 900_000;

/// One in fixed point with sixteen fractional bits.
pub const FIX_ONE: u64 = 65536;

/// Number of fractional bits of the binary logarithm used for costs.
pub const LOG_FRAC_BITS: u64 = 10;

#[derive(Debug, Clone, Copy, PartialEq, Eq, Structural)]
pub enum ApplicationType {
    Chat,
    Content,
    Unknown,
    Unwanted,
}

/// Two applications can talk when either is unknown, or when neither is
/// unwanted and they are the same.
pub open spec fn compatible_spec(a: ApplicationType, b: ApplicationType) -> bool {
    if a == ApplicationType::Unknown || b == ApplicationType::Unknown {
        true
    } else if a == ApplicationType::Unwanted || b == ApplicationType::Unwanted {
        false
    } else {
        a == b
    }
}

impl ApplicationType {
    pub fn compatible(&self, other: &Self) -> (r: bool)
        ensures
            r == compatible_spec(*self, *other),
    {
        match (self, other) {
            (ApplicationType::Unknown, _) => true,
            (_, ApplicationType::Unknown) => true,
            (ApplicationType::Unwanted, _) => false,
            (_, ApplicationType::Unwanted) => false,
            _ => *self == *other,
        }
    }
}

#[derive(Debug, Clone, Copy, PartialEq, Eq, Structural)]
pub enum FragmentDelivery {
    Forwarded,
    Dropped,
}

/// The last `MEMORY_SIZE` elements of `s` (all of it when shorter).
pub open spec fn keep_last(s: Seq<FragmentDelivery>) -> Seq<FragmentDelivery> {
    if s.len() > MEMORY_SIZE {
        s.subrange(s.len() - MEMORY_SIZE, s.len() as int)
    } else {
        s
    }
}

/// Number of `Dropped` outcomes in `s`.
pub open spec fn count_dropped(s: Seq<FragmentDelivery>) -> nat
    decreases s.len(),
{
    if s.len() == 0 {
        0
    } else {
        count_dropped(s.drop_last()) + if s.last() == FragmentDelivery::Dropped {
            1nat
        } else {
            0nat
        }
    }
}

pub proof fn lemma_count_dropped_bound(s: Seq<FragmentDelivery>)
    ensures
        count_dropped(s) <= s.len(),
    decreases s.len(),
{
    if s.len() > 0 {
        lemma_count_dropped_bound(s.drop_last());
    }
}

pub proof fn lemma_keep_last_push(s: Seq<FragmentDelivery>, d: FragmentDelivery)
    ensures
        keep_last(keep_last(s).push(d)) == keep_last(s.push(d)),
{
    if s.len() > MEMORY_SIZE {
        assert(keep_last(keep_last(s).push(d)) =~= keep_last(s.push(d)));
    }
}

/// A drone as seen by a host: the most recent delivery outcomes observed on it.
#[derive(Debug)]
pub struct Drone {
    latest_deliveries: Vec<FragmentDelivery>,
}

impl View for Drone {
    type V = Seq<FragmentDelivery>;

    closed spec fn view(&self) -> Seq<FragmentDelivery> {
        self.latest_deliveries@
    }
}

impl Clone for Drone {
    fn clone(&self) -> (r: Self)
        ensures
            r@ == self@,
    {
        Drone { latest_deliveries: self.latest_deliveries.clone() }
    }
}

impl Default for Drone {
    fn default() -> (r: Self)
        ensures
            r@ == Seq::<FragmentDelivery>::empty(),
    {
        Drone::new()
    }
}

impl Drone {
    /// The history never holds more than `MEMORY_SIZE` outcomes.
    pub open spec fn wf(&self) -> bool {
        self@.len() <= MEMORY_SIZE
    }

    pub fn new() -> (r: Self)
        ensures
            r@ == Seq::<FragmentDelivery>::empty(),
            r.wf(),
    {
        Drone { latest_deliveries: Vec::new() }
    }

    /// A drone whose history is `deliveries`, recorded in order.
    pub fn with_delivery(deliveries: Vec<FragmentDelivery>) -> (r: Self)
        ensures
            r@ == keep_last(deliveries@),
            r.wf(),
    {
        let mut drone = Drone::new();
        drone.merge_drone(Drone { latest_deliveries: deliveries });
        proof {
            assert(Seq::<FragmentDelivery>::empty() + deliveries@ =~= deliveries@);
        }
        drone
    }

    /// Records every outcome of `other`, oldest first.
    pub fn merge_drone(&mut self, other: Drone)
        requires
            old(self).wf(),
        ensures
            final(self)@ == keep_last(old(self)@ + other@),
            final(self).wf(),
    {
        let ghost start = self@;
        let mut i: usize = 0;
        while i < other.latest_deliveries.len()
            invariant
                i <= other@.len(),
                self.wf(),
                self@ == keep_last(start + other@.subrange(0, i as int)),
            decreases other@.len() - i,
        {
            let d = other.latest_deliveries[i];
            proof {
                lemma_keep_last_push(start + other@.subrange(0, i as int), d);
                assert((start + other@.subrange(0, i as int)).push(d) =~= start + other@.subrange(
                    0,
                    i + 1,
                ));
            }
            self.record_delivery(d);
            i = i + 1;
        }
        proof {
            assert(other@.subrange(0, i as int) =~= other@);
        }
    }

    /// Appends an outcome, forgetting the oldest one when the history is full.
    pub fn record_delivery(&mut self, delivery: FragmentDelivery)
        requires
            old(self).wf(),
        ensures
            final(self)@ == keep_last(old(self)@.push(delivery)),
            final(self).wf(),
    {
        self.latest_deliveries.push(delivery);
        if self.latest_deliveries.len() > MEMORY_SIZE {
            self.latest_deliveries.remove(0);
            proof {
                assert(self@ =~= keep_last(old(self)@.push(delivery)));
            }
        }
    }

    /// Number of `Dropped` outcomes in the history.
    pub fn dropped_count(&self) -> (r: usize)
        ensures
            r == count_dropped(self@),
    {
        let mut n: usize = 0;
        let mut i: usize = 0;
        while i < self.latest_deliveries.len()
            invariant
                i <= self@.len(),
                n == count_dropped(self@.subrange(0, i as int)),
                n <= i,
            decreases self@.len() - i,
        {
            proof {
                assert(self@.subrange(0, i + 1).drop_last() =~= self@.subrange(0, i as int));
            }
            if self.latest_deliveries[i] == FragmentDelivery::Dropped {
                n = n + 1;
            }
            i = i + 1;
        }
        proof {
            assert(self@.subrange(0, i as int) =~= self@);
        }
        n
    }
}


/// The observed delivery ratio `1 / (1 - p)` in fixed point (`FIX_ONE` is one),
/// where `p` is the drop rate, taken as zero below `MIN_OBSERVATIONS` outcomes
/// and capped at 0.9999.
pub open spec fn ratio_fix(dropped: nat, total: nat) -> nat {
    if total < MIN_OBSERVATIONS {
        FIX_ONE as nat
    } else if 10000 * dropped >= 9999 * total {
        (10000 * FIX_ONE) as nat
    } else {
        ((total * FIX_ONE) as int / (total - dropped)) as nat
    }
}

/// Splits `x` into an exponent `k` and a mantissa `m` with `x / 2^k == m`
/// and `m < 2 * FIX_ONE`.
pub open spec fn log_parts(x: nat) -> (nat, nat)
    decreases x,
{
    if x < 2 * FIX_ONE {
        (0, x)
    } else {
        let p = log_parts(x / 2);
        (p.0 + 1, p.1)
    }
}

/// The first `k` fractional bits of the binary logarithm of the mantissa
/// `m` (in `[FIX_ONE, 2 * FIX_ONE)`), found by repeated squaring: each square
/// that reaches two yields a one bit and is halved.
pub open spec fn log_frac(m: nat, k: nat) -> nat
    decreases k,
{
    if k == 0 {
        0
    } else {
        let sq = m * m / (FIX_ONE as nat);
        if sq >= 2 * FIX_ONE {
            pow2((k - 1) as nat) + log_frac(sq / 2, (k - 1) as nat)
        } else {
            log_frac(sq, (k - 1) as nat)
        }
    }
}

/// Binary logarithm of the fixed-point value `x` (`FIX_ONE` is one), in
/// units of `2^-LOG_FRAC_BITS`, truncated.
pub open spec fn log2_fix(x: nat) -> nat {
    log_parts(x).0 * 1024 + log_frac(log_parts(x).1, LOG_FRAC_BITS as nat)
}

/// Cost of a drone with history `h`, in millionths:
/// `ALPHA + (1 - ALPHA) * log2(1 / (1 - p))`.
pub open spec fn drone_cost(h: Seq<FragmentDelivery>) -> nat {
    (ALPHA + LOG_WEIGHT * log2_fix(ratio_fix(count_dropped(h), h.len())) / 1024) as nat
}

proof fn lemma_log_parts_range(x: nat)
    requires
        FIX_ONE <= x,
    ensures
        FIX_ONE <= log_parts(x).1 < 2 * FIX_ONE,
        log_parts(x).0 <= x,
    decreases x,
{
    if x >= 2 * FIX_ONE {
        lemma_log_parts_range(x / 2);
    }
}

proof fn lemma_log_parts_monotone(x1: nat, x2: nat)
    requires
        FIX_ONE <= x1 <= x2,
    ensures
        log_parts(x1).0 < log_parts(x2).0 || (log_parts(x1).0 == log_parts(x2).0
            && log_parts(x1).1 <= log_parts(x2).1),
    decreases x2,
{
    if x1 >= 2 * FIX_ONE {
        lemma_log_parts_monotone(x1 / 2, x2 / 2);
    }
}

proof fn lemma_square_step(m: nat)
    requires
        FIX_ONE <= m < 2 * FIX_ONE,
    ensures
        FIX_ONE <= m * m / (FIX_ONE as nat) < 4 * FIX_ONE,
{
    let f = FIX_ONE as nat;
    assert(f * f <= m * m < 4 * f * f) by (nonlinear_arith)
        requires
            f <= m < 2 * f,
    ;
    lemma_floor_div_monotone(f * f, f, m * m, f);
    assert(f * f / f == f) by (nonlinear_arith)
        requires
            f > 0,
    ;
    assert(m * m / f < 4 * f) by (nonlinear_arith)
        requires
            m * m < 4 * f * f,
            f > 0,
    ;
}

proof fn lemma_log_frac_range(m: nat, k: nat)
    requires
        FIX_ONE <= m < 2 * FIX_ONE,
    ensures
        log_frac(m, k) < pow2(k),
    decreases k,
{
    if k == 0 {
        lemma2_to64();
    } else {
        lemma_pow2_unfold(k);
        lemma_square_step(m);
        let sq = m * m / (FIX_ONE as nat);
        if sq >= 2 * FIX_ONE {
            lemma_log_frac_range(sq / 2, (k - 1) as nat);
        } else {
            lemma_log_frac_range(sq, (k - 1) as nat);
        }
    }
}

proof fn lemma_log_frac_monotone(m1: nat, m2: nat, k: nat)
    requires
        FIX_ONE <= m1 <= m2 < 2 * FIX_ONE,
    ensures
        log_frac(m1, k) <= log_frac(m2, k),
    decreases k,
{
    if k > 0 {
        let f = FIX_ONE as nat;
        lemma_square_step(m1);
        lemma_square_step(m2);
        assert(m1 * m1 <= m2 * m2) by (nonlinear_arith)
            requires
                m1 <= m2,
        ;
        assert((m1 * m1) * f <= (m2 * m2) * f) by (nonlinear_arith)
            requires
                m1 * m1 <= m2 * m2,
        ;
        lemma_floor_div_monotone(m1 * m1, f, m2 * m2, f);
        let s1 = m1 * m1 / f;
        let s2 = m2 * m2 / f;
        let j = (k - 1) as nat;
        if s1 >= 2 * f {
            lemma_log_frac_monotone(s1 / 2, s2 / 2, j);
        } else if s2 < 2 * f {
            lemma_log_frac_monotone(s1, s2, j);
        } else {
            lemma_log_frac_range(s1, j);
        }
    }
}

proof fn lemma_log2_fix_monotone(x1: nat, x2: nat)
    requires
        FIX_ONE <= x1 <= x2,
    ensures
        log2_fix(x1) <= log2_fix(x2),
{
    lemma_log_parts_monotone(x1, x2);
    lemma_log_parts_range(x1);
    lemma_log_parts_range(x2);
    let (k1, m1) = log_parts(x1);
    let (k2, m2) = log_parts(x2);
    lemma2_to64();
    lemma_log_frac_range(m1, 10);
    if k1 < k2 {
        assert(k1 * 1024 + 1024 <= k2 * 1024) by (nonlinear_arith)
            requires
                k1 < k2,
        ;
    } else {
        lemma_log_frac_monotone(m1, m2, 10);
    }
}

proof fn lemma_floor_div_monotone(a: nat, b: nat, c: nat, d: nat)
    requires
        b > 0,
        d > 0,
        a * d <= c * b,
    ensures
        a / b <= c / d,
{
    let q = a / b;
    assert(q * b <= a) by (nonlinear_arith)
        requires
            b > 0,
            q == a / b,
    ;
    assert(q * b * d <= a * d) by (nonlinear_arith)
        requires
            q * b <= a,
    ;
    assert(q * d <= c) by (nonlinear_arith)
        requires
            q * b * d <= c * b,
            b > 0,
    ;
    assert(q <= c / d) by (nonlinear_arith)
        requires
            q * d <= c,
            d > 0,
    ;
}

proof fn lemma_ratio_fix_monotone(d1: nat, t1: nat, d2: nat, t2: nat)
    requires
        MIN_OBSERVATIONS <= t1,
        MIN_OBSERVATIONS <= t2,
        d1 <= t1,
        d2 <= t2,
        d1 * t2 <= d2 * t1,
    ensures
        FIX_ONE <= ratio_fix(d1, t1) <= ratio_fix(d2, t2),
{
    let f = FIX_ONE as nat;
    if 10000 * d1 >= 9999 * t1 {
        assert(10000 * d2 >= 9999 * t2) by (nonlinear_arith)
            requires
                10000 * d1 >= 9999 * t1,
                d1 * t2 <= d2 * t1,
                t1 > 0,
        ;
    } else {
        assert(t1 - d1 > 0);
        assert(f <= t1 * f / (t1 - d1) as nat) by {
            assert(f * ((t1 - d1) as nat) <= t1 * f) by (nonlinear_arith)
                requires
                    d1 <= t1,
            ;
            lemma_floor_div_monotone(f, 1, t1 * f, (t1 - d1) as nat);
        }
        if 10000 * d2 >= 9999 * t2 {
            assert(t1 * f * 1 <= (10000 * f) * ((t1 - d1) as nat)) by (nonlinear_arith)
                requires
                    10000 * d1 < 9999 * t1,
                    d1 <= t1,
            ;
            lemma_floor_div_monotone(t1 * f, (t1 - d1) as nat, 10000 * f, 1);
        } else {
            assert((t1 * f) * ((t2 - d2) as nat) <= (t2 * f) * ((t1 - d1) as nat))
                by (nonlinear_arith)
                requires
                    d1 * t2 <= d2 * t1,
                    d1 <= t1,
                    d2 <= t2,
            ;
            lemma_floor_div_monotone(t1 * f, (t1 - d1) as nat, t2 * f, (t2 - d2) as nat);
        }
    }
}

/// A drone's cost is at least `ALPHA`, and once it has been observed at least
/// `MIN_OBSERVATIONS` times it does not decrease as its drop ratio grows.
pub proof fn lemma_drone_cost_monotone(h1: Seq<FragmentDelivery>, h2: Seq<FragmentDelivery>)
    requires
        MIN_OBSERVATIONS <= h1.len(),
        MIN_OBSERVATIONS <= h2.len(),
        count_dropped(h1) * h2.len() <= count_dropped(h2) * h1.len(),
    ensures
        ALPHA <= drone_cost(h1) <= drone_cost(h2),
{
    lemma_count_dropped_bound(h1);
    lemma_count_dropped_bound(h2);
    let r1 = ratio_fix(count_dropped(h1), h1.len());
    let r2 = ratio_fix(count_dropped(h2), h2.len());
    lemma_ratio_fix_monotone(count_dropped(h1), h1.len(), count_dropped(h2), h2.len());
    lemma_log2_fix_monotone(r1, r2);
    let l1 = log2_fix(r1);
    let l2 = log2_fix(r2);
    assert(LOG_WEIGHT * l1 <= LOG_WEIGHT * l2) by (nonlinear_arith)
        requires
            l1 <= l2,
    ;
    lemma_floor_div_monotone((LOG_WEIGHT * l1) as nat, 1024, (LOG_WEIGHT * l2) as nat, 1024);
}

/// No node costs more than this.
pub const MAX_NODE_COST: u64 = 600_000_000_000_000;

pub proof fn lemma_node_cost_bound(m: NodeModel)
    requires
        model_wf(m),
    ensures
        node_cost(m) <= MAX_NODE_COST,
{
    if let NodeModel::Drone(h) = m {
        lemma_count_dropped_bound(h);
        let r = ratio_fix(count_dropped(h), h.len());
        if h.len() >= MIN_OBSERVATIONS {
            let d = count_dropped(h);
            let t = h.len();
            lemma_ratio_fix_monotone(0, t, d, t);
            assert(d * t <= t * t) by (nonlinear_arith)
                requires
                    d <= t,
            ;
            lemma_ratio_fix_monotone(d, t, t, t);
            assert(r <= 10000 * FIX_ONE);
        }
        lemma_log_parts_range(r);
        lemma_log_frac_range(log_parts(r).1, LOG_FRAC_BITS as nat);
        lemma2_to64();
        let l = log2_fix(r);
        assert(l <= 10000 * FIX_ONE * 1024 + 1024);
        assert(LOG_WEIGHT * l <= LOG_WEIGHT * (10000 * FIX_ONE * 1024 + 1024)) by (nonlinear_arith)
            requires
                l <= 10000 * FIX_ONE * 1024 + 1024,
        ;
    }
}

/// Every drone costs at least `ALPHA`.
pub proof fn lemma_drone_cost_floor(h: Seq<FragmentDelivery>)
    ensures
        ALPHA <= drone_cost(h),
{
}

/// `ratio_fix` for a history of at most `MEMORY_SIZE` outcomes.
fn ratio_fixed(dropped: u64, total: u64) -> (r: u64)
    requires
        dropped <= total <= MEMORY_SIZE,
    ensures
        r == ratio_fix(dropped as nat, total as nat),
        FIX_ONE <= r <= 10000 * FIX_ONE,
{
    if total < MIN_OBSERVATIONS as u64 {
        FIX_ONE
    } else if 10000 * dropped >= 9999 * total {
        10000 * FIX_ONE
    } else {
        proof {
            lemma_ratio_fix_monotone(0, total as nat, dropped as nat, total as nat);
            assert(total * FIX_ONE <= 10000 * FIX_ONE * (total - dropped)) by (nonlinear_arith)
                requires
                    10000 * dropped < 9999 * total,
                    dropped <= total,
            ;
            lemma_floor_div_monotone(
                (total * FIX_ONE) as nat,
                (total - dropped) as nat,
                (10000 * FIX_ONE) as nat,
                1,
            );
        }
        total * FIX_ONE / (total - dropped)
    }
}

fn log_parts_exec(x: u64) -> (r: (u64, u64))
    requires
        FIX_ONE <= x,
    ensures
        r.0 == log_parts(x as nat).0,
        r.1 == log_parts(x as nat).1,
    decreases x,
{
    proof {
        lemma_log_parts_range(x as nat);
    }
    if x < 2 * FIX_ONE {
        (0, x)
    } else {
        let (k, m) = log_parts_exec(x / 2);
        (k + 1, m)
    }
}

fn log_frac_exec(m: u64, k: u64, bit: u64) -> (r: u64)
    requires
        FIX_ONE <= m < 2 * FIX_ONE,
        k <= LOG_FRAC_BITS,
        k > 0 ==> bit == pow2((k - 1) as nat),
    ensures
        r == log_frac(m as nat, k as nat),
        r < pow2(k as nat),
    decreases k,
{
    proof {
        lemma_log_frac_range(m as nat, k as nat);
        lemma2_to64();
    }
    if k == 0 {
        return 0;
    }
    proof {
        lemma_square_step(m as nat);
        if k > 1 {
            lemma_pow2_unfold((k - 1) as nat);
        }
    }
    let sq = m * m / FIX_ONE;
    if sq >= 2 * FIX_ONE {
        bit + log_frac_exec(sq / 2, k - 1, bit / 2)
    } else {
        log_frac_exec(sq, k - 1, bit / 2)
    }
}

fn log2_fixed(x: u64) -> (r: u64)
    requires
        FIX_ONE <= x <= 10000 * FIX_ONE,
    ensures
        r == log2_fix(x as nat),
        r <= 10000 * FIX_ONE * 1024 + 1024,
{
    proof {
        lemma_log_parts_range(x as nat);
        lemma2_to64();
    }
    let (k, m) = log_parts_exec(x);
    k * 1024 + log_frac_exec(m, LOG_FRAC_BITS, 512)
}

impl Drone {
    /// Cost of passing through this drone, in millionths.
    pub fn cost(&self) -> (r: u64)
        requires
            self.wf(),
        ensures
            r == drone_cost(self@),
    {
        let dropped = self.dropped_count();
        proof {
            lemma_count_dropped_bound(self@);
        }
        let ratio = ratio_fixed(dropped as u64, self.latest_deliveries.len() as u64);
        let l = log2_fixed(ratio);
        ALPHA + LOG_WEIGHT * l / 1024
    }
}


/// What a host knows about a node: a drone with its history, or a host with
/// its application.
#[derive(Debug)]
pub enum NodeType {
    Drone(Drone),
    Server(ApplicationType),
    Client(ApplicationType),
}

/// The content of a `NodeType`, with a drone seen through its history.
pub enum NodeModel {
    Drone(Seq<FragmentDelivery>),
    Server(ApplicationType),
    Client(ApplicationType),
}

impl View for NodeType {
    type V = NodeModel;

    open spec fn view(&self) -> NodeModel {
        match self {
            NodeType::Drone(d) => NodeModel::Drone(d@),
            NodeType::Server(a) => NodeModel::Server(*a),
            NodeType::Client(a) => NodeModel::Client(*a),
        }
    }
}

impl Clone for NodeType {
    fn clone(&self) -> (r: Self)
        ensures
            r@ == self@,
    {
        match self {
            NodeType::Drone(d) => NodeType::Drone(d.clone()),
            NodeType::Server(a) => NodeType::Server(*a),
            NodeType::Client(a) => NodeType::Client(*a),
        }
    }
}

pub open spec fn simple_of(m: NodeModel) -> SimpleNodeType {
    match m {
        NodeModel::Drone(_) => SimpleNodeType::Drone,
        NodeModel::Server(_) => SimpleNodeType::Server,
        NodeModel::Client(_) => SimpleNodeType::Client,
    }
}

pub open spec fn is_host(m: NodeModel) -> bool {
    !(m is Drone)
}

pub open spec fn application_of(m: NodeModel) -> Option<ApplicationType> {
    match m {
        NodeModel::Drone(_) => None,
        NodeModel::Server(a) => Some(a),
        NodeModel::Client(a) => Some(a),
    }
}

/// The counterpart of a host with an unknown application; a drone stays itself.
pub open spec fn weak_counterpart(m: NodeModel) -> NodeModel {
    match m {
        NodeModel::Drone(h) => NodeModel::Drone(h),
        NodeModel::Server(_) => NodeModel::Client(ApplicationType::Unknown),
        NodeModel::Client(_) => NodeModel::Server(ApplicationType::Unknown),
    }
}

/// The counterpart of a host, running the same application; a drone stays
/// itself.
pub open spec fn strong_counterpart(m: NodeModel) -> NodeModel {
    match m {
        NodeModel::Drone(h) => NodeModel::Drone(h),
        NodeModel::Server(a) => NodeModel::Client(a),
        NodeModel::Client(a) => NodeModel::Server(a),
    }
}

pub open spec fn node_cost(m: NodeModel) -> nat {
    match m {
        NodeModel::Drone(h) => drone_cost(h),
        _ => 0,
    }
}

pub open spec fn model_wf(m: NodeModel) -> bool {
    match m {
        NodeModel::Drone(h) => h.len() <= MEMORY_SIZE,
        _ => true,
    }
}

/// Whether `b` tells more about a node than `a` already does (both of one id):
/// same kind, and `a` an unknown host, or `b` a drone with outcomes to add.
pub open spec fn is_other_useful_spec(a: NodeModel, b: NodeModel) -> bool {
    if simple_of(a) != simple_of(b) {
        false
    } else if application_of(a) == Some(ApplicationType::Unknown) {
        true
    } else if application_of(a) == Some(ApplicationType::Unwanted) {
        false
    } else {
        match b {
            NodeModel::Drone(h) => h.len() > 0,
            _ => false,
        }
    }
}

/// A route between `a` and `b` is worth having: both are hosts, of opposite
/// kinds, with compatible applications.
pub open spec fn is_route_meaningful_spec(a: NodeModel, b: NodeModel) -> bool {
    match (a, b) {
        (NodeModel::Client(x), NodeModel::Server(y)) => compatible_spec(x, y),
        (NodeModel::Server(x), NodeModel::Client(y)) => compatible_spec(x, y),
        _ => false,
    }
}

impl NodeType {
    pub open spec fn wf(&self) -> bool {
        model_wf(self@)
    }

    pub fn new(simple_node_type: SimpleNodeType) -> (r: Self)
        ensures
            r@ == (match simple_node_type {
                SimpleNodeType::Drone => NodeModel::Drone(Seq::empty()),
                SimpleNodeType::Server => NodeModel::Server(ApplicationType::Unknown),
                SimpleNodeType::Client => NodeModel::Client(ApplicationType::Unknown),
            }),
            r.wf(),
    {
        match simple_node_type {
            SimpleNodeType::Drone => NodeType::Drone(Drone::new()),
            SimpleNodeType::Server => NodeType::Server(ApplicationType::Unknown),
            SimpleNodeType::Client => NodeType::Client(ApplicationType::Unknown),
        }
    }

    pub fn weak_counter_part(&self) -> (r: NodeType)
        ensures
            r@ == weak_counterpart(self@),
    {
        match self {
            NodeType::Drone(drone) => NodeType::Drone(drone.clone()),
            NodeType::Server(_) => NodeType::Client(ApplicationType::Unknown),
            NodeType::Client(_) => NodeType::Server(ApplicationType::Unknown),
        }
    }

    pub fn strong_counter_part(&self) -> (r: NodeType)
        ensures
            r@ == strong_counterpart(self@),
    {
        match self {
            NodeType::Drone(drone) => NodeType::Drone(drone.clone()),
            NodeType::Server(application) => NodeType::Client(*application),
            NodeType::Client(application) => NodeType::Server(*application),
        }
    }

    pub fn to_simple(&self) -> (r: SimpleNodeType)
        ensures
            r == simple_of(self@),
    {
        match self {
            NodeType::Drone(_) => SimpleNodeType::Drone,
            NodeType::Server(_) => SimpleNodeType::Server,
            NodeType::Client(_) => SimpleNodeType::Client,
        }
    }

    /// Cost of entering this node on a route, in millionths.
    pub fn cost(&self) -> (r: u64)
        requires
            self.wf(),
        ensures
            r == node_cost(self@),
    {
        match self {
            NodeType::Drone(drone) => drone.cost(),
            _ => 0,
        }
    }

    pub fn application(&self) -> (r: Option<&ApplicationType>)
        ensures
            match r {
                Some(a) => application_of(self@) == Some(*a),
                None => application_of(self@) is None,
            },
    {
        match self {
            NodeType::Server(application) => Some(application),
            NodeType::Client(application) => Some(application),
            _ => None,
        }
    }

    pub fn application_mut(&mut self) -> (r: Option<&mut ApplicationType>)
        ensures
            match r {
                Some(a) => *a == application_of(old(self)@).unwrap() && match old(self)@ {
                    NodeModel::Server(_) => final(self)@ == NodeModel::Server(*final(a)),
                    NodeModel::Client(_) => final(self)@ == NodeModel::Client(*final(a)),
                    NodeModel::Drone(_) => false,
                },
                None => old(self)@ is Drone && final(self)@ == old(self)@,
            },
    {
        match self {
            NodeType::Server(application) => Some(application),
            NodeType::Client(application) => Some(application),
            _ => None,
        }
    }
}

#[derive(Debug)]
pub struct Node {
    pub id: NodeId,
    pub node_type: NodeType,
}

impl Clone for Node {
    fn clone(&self) -> (r: Self)
        ensures
            r.id == self.id,
            r.node_type@ == self.node_type@,
    {
        Node { id: self.id, node_type: self.node_type.clone() }
    }
}

impl Node {
    pub fn new(id: NodeId, node_type: NodeType) -> (r: Self)
        ensures
            r.id == id,
            r.node_type@ == node_type@,
    {
        Node { id, node_type }
    }

    pub fn is_other_useful(&self, other: &Self) -> (r: bool)
        ensures
            r == is_other_useful_spec(self.node_type@, other.node_type@),
    {
        if self.node_type.to_simple() != other.node_type.to_simple() {
            return false;
        }
        if self.node_type.application() == Some(&ApplicationType::Unknown) {
            return true;
        }
        if self.node_type.application() == Some(&ApplicationType::Unwanted) {
            return false;
        }
        if let NodeType::Drone(drone) = &other.node_type {
            if drone.latest_deliveries.len() > 0 {
                return true;
            }
        }
        false
    }

    pub fn update_delivery(&mut self, delivery: FragmentDelivery)
        requires
            old(self).node_type.wf(),
        ensures
            final(self).id == old(self).id,
            final(self).node_type.wf(),
            final(self).node_type@ == (match old(self).node_type@ {
                NodeModel::Drone(h) => NodeModel::Drone(keep_last(h.push(delivery))),
                m => m,
            }),
    {
        if let NodeType::Drone(drone) = &mut self.node_type {
            drone.record_delivery(delivery);
        }
    }

    pub fn cost(&self) -> (r: u64)
        requires
            self.node_type.wf(),
        ensures
            r == node_cost(self.node_type@),
    {
        self.node_type.cost()
    }

    pub fn is_route_meaningful(&self, other: &Self) -> (r: bool)
        ensures
            r == is_route_meaningful_spec(self.node_type@, other.node_type@),
    {
        if self.node_type.to_simple() == SimpleNodeType::Drone
            || other.node_type.to_simple() == SimpleNodeType::Drone {
            return false;
        }
        if self.node_type.weak_counter_part().to_simple() != other.node_type.to_simple() {
            return false;
        }
        match (self.node_type.application(), other.node_type.application()) {
            (Some(app1), Some(app2)) => app1.compatible(app2),
            _ => false,
        }
    }
}

} // verus!
