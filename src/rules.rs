use vstd::prelude::*;
use vstd::arithmetic::div_mod::{
    lemma_div_is_ordered, lemma_div_pos_is_pos, lemma_fundamental_div_mod,
    lemma_hoist_over_denominator, lemma_mod_bound,
};
use vstd::arithmetic::mul::lemma_mul_inequality;
use crate::table::Table;

verus! {

/// Shares are parts per ten thousand of a pool.
pub const BPS_BASE: u32 = 10000;

/// The most recipients a rule set may name.
pub const MAX_RULES: usize = 10;

/// One rule: a recipient identifier and its share in basis points.
pub type Rule = (Seq<char>, u32);

/// The mapping from recipient identifier to share that an owner configures.
/// Recipients are unique; entries keep the order in which they were first set.
pub struct RuleSet {
    table: Table<String, u32>,
}

impl View for RuleSet {
    type V = Seq<Rule>;

    closed spec fn view(&self) -> Seq<Rule> {
        self.table.entries()
    }
}

/// No recipient is named twice.
pub open spec fn distinct_recipients(rs: Seq<Rule>) -> bool {
    forall|i: int, j: int|
        0 <= i < rs.len() && 0 <= j < rs.len() && i != j ==> #[trigger] rs[i].0 != #[trigger] rs[j].0
}

/// The sum of the shares from position `i` on.
pub open spec fn shares_from(rs: Seq<Rule>, i: int) -> int
    decreases rs.len() - i,
{
    if i < 0 || i >= rs.len() {
        0
    } else {
        rs[i].1 as int + shares_from(rs, i + 1)
    }
}

/// What a stored rule set of identifier `own` always satisfies.
pub open spec fn well_shaped(rs: Seq<Rule>, own: Seq<char>) -> bool {
    &&& rs.len() <= MAX_RULES
    &&& distinct_recipients(rs)
    &&& forall|i: int| 0 <= i < rs.len() ==> (#[trigger] rs[i]).0 != own
    &&& forall|i: int| 0 <= i < rs.len() ==> 1 <= (#[trigger] rs[i]).1 <= BPS_BASE
    &&& shares_from(rs, 0) <= BPS_BASE
}

/// The amount one rule forwards out of a pool `p`: the share rounded down,
/// or nothing when that falls below the dust threshold `min`.
pub open spec fn forward_of(p: int, share: int, min: int) -> int {
    let f = p * share / (BPS_BASE as int);
    if f < min {
        0
    } else {
        f
    }
}

/// The total forwarded by the rules from position `i` on.
pub open spec fn forwarded_from(rs: Seq<Rule>, i: int, p: int, min: int) -> int
    decreases rs.len() - i,
{
    if i < 0 || i >= rs.len() {
        0
    } else {
        forward_of(p, rs[i].1 as int, min) + forwarded_from(rs, i + 1, p, min)
    }
}

/// The amount that the rules from position `i` on forward to recipient `r`.
pub open spec fn cascade_from(rs: Seq<Rule>, i: int, r: Seq<char>, p: int, min: int) -> int
    decreases rs.len() - i,
{
    if i < 0 || i >= rs.len() {
        0
    } else {
        (if rs[i].0 == r {
            forward_of(p, rs[i].1 as int, min)
        } else {
            0
        }) + cascade_from(rs, i + 1, r, p, min)
    }
}

/// Total forwarded out of pool `p` by rule set `rs` under threshold `min`.
pub open spec fn forwarded_total(rs: Seq<Rule>, p: int, min: int) -> int {
    forwarded_from(rs, 0, p, min)
}

/// What stays with the owner of the pool.
pub open spec fn owner_share(rs: Seq<Rule>, p: int, min: int) -> int {
    p - forwarded_total(rs, p, min)
}

/// The amount recipient `r` receives out of pool `p`.
pub open spec fn cascade_to(rs: Seq<Rule>, r: Seq<char>, p: int, min: int) -> int {
    cascade_from(rs, 0, r, p, min)
}

pub proof fn lemma_forward_bounds(p: int, share: int, min: int)
    requires
        p >= 0,
        0 <= share <= BPS_BASE,
    ensures
        0 <= forward_of(p, share, min) <= p,
        forward_of(p, share, min) * BPS_BASE <= p * share,
{
    let d = BPS_BASE as int;
    assert(p * share >= 0) by (nonlinear_arith)
        requires
            p >= 0,
            share >= 0,
    ;
    assert(p * share <= p * d) by (nonlinear_arith)
        requires
            p >= 0,
            share <= d,
    ;
    lemma_div_pos_is_pos(p * share, d);
    lemma_div_is_ordered(p * share, p * d, d);
    assert(p * d / d == p) by (nonlinear_arith)
        requires
            d == 10000,
    ;
    lemma_fundamental_div_mod(p * share, d);
    lemma_mod_bound(p * share, d);
}

/// The forwarded total is a sum of rounded-down parts of `p`.
proof fn lemma_forwarded_scaled(rs: Seq<Rule>, i: int, p: int, min: int)
    requires
        p >= 0,
        0 <= i <= rs.len(),
        forall|j: int| 0 <= j < rs.len() ==> (#[trigger] rs[j]).1 <= BPS_BASE,
    ensures
        0 <= forwarded_from(rs, i, p, min),
        forwarded_from(rs, i, p, min) * BPS_BASE <= p * shares_from(rs, i),
    decreases rs.len() - i,
{
    if i < rs.len() {
        lemma_forwarded_scaled(rs, i + 1, p, min);
        lemma_forward_bounds(p, rs[i].1 as int, min);
        let a = forward_of(p, rs[i].1 as int, min);
        let b = forwarded_from(rs, i + 1, p, min);
        let s = rs[i].1 as int;
        let t = shares_from(rs, i + 1);
        assert((a + b) * BPS_BASE <= p * (s + t)) by (nonlinear_arith)
            requires
                a * BPS_BASE <= p * s,
                b * BPS_BASE <= p * t,
        ;
    }
}

/// No rule forwards a negative amount.
pub proof fn lemma_forwarded_nonneg(rs: Seq<Rule>, i: int, p: int, min: int)
    requires
        p >= 0,
        0 <= i <= rs.len(),
        forall|j: int| 0 <= j < rs.len() ==> (#[trigger] rs[j]).1 <= BPS_BASE,
    ensures
        0 <= forwarded_from(rs, i, p, min),
{
    lemma_forwarded_scaled(rs, i, p, min);
}

/// Forwarding under a valid rule set never takes more than the pool.
pub proof fn lemma_forwarded_within_pool(rs: Seq<Rule>, own: Seq<char>, p: int, min: int)
    requires
        well_shaped(rs, own),
        p >= 0,
    ensures
        0 <= forwarded_total(rs, p, min) <= p,
        0 <= owner_share(rs, p, min) <= p,
{
    lemma_forwarded_scaled(rs, 0, p, min);
    let f = forwarded_total(rs, p, min);
    let s = shares_from(rs, 0);
    assert(p * s <= p * BPS_BASE) by (nonlinear_arith)
        requires
            p >= 0,
            s <= BPS_BASE,
    ;
    assert(f <= p) by (nonlinear_arith)
        requires
            f * BPS_BASE <= p * BPS_BASE,
    ;
}

/// Rules before position `i` that do not name `r` give it nothing.
pub proof fn lemma_cascade_skip(rs: Seq<Rule>, i: int, r: Seq<char>, p: int, min: int)
    requires
        0 <= i <= rs.len(),
        forall|j: int| 0 <= j < i ==> (#[trigger] rs[j]).0 != r,
    ensures
        cascade_from(rs, 0, r, p, min) == cascade_from(rs, i, r, p, min),
{
    lemma_cascade_skip_from(rs, 0, i, r, p, min);
}

proof fn lemma_cascade_skip_from(rs: Seq<Rule>, k: int, i: int, r: Seq<char>, p: int, min: int)
    requires
        0 <= k <= i <= rs.len(),
        forall|j: int| k <= j < i ==> (#[trigger] rs[j]).0 != r,
    ensures
        cascade_from(rs, k, r, p, min) == cascade_from(rs, i, r, p, min),
    decreases i - k,
{
    if k < i {
        lemma_cascade_skip_from(rs, k + 1, i, r, p, min);
    }
}

/// With distinct recipients, a recipient receives exactly its own rule's amount.
pub proof fn lemma_cascade_single(rs: Seq<Rule>, i: int, p: int, min: int)
    requires
        distinct_recipients(rs),
        0 <= i < rs.len(),
    ensures
        cascade_to(rs, rs[i].0, p, min) == forward_of(p, rs[i].1 as int, min),
{
    let x = rs[i].0;
    assert forall|j: int| 0 <= j < i implies (#[trigger] rs[j]).0 != x by {
        assert(rs[j].0 != rs[i].0);
    }
    lemma_cascade_skip(rs, i, x, p, min);
    assert forall|j: int| i + 1 <= j < rs.len() implies (#[trigger] rs[j]).0 != x by {
        assert(rs[j].0 != rs[i].0);
    }
    lemma_cascade_skip_from(rs, i + 1, rs.len() as int, x, p, min);
}

/// A recipient that no rule names receives nothing.
pub proof fn lemma_cascade_absent(rs: Seq<Rule>, r: Seq<char>, p: int, min: int)
    requires
        forall|j: int| 0 <= j < rs.len() ==> (#[trigger] rs[j]).0 != r,
    ensures
        cascade_to(rs, r, p, min) == 0,
{
    lemma_cascade_skip_from(rs, 0, rs.len() as int, r, p, min);
}

/// `floor(p * share / BPS_BASE)` computed without a product wider than `p`.
pub fn share_of_pool(p: i128, share: u32) -> (r: i128)
    requires
        p >= 0,
        share <= BPS_BASE,
    ensures
        r == p * share / (BPS_BASE as int),
        0 <= r <= p,
{
    let d: i128 = BPS_BASE as i128;
    let q: i128 = p / d;
    let m: i128 = p % d;
    let s: i128 = share as i128;
    proof {
        lemma_fundamental_div_mod(p as int, d as int);
        lemma_mod_bound(p as int, d as int);
        lemma_div_pos_is_pos(p as int, d as int);
        lemma_mul_inequality(s as int, d as int, q as int);
        assert(q * s == s * q) by (nonlinear_arith);
        assert(d * q == q * d) by (nonlinear_arith);
        lemma_mul_inequality(s as int, d as int, m as int);
        assert(m * s == s * m) by (nonlinear_arith);
        lemma_hoist_over_denominator(m * s, q * s, 10000);
        assert(p * s == m * s + (q * s) * 10000) by (nonlinear_arith)
            requires
                p == d * q + m,
                d == 10000,
        ;
        // With the lowest threshold the forwarded amount is the plain share,
        // so its bounds are those of the share.
        lemma_forward_bounds(p as int, s as int, i128::MIN as int);
    }
    let whole: i128 = q * s;
    let part: i128 = m * s / d;
    whole + part
}

/// The amount one rule forwards, as `forward_of` states it.
pub fn forward_amount(p: i128, share: u32, min: i128) -> (r: i128)
    requires
        p >= 0,
        share <= BPS_BASE,
    ensures
        r == forward_of(p as int, share as int, min as int),
        0 <= r <= p,
{
    let f = share_of_pool(p, share);
    if f < min {
        0
    } else {
        f
    }
}

impl RuleSet {
    pub closed spec fn wf(&self) -> bool {
        self.table.wf()
    }

    /// What a rule set looks up by recipient.
    pub closed spec fn lookup(&self) -> Map<Seq<char>, u32> {
        self.table.map()
    }

    pub proof fn lemma_view(&self)
        requires
            self.wf(),
        ensures
            distinct_recipients(self@),
            forall|i: int|
                0 <= i < self@.len() ==> self.lookup().contains_key(#[trigger] self@[i].0)
                    && self.lookup()[self@[i].0] == self@[i].1,
            forall|r: Seq<char>|
                #[trigger] self.lookup().contains_key(r) ==> exists|i: int|
                    0 <= i < self@.len() && #[trigger] self@[i].0 == r,
    {
        self.table.lemma_entries_map();
    }

    pub fn new() -> (r: Self)
        ensures
            r.wf(),
            r@ == Seq::<Rule>::empty(),
    {
        RuleSet { table: Table::new() }
    }

    /// Sets the share of `recipient`, replacing any share it had: a
    /// recipient already present keeps its place, a new one goes last.
    pub fn set(&mut self, recipient: String, share: u32)
        requires
            old(self).wf(),
        ensures
            final(self).wf(),
            final(self).lookup() == old(self).lookup().insert(recipient@, share),
            old(self).lookup().contains_key(recipient@) ==> final(self)@.len() == old(self)@.len(),
            !old(self).lookup().contains_key(recipient@) ==> final(self)@ == old(self)@.push(
                (recipient@, share),
            ),
    {
        self.table.insert(recipient, share);
    }

    /// The share of `recipient`, if it has one.
    pub fn get(&self, recipient: &String) -> (r: Option<u32>)
        requires
            self.wf(),
        ensures
            r is Some <==> self.lookup().contains_key(recipient@),
            r is Some ==> r->0 == self.lookup()[recipient@],
    {
        match self.table.get(recipient) {
            Some(v) => Some(*v),
            None => None,
        }
    }

    pub fn len(&self) -> (r: usize)
        requires
            self.wf(),
        ensures
            r == self@.len(),
    {
        self.table.len()
    }

    pub fn recipient_at(&self, i: usize) -> (r: &String)
        requires
            self.wf(),
            i < self@.len(),
        ensures
            r@ == self@[i as int].0,
    {
        self.table.key_at(i)
    }

    pub fn share_at(&self, i: usize) -> (r: u32)
        requires
            self.wf(),
            i < self@.len(),
        ensures
            r == self@[i as int].1,
    {
        *self.table.val_at(i)
    }

    /// A rule set with the same rules in the same order.
    pub fn copy(&self) -> (r: Self)
        requires
            self.wf(),
        ensures
            r.wf(),
            r@ == self@,
    {
        proof {
            self.lemma_view();
        }
        let mut out = RuleSet::new();
        let n = self.len();
        let mut i: usize = 0;
        while i < n
            invariant
                self.wf(),
                out.wf(),
                n == self@.len(),
                i <= n,
                out@ == self@.take(i as int),
                distinct_recipients(self@),
            decreases n - i,
        {
            let k = self.recipient_at(i).clone();
            let v = self.share_at(i);
            proof {
                out.lemma_view();
                if out.lookup().contains_key(k@) {
                    let j = choose|j: int| 0 <= j < out@.len() && #[trigger] out@[j].0 == k@;
                    assert(self@[j].0 == k@);
                }
            }
            out.table.insert(k, v);
            assert(self@.take(i + 1) =~= self@.take(i as int).push(self@[i as int]));
            i = i + 1;
        }
        assert(self@.take(n as int) =~= self@);
        out
    }
}

} // verus!
