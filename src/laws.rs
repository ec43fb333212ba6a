use vstd::prelude::*;
use crate::counter::Counter;
use crate::error::Error;
use crate::ledger::CascadingDonations;
use crate::rules::{
    cascade_from, cascade_to, forward_of, forwarded_from, forwarded_total, lemma_cascade_absent,
    lemma_cascade_single, lemma_forwarded_within_pool, owner_share, well_shaped, Rule,
};

verus! {

/// Registration happens once: once `register_project` of `id` has run, a
/// second `register_project` of `id` fails, whoever calls either, and
/// changes nothing.
pub proof fn law_register_once(
    s0: CascadingDonations,
    a: Seq<char>,
    b: Seq<char>,
    id: Seq<char>,
    s1: CascadingDonations,
    r1: Result<(), Error>,
    s2: CascadingDonations,
    r2: Result<(), Error>,
)
    requires
        CascadingDonations::register_post(s0, a, id, s1, r1),
        CascadingDonations::register_post(s1, b, id, s2, r2),
    ensures
        r2 == Err::<(), Error>(Error::ProjectAlreadyExists),
        s2 == s1,
{
}

/// A rule set that validation refuses is not stored: the rules that `id`
/// had before the call are the rules it has after.
pub proof fn law_refused_rules_keep_previous(
    s0: CascadingDonations,
    caller: Seq<char>,
    id: Seq<char>,
    rules: Seq<Rule>,
    s1: CascadingDonations,
    r: Result<(), Error>,
)
    requires
        CascadingDonations::set_rules_post(s0, caller, id, rules, s1, r),
        s0.rules_error(id, rules) is Some,
    ensures
        r is Err,
        s1.rules_of(id) == s0.rules_of(id),
{
}

/// Distribution neither creates nor destroys funds: what the rules forward
/// and what stays with the owner add up to the pool, the owner's part is
/// never negative, and each recipient gets exactly its rule's amount.
pub proof fn law_share_conservation(rs: Seq<Rule>, own: Seq<char>, p: int, min: int)
    requires
        well_shaped(rs, own),
        p >= 0,
    ensures
        forwarded_total(rs, p, min) + owner_share(rs, p, min) == p,
        owner_share(rs, p, min) >= 0,
        forall|i: int|
            0 <= i < rs.len() ==> cascade_to(rs, (#[trigger] rs[i]).0, p, min) == forward_of(
                p,
                rs[i].1 as int,
                min,
            ),
{
    lemma_forwarded_within_pool(rs, own, p, min);
    assert forall|i: int| 0 <= i < rs.len() implies cascade_to(rs, (#[trigger] rs[i]).0, p, min)
        == forward_of(p, rs[i].1 as int, min) by {
        lemma_cascade_single(rs, i, p, min);
    }
}

/// The order of the rules does not matter: two rule sets that hold the same
/// rules, in whatever order, give every recipient the same amount.
pub proof fn law_rule_order_irrelevant(
    rs1: Seq<Rule>,
    rs2: Seq<Rule>,
    own: Seq<char>,
    r: Seq<char>,
    p: int,
    min: int,
)
    requires
        well_shaped(rs1, own),
        well_shaped(rs2, own),
        rs1.to_set() == rs2.to_set(),
    ensures
        cascade_to(rs1, r, p, min) == cascade_to(rs2, r, p, min),
{
    if exists|i: int| 0 <= i < rs1.len() && (#[trigger] rs1[i]).0 == r {
        let i = choose|i: int| 0 <= i < rs1.len() && (#[trigger] rs1[i]).0 == r;
        assert(rs1.to_set().contains(rs1[i]));
        assert(rs2.to_set().contains(rs1[i]));
        let j = choose|j: int| 0 <= j < rs2.len() && rs2[j] == rs1[i];
        lemma_cascade_single(rs1, i, p, min);
        lemma_cascade_single(rs2, j, p, min);
    } else {
        lemma_cascade_absent(rs1, r, p, min);
        assert forall|j: int| 0 <= j < rs2.len() implies (#[trigger] rs2[j]).0 != r by {
            assert(rs2.to_set().contains(rs2[j]));
            assert(rs1.to_set().contains(rs2[j]));
            let i = choose|i: int| 0 <= i < rs1.len() && rs1[i] == rs2[j];
            assert(rs1[i].0 == rs2[j].0);
        }
        lemma_cascade_absent(rs2, r, p, min);
    }
}

/// On the ledger, a distribution moves exactly the pool: the owner's
/// unclaimed total and forwarded total together gain what the pool held,
/// and the pool is left empty.
pub proof fn law_distribution_moves_pool(
    s0: CascadingDonations,
    id: Seq<char>,
    asset: Seq<char>,
    min: int,
    s1: CascadingDonations,
    r: Result<(), Error>,
)
    requires
        s0.wf(),
        CascadingDonations::distribute_post(s0, id, asset, min, s1, r),
        r is Ok,
    ensures
        (s1.unclaimed(id, asset) - s0.unclaimed(id, asset)) + (s1.counter(
            Counter::Forwarded(id, asset),
        ) - s0.counter(Counter::Forwarded(id, asset))) == s0.pool(id, asset),
        s1.unclaimed(id, asset) >= s0.unclaimed(id, asset),
        s1.pool(id, asset) == 0,
{
    s0.lemma_wf();
    let rs = s0.rules_of(id)->0;
    assert(s1.counter(Counter::Unclaimed(id, asset)) == s0.distributed(
        id,
        asset,
        min,
        Counter::Unclaimed(id, asset),
    ));
    assert(s1.counter(Counter::Forwarded(id, asset)) == s0.distributed(
        id,
        asset,
        min,
        Counter::Forwarded(id, asset),
    ));
    assert(s1.counter(Counter::Pool(id, asset)) == s0.distributed(
        id,
        asset,
        min,
        Counter::Pool(id, asset),
    ));
    lemma_forwarded_within_pool(rs, id, s0.pool(id, asset), min);
}

proof fn lemma_forward_monotone(p: int, share: int, min1: int, min2: int)
    requires
        p >= 0,
        0 <= share,
        min1 <= min2,
    ensures
        forward_of(p, share, min2) <= forward_of(p, share, min1),
{
    assert(p * share >= 0) by (nonlinear_arith)
        requires
            p >= 0,
            share >= 0,
    ;
}

proof fn lemma_threshold_monotone_from(
    rs: Seq<Rule>,
    i: int,
    r: Seq<char>,
    p: int,
    min1: int,
    min2: int,
)
    requires
        p >= 0,
        min1 <= min2,
        0 <= i <= rs.len(),
    ensures
        cascade_from(rs, i, r, p, min2) <= cascade_from(rs, i, r, p, min1),
        forwarded_from(rs, i, p, min2) <= forwarded_from(rs, i, p, min1),
    decreases rs.len() - i,
{
    if i < rs.len() {
        lemma_threshold_monotone_from(rs, i + 1, r, p, min1, min2);
        lemma_forward_monotone(p, rs[i].1 as int, min1, min2);
    }
}

/// Raising the dust threshold never gives a recipient more and never
/// leaves the owner less.
pub proof fn law_dust_threshold_monotone(
    rs: Seq<Rule>,
    r: Seq<char>,
    p: int,
    min1: int,
    min2: int,
)
    requires
        p >= 0,
        min1 <= min2,
    ensures
        cascade_to(rs, r, p, min2) <= cascade_to(rs, r, p, min1),
        owner_share(rs, p, min2) >= owner_share(rs, p, min1),
{
    lemma_threshold_monotone_from(rs, 0, r, p, min1, min2);
}

/// A pool drains once: right after a distribution that succeeded, a second
/// one fails with `NothingToDistribute` and changes nothing.
pub proof fn law_distribute_drains_once(
    s0: CascadingDonations,
    id: Seq<char>,
    asset: Seq<char>,
    min1: int,
    s1: CascadingDonations,
    r1: Result<(), Error>,
    min2: int,
    s2: CascadingDonations,
    r2: Result<(), Error>,
)
    requires
        CascadingDonations::distribute_post(s0, id, asset, min1, s1, r1),
        r1 is Ok,
        CascadingDonations::distribute_post(s1, id, asset, min2, s2, r2),
    ensures
        r2 == Err::<(), Error>(Error::NothingToDistribute),
        s2 == s1,
{
    assert(s1.counter(Counter::Pool(id, asset)) == s0.distributed(
        id,
        asset,
        min1,
        Counter::Pool(id, asset),
    ));
    assert(s1.owner_of(id) == s0.owner_of(id));
    assert(s1.rules_of(id) == s0.rules_of(id));
}

/// A claim drains once: after a claim that succeeded nothing is unclaimed,
/// and the same owner's next claim fails with `NothingToDistribute`.
pub proof fn law_claim_drains_once(
    s0: CascadingDonations,
    caller: Seq<char>,
    id: Seq<char>,
    asset: Seq<char>,
    to1: Option<String>,
    s1: CascadingDonations,
    r1: Result<i128, Error>,
    to2: Option<String>,
    s2: CascadingDonations,
    r2: Result<i128, Error>,
)
    requires
        CascadingDonations::claim_post(s0, caller, id, asset, to1, s1, r1),
        r1 is Ok,
        CascadingDonations::claim_post(s1, caller, id, asset, to2, s2, r2),
    ensures
        s1.unclaimed(id, asset) == 0,
        r2 == Err::<i128, Error>(Error::NothingToDistribute),
{
    let rec1 = match to1 {
        Some(t) => t@,
        None => caller,
    };
    assert(s1.counter(Counter::Unclaimed(id, asset)) == s0.claimed(
        id,
        asset,
        rec1,
        Counter::Unclaimed(id, asset),
    ));
    assert(s1.owner_of(id) == s0.owner_of(id));
}

/// A nickname has one holder: once `u1` holds `x`, another principal's
/// request for `x` fails with `NicknameAlreadyTaken`.
pub proof fn law_nickname_taken(
    s0: CascadingDonations,
    u1: Seq<char>,
    x: Seq<char>,
    s1: CascadingDonations,
    r1: Result<(), Error>,
    u2: Seq<char>,
    s2: CascadingDonations,
    r2: Result<(), Error>,
)
    requires
        CascadingDonations::set_nickname_post(s0, u1, x, s1, r1),
        r1 is Ok,
        u2 != u1,
        CascadingDonations::set_nickname_post(s1, u2, x, s2, r2),
    ensures
        r2 == Err::<(), Error>(Error::NicknameAlreadyTaken),
{
}

/// Taking a new nickname releases the old one: once `u1` holds `x` and
/// then takes `y`, nobody holds `x`.
pub proof fn law_nickname_released(
    s0: CascadingDonations,
    u1: Seq<char>,
    x: Seq<char>,
    s1: CascadingDonations,
    r1: Result<(), Error>,
    y: Seq<char>,
    s2: CascadingDonations,
    r2: Result<(), Error>,
)
    requires
        CascadingDonations::set_nickname_post(s0, u1, x, s1, r1),
        r1 is Ok,
        x != y,
        CascadingDonations::set_nickname_post(s1, u1, y, s2, r2),
        r2 is Ok,
    ensures
        s2.nickname_owner(x) is None,
{
    assert(s2.nickname_owner(x) == if s1.nickname_owner(x) == Some(u1) {
        None
    } else {
        s1.nickname_owner(x)
    });
}

} // verus!
