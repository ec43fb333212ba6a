use vstd::prelude::*;
use crate::counter::{Counter, CounterKey};
use crate::error::Error;
use crate::events::{
    emit_claimed, emit_distributed, emit_donated, emit_nickname_set, emit_ownership_transferred,
    emit_project_registered, emit_rules_set, records, Event, EventRecord,
};
use crate::rules::{
    cascade_from, cascade_to, distinct_recipients, forward_amount, forward_of, forwarded_from,
    forwarded_total, lemma_cascade_absent, lemma_cascade_skip, lemma_forward_bounds,
    lemma_forwarded_nonneg, lemma_forwarded_within_pool, owner_share, shares_from, well_shaped, Rule,
    RuleSet, BPS_BASE, MAX_RULES,
};
use crate::table::Table;

verus! {

/// Which recipient, if any, a distribution of `asset` credits through counter `c`.
pub open spec fn cascade_credited(c: Counter, asset: Seq<char>) -> Option<Seq<char>> {
    match c {
        Counter::Pool(r, a) => if a == asset { Some(r) } else { None },
        Counter::Received(r, a) => if a == asset { Some(r) } else { None },
        Counter::ReceivedFromCascade(r, a) => if a == asset { Some(r) } else { None },
        _ => None,
    }
}

/// The distribution ledger: ownership of identifiers, their rule sets, the
/// running totals per identifier and asset, and the nickname registry.
pub struct CascadingDonations {
    owners: Table<String, String>,
    rules: Table<String, RuleSet>,
    counters: Table<CounterKey, i128>,
    nicknames: Table<String, String>,
    nickname_owners: Table<String, String>,
    registered_recipients_only: bool,
    events: Vec<Event>,
}

impl CascadingDonations {
    /// The principal that controls identifier `id`.
    pub closed spec fn owner_of(&self, id: Seq<char>) -> Option<Seq<char>> {
        if self.owners.map().contains_key(id) {
            Some(self.owners.map()[id]@)
        } else {
            None
        }
    }

    /// The stored rule set of identifier `id`.
    pub closed spec fn rules_of(&self, id: Seq<char>) -> Option<Seq<Rule>> {
        if self.rules.map().contains_key(id) {
            Some(self.rules.map()[id]@)
        } else {
            None
        }
    }

    /// The value of a running total; one never written is zero.
    pub closed spec fn counter(&self, c: Counter) -> int {
        if self.counters.map().contains_key(c) {
            self.counters.map()[c] as int
        } else {
            0
        }
    }

    /// The nickname that principal `p` holds.
    pub closed spec fn nickname_of(&self, p: Seq<char>) -> Option<Seq<char>> {
        if self.nicknames.map().contains_key(p) {
            Some(self.nicknames.map()[p]@)
        } else {
            None
        }
    }

    /// The principal that holds nickname `n`.
    pub closed spec fn nickname_owner(&self, n: Seq<char>) -> Option<Seq<char>> {
        if self.nickname_owners.map().contains_key(n) {
            Some(self.nickname_owners.map()[n]@)
        } else {
            None
        }
    }

    /// The events not yet handed out by `take_events`, oldest first.
    pub closed spec fn events(&self) -> Seq<EventRecord> {
        records(self.events@)
    }

    /// Whether a rule may only name identifiers that are registered.
    pub closed spec fn registered_recipients_only(&self) -> bool {
        self.registered_recipients_only
    }

    pub closed spec fn wf(&self) -> bool {
        &&& self.owners.wf()
        &&& self.rules.wf()
        &&& self.counters.wf()
        &&& self.nicknames.wf()
        &&& self.nickname_owners.wf()
        &&& forall|id: Seq<char>| #[trigger]
            self.rules.map().contains_key(id) ==> self.rules.map()[id].wf() && well_shaped(
                self.rules.map()[id]@,
                id,
            )
        &&& forall|c: Counter| #[trigger] self.counters.map().contains_key(c) ==> self.counters.map()[c] >= 0
        &&& forall|p: Seq<char>| #[trigger]
            self.nicknames.map().contains_key(p) ==> self.nickname_owners.map().contains_key(
                self.nicknames.map()[p]@,
            ) && self.nickname_owners.map()[self.nicknames.map()[p]@]@ == p
        &&& forall|n: Seq<char>| #[trigger]
            self.nickname_owners.map().contains_key(n) ==> self.nicknames.map().contains_key(
                self.nickname_owners.map()[n]@,
            ) && self.nicknames.map()[self.nickname_owners.map()[n]@]@ == n
    }

    /// What every well-formed ledger satisfies.
    pub proof fn lemma_wf(&self)
        requires
            self.wf(),
        ensures
            forall|c: Counter| #[trigger] self.counter(c) >= 0,
            forall|id: Seq<char>| #[trigger]
                self.rules_of(id) is Some ==> well_shaped(self.rules_of(id)->0, id),
            forall|p: Seq<char>| #[trigger]
                self.nickname_of(p) is Some ==> self.nickname_owner(self.nickname_of(p)->0)
                    == Some(p),
            forall|n: Seq<char>| #[trigger]
                self.nickname_owner(n) is Some ==> self.nickname_of(self.nickname_owner(n)->0)
                    == Some(n),
    {
    }

    pub open spec fn registered(&self, id: Seq<char>) -> bool {
        self.owner_of(id) is Some
    }

    pub open spec fn pool(&self, id: Seq<char>, asset: Seq<char>) -> int {
        self.counter(Counter::Pool(id, asset))
    }

    pub open spec fn unclaimed(&self, id: Seq<char>, asset: Seq<char>) -> int {
        self.counter(Counter::Unclaimed(id, asset))
    }

    /// Ownership, rule sets and the recipient policy agree.
    pub open spec fn same_identities(&self, o: &Self) -> bool {
        &&& forall|id: Seq<char>| #[trigger] self.owner_of(id) == o.owner_of(id)
        &&& forall|id: Seq<char>| #[trigger] self.rules_of(id) == o.rules_of(id)
        &&& self.registered_recipients_only() == o.registered_recipients_only()
    }

    pub open spec fn same_counters(&self, o: &Self) -> bool {
        forall|c: Counter| #[trigger] self.counter(c) == o.counter(c)
    }

    pub open spec fn same_nicknames(&self, o: &Self) -> bool {
        &&& forall|p: Seq<char>| #[trigger] self.nickname_of(p) == o.nickname_of(p)
        &&& forall|n: Seq<char>| #[trigger] self.nickname_owner(n) == o.nickname_owner(n)
    }

    /// Every counter that distributing `id`'s pool of `asset` raises stays in range.
    pub open spec fn distribution_fits(&self, id: Seq<char>, asset: Seq<char>, min: int) -> bool {
        let rs = self.rules_of(id)->0;
        let p = self.pool(id, asset);
        &&& forall|i: int|
            0 <= i < rs.len() ==> self.credit_fits(
                #[trigger] rs[i].0,
                asset,
                forward_of(p, rs[i].1 as int, min),
            )
        &&& self.counter(Counter::Forwarded(id, asset)) + forwarded_total(rs, p, min) <= i128::MAX
        &&& self.counter(Counter::Unclaimed(id, asset)) + owner_share(rs, p, min) <= i128::MAX
    }

    /// Crediting `f` of `asset` to recipient `r` keeps its three totals in range.
    pub open spec fn credit_fits(&self, r: Seq<char>, asset: Seq<char>, f: int) -> bool {
        &&& self.counter(Counter::Pool(r, asset)) + f <= i128::MAX
        &&& self.counter(Counter::Received(r, asset)) + f <= i128::MAX
        &&& self.counter(Counter::ReceivedFromCascade(r, asset)) + f <= i128::MAX
    }

    /// Why distributing `id`'s pool of `asset` is refused, if it is.
    pub open spec fn distribute_error(&self, id: Seq<char>, asset: Seq<char>, min: int) -> Option<
        Error,
    > {
        if !self.registered(id) {
            Some(Error::ProjectNotFound)
        } else if self.rules_of(id) is None {
            Some(Error::RulesNotSet)
        } else if self.pool(id, asset) == 0 {
            Some(Error::NothingToDistribute)
        } else if !self.distribution_fits(id, asset, min) {
            Some(Error::Overflow)
        } else {
            None
        }
    }

    /// The value of counter `c` once `id`'s pool of `asset` is distributed:
    /// each recipient's pool and received totals gain its forwarded amount,
    /// the origin's forwarded total gains their sum, its unclaimed total gains
    /// the rest, and its pool is emptied.
    pub open spec fn distributed(&self, id: Seq<char>, asset: Seq<char>, min: int, c: Counter) -> int {
        let rs = self.rules_of(id)->0;
        let p = self.pool(id, asset);
        if c == Counter::Pool(id, asset) {
            0
        } else if c == Counter::Forwarded(id, asset) {
            self.counter(c) + forwarded_total(rs, p, min)
        } else if c == Counter::Unclaimed(id, asset) {
            self.counter(c) + owner_share(rs, p, min)
        } else {
            match cascade_credited(c, asset) {
                Some(r) => self.counter(c) + cascade_to(rs, r, p, min),
                None => self.counter(c),
            }
        }
    }

    /// Why `caller` may not act as the owner of `id`, if it may not.
    pub open spec fn owner_error(&self, caller: Seq<char>, id: Seq<char>) -> Option<Error> {
        match self.owner_of(id) {
            None => Some(Error::ProjectNotFound),
            Some(o) => if o == caller {
                None
            } else {
                Some(Error::NotOwner)
            },
        }
    }

    /// The first fault that validation finds in the rules from position `i`
    /// on, `sum` being the total of the shares before it.
    pub open spec fn scan_rules(&self, own: Seq<char>, rs: Seq<Rule>, i: int, sum: int) -> Option<Error>
        decreases rs.len() - i,
    {
        if i < 0 || i >= rs.len() {
            None
        } else if rs[i].0 == own {
            Some(Error::SelfReference)
        } else if self.registered_recipients_only() && !self.registered(rs[i].0) {
            Some(Error::RecipientNotRegistered)
        } else if rs[i].1 == 0 || rs[i].1 > BPS_BASE {
            Some(Error::InvalidPercentage)
        } else if sum + rs[i].1 > BPS_BASE {
            Some(Error::RulesTotalExceedsMax)
        } else {
            self.scan_rules(own, rs, i + 1, sum + rs[i].1)
        }
    }

    /// Why rule set `rs` may not be stored for identifier `own`, if it may not.
    pub open spec fn rules_error(&self, own: Seq<char>, rs: Seq<Rule>) -> Option<Error> {
        if rs.len() > MAX_RULES {
            Some(Error::TooManyRules)
        } else {
            self.scan_rules(own, rs, 0, 0)
        }
    }

    /// Whether counter `c` is one that a donation raises.
    pub open spec fn donation_credits(
        c: Counter,
        id: Seq<char>,
        asset: Seq<char>,
        donor: Seq<char>,
    ) -> bool {
        ||| c == Counter::Pool(id, asset)
        ||| c == Counter::Received(id, asset)
        ||| c == Counter::DonorToProject(donor, id, asset)
        ||| c == Counter::DonorTotal(donor, asset)
        ||| c == Counter::GrandTotal(asset)
    }

    /// Why a donation is refused, if it is.
    pub open spec fn donate_error(
        &self,
        id: Seq<char>,
        asset: Seq<char>,
        donor: Seq<char>,
        amount: int,
    ) -> Option<Error> {
        if amount <= 0 {
            Some(Error::InvalidAmount)
        } else if !self.registered(id) {
            Some(Error::ProjectNotFound)
        } else if !(forall|c: Counter|
            Self::donation_credits(c, id, asset, donor) ==> #[trigger] self.counter(c) + amount
                <= i128::MAX) {
            Some(Error::Overflow)
        } else {
            None
        }
    }

    /// Why withdrawing `id`'s unclaimed `asset` to `recipient` is refused, if it is.
    pub open spec fn claim_error(
        &self,
        caller: Seq<char>,
        id: Seq<char>,
        asset: Seq<char>,
        recipient: Seq<char>,
    ) -> Option<Error> {
        if self.owner_error(caller, id) is Some {
            self.owner_error(caller, id)
        } else if self.unclaimed(id, asset) == 0 {
            Some(Error::NothingToDistribute)
        } else if self.counter(Counter::PaidTo(recipient, asset)) + self.unclaimed(id, asset)
            > i128::MAX {
            Some(Error::Overflow)
        } else {
            None
        }
    }

    /// The value of counter `c` after `id`'s unclaimed `asset` is paid to `recipient`.
    pub open spec fn claimed(&self, id: Seq<char>, asset: Seq<char>, recipient: Seq<char>, c: Counter) -> int {
        if c == Counter::Unclaimed(id, asset) {
            0
        } else if c == Counter::PaidTo(recipient, asset) {
            self.counter(c) + self.unclaimed(id, asset)
        } else {
            self.counter(c)
        }
    }

    /// The outcome of `register_project`: refused when `id` is taken; otherwise `id`
    /// belongs to `caller` with an empty rule set and nothing else changes.
    pub open spec fn register_post(pre: Self, caller: Seq<char>, id: Seq<char>, post: Self, r: Result<(), Error>) -> bool {
        &&& r is Err <==> pre.registered(id)
        &&& r is Err ==> r == Err::<(), Error>(Error::ProjectAlreadyExists) && post == pre
        &&& r is Ok ==> post.owner_of(id) == Some(caller)
        &&& r is Ok ==> post.rules_of(id) == Some(Seq::<Rule>::empty())
        &&& r is Ok ==> forall|other: Seq<char>| other != id ==> #[trigger] post.owner_of(other) == pre.owner_of(other)
        &&& r is Ok ==> forall|other: Seq<char>| other != id ==> #[trigger] post.rules_of(other) == pre.rules_of(other)
        &&& r is Ok ==> post.registered_recipients_only() == pre.registered_recipients_only()
        &&& r is Ok ==> post.same_counters(&pre) && post.same_nicknames(&pre)
        &&& r is Ok ==> post.events() == pre.events().push(EventRecord::ProjectRegistered(id, caller))
    }

    /// The outcome of `distribute`.
    pub open spec fn distribute_post(pre: Self, id: Seq<char>, asset: Seq<char>, min: int, post: Self, r: Result<(), Error>) -> bool {
        &&& r is Err <==> pre.distribute_error(id, asset, min) is Some
        &&& r is Err ==> r == Err::<(), Error>(pre.distribute_error(id, asset, min)->0) && post == pre
        &&& r is Ok ==> post.same_identities(&pre) && post.same_nicknames(&pre)
        &&& r is Ok ==> forall|c: Counter| #[trigger]
            post.counter(c) == pre.distributed(id, asset, min, c)
        &&& r is Ok ==> post.events() == pre.events().push(
            EventRecord::Distributed(id, asset, pre.pool(id, asset)),
        )
    }

    /// The outcome of `set_rules`: all or nothing.
    pub open spec fn set_rules_post(pre: Self, caller: Seq<char>, id: Seq<char>, rules: Seq<Rule>, post: Self, r: Result<(), Error>) -> bool {
        &&& r is Err <==> pre.owner_error(caller, id) is Some || pre.rules_error(id, rules) is Some
        &&& r is Err ==> post == pre
        &&& pre.owner_error(caller, id) is Some ==> r == Err::<(), Error>(pre.owner_error(caller, id)->0)
        &&& pre.owner_error(caller, id) is None && pre.rules_error(id, rules) is Some ==> r == Err::<(), Error>(
            pre.rules_error(id, rules)->0,
        )
        &&& r is Ok ==> post.rules_of(id) == Some(rules)
        &&& r is Ok ==> forall|other: Seq<char>| other != id ==> #[trigger] post.rules_of(other) == pre.rules_of(other)
        &&& r is Ok ==> forall|other: Seq<char>| #[trigger] post.owner_of(other) == pre.owner_of(other)
        &&& r is Ok ==> post.registered_recipients_only() == pre.registered_recipients_only()
        &&& r is Ok ==> post.same_counters(&pre) && post.same_nicknames(&pre)
        &&& r is Ok ==> post.events() == pre.events().push(EventRecord::RulesSet(id, rules))
    }

    /// The outcome of `claim`.
    pub open spec fn claim_post(pre: Self, caller: Seq<char>, id: Seq<char>, asset: Seq<char>, to: Option<String>, post: Self, r: Result<i128, Error>) -> bool {
        let recipient = match to {
            Some(t) => t@,
            None => caller,
        };
        let e = pre.claim_error(caller, id, asset, recipient);
        &&& r is Err <==> e is Some
        &&& r is Err ==> r == Err::<i128, Error>(e->0) && post == pre
        &&& r is Ok ==> r->Ok_0 == pre.unclaimed(id, asset)
        &&& r is Ok ==> post.same_identities(&pre) && post.same_nicknames(&pre)
        &&& r is Ok ==> forall|c: Counter| #[trigger] post.counter(c) == pre.claimed(id, asset, recipient, c)
        &&& r is Ok ==> post.events() == pre.events().push(
            EventRecord::Claimed(id, recipient, asset, pre.unclaimed(id, asset)),
        )
    }

    /// The outcome of `set_nickname`.
    pub open spec fn set_nickname_post(pre: Self, caller: Seq<char>, nickname: Seq<char>, post: Self, r: Result<(), Error>) -> bool {
        &&& r is Err <==> (pre.nickname_owner(nickname) is Some && pre.nickname_owner(nickname) != Some(caller))
        &&& r is Err ==> r == Err::<(), Error>(Error::NicknameAlreadyTaken) && post == pre
        &&& r is Ok ==> post.nickname_of(caller) == Some(nickname)
        &&& r is Ok ==> post.nickname_owner(nickname) == Some(caller)
        &&& r is Ok ==> forall|p: Seq<char>| p != caller ==> #[trigger] post.nickname_of(p) == pre.nickname_of(p)
        &&& r is Ok ==> forall|n: Seq<char>| n != nickname ==> #[trigger] post.nickname_owner(n) == if pre.nickname_owner(n) == Some(caller) {
            None
        } else {
            pre.nickname_owner(n)
        }
        &&& r is Ok ==> post.same_identities(&pre) && post.same_counters(&pre)
        &&& r is Ok ==> post.events() == pre.events().push(EventRecord::NicknameSet(caller, nickname))
    }

    closed spec fn same_but_counters(&self, o: &Self) -> bool {
        &&& self.owners == o.owners
        &&& self.rules == o.rules
        &&& self.nicknames == o.nicknames
        &&& self.nickname_owners == o.nickname_owners
        &&& self.registered_recipients_only == o.registered_recipients_only
        &&& self.events == o.events
    }

    /// An empty ledger; `registered_recipients_only` decides whether a rule
    /// may name an identifier that is not registered.
    pub fn with_recipient_policy(registered_recipients_only: bool) -> (r: Self)
        ensures
            r.wf(),
            r.registered_recipients_only() == registered_recipients_only,
            forall|id: Seq<char>| #[trigger] r.owner_of(id) is None,
            forall|id: Seq<char>| #[trigger] r.rules_of(id) is None,
            forall|c: Counter| #[trigger] r.counter(c) == 0,
            forall|p: Seq<char>| #[trigger] r.nickname_of(p) is None,
            forall|n: Seq<char>| #[trigger] r.nickname_owner(n) is None,
            r.events() == Seq::<EventRecord>::empty(),
    {
        let r = CascadingDonations {
            owners: Table::new(),
            rules: Table::new(),
            counters: Table::new(),
            nicknames: Table::new(),
            nickname_owners: Table::new(),
            registered_recipients_only,
            events: Vec::new(),
        };
        assert(r.events() =~= Seq::<EventRecord>::empty());
        r
    }

    /// An empty ledger whose rules may only name registered identifiers.
    pub fn new() -> (r: Self)
        ensures
            r.wf(),
            r.registered_recipients_only(),
            forall|id: Seq<char>| #[trigger] r.owner_of(id) is None,
            forall|id: Seq<char>| #[trigger] r.rules_of(id) is None,
            forall|c: Counter| #[trigger] r.counter(c) == 0,
            forall|p: Seq<char>| #[trigger] r.nickname_of(p) is None,
            forall|n: Seq<char>| #[trigger] r.nickname_owner(n) is None,
            r.events() == Seq::<EventRecord>::empty(),
    {
        Self::with_recipient_policy(true)
    }

    fn read(&self, key: &CounterKey) -> (r: i128)
        requires
            self.wf(),
        ensures
            r == self.counter(key@),
            r >= 0,
    {
        match self.counters.get(key) {
            Some(v) => *v,
            None => 0,
        }
    }

    fn storage_add(&mut self, key: CounterKey, amount: i128)
        requires
            old(self).wf(),
            amount >= 0,
            old(self).counter(key@) + amount <= i128::MAX,
        ensures
            final(self).wf(),
            final(self).same_but_counters(old(self)),
            forall|c: Counter| #[trigger]
                final(self).counter(c) == old(self).counter(c) + (if c == key@ {
                    amount as int
                } else {
                    0
                }),
    {
        let cur = self.read(&key);
        self.counters.insert(key, cur + amount);
    }

    fn set_counter(&mut self, key: CounterKey, value: i128)
        requires
            old(self).wf(),
            value >= 0,
        ensures
            final(self).wf(),
            final(self).same_but_counters(old(self)),
            forall|c: Counter| #[trigger]
                final(self).counter(c) == if c == key@ {
                    value as int
                } else {
                    old(self).counter(c)
                },
    {
        self.counters.insert(key, value);
    }

    /// Checks that distributing `pool` of `asset` by `rules` keeps every
    /// counter in range, and returns the amount forwarded if it does.
    fn forwarded_if_fits(
        &self,
        project_id: &String,
        asset: &String,
        rules: &RuleSet,
        pool: i128,
        min_distribution: i128,
    ) -> (r: Option<i128>)
        requires
            self.wf(),
            rules.wf(),
            self.rules_of(project_id@) == Some(rules@),
            pool == self.pool(project_id@, asset@),
        ensures
            r is Some <==> self.distribution_fits(project_id@, asset@, min_distribution as int),
            r is Some ==> r->0 == forwarded_total(rules@, pool as int, min_distribution as int),
    {
        let ghost rs = rules@;
        let ghost p = pool as int;
        let ghost min = min_distribution as int;
        proof {
            self.lemma_wf();
            lemma_forwarded_within_pool(rs, project_id@, p, min);
        }
        let n = rules.len();
        let mut total: i128 = 0;
        let mut i: usize = 0;
        while i < n
            invariant
                self.wf(),
                rules.wf(),
                rs == rules@,
                n == rs.len(),
                i <= n,
                well_shaped(rs, project_id@),
                p == pool as int,
                min == min_distribution as int,
                pool == self.pool(project_id@, asset@),
                self.rules_of(project_id@) == Some(rs),
                p >= 0,
                0 <= forwarded_from(rs, i as int, p, min),
                total + forwarded_from(rs, i as int, p, min) == forwarded_total(rs, p, min),
                forwarded_total(rs, p, min) <= p,
                forall|j: int|
                    0 <= j < i ==> self.credit_fits(
                        #[trigger] rs[j].0,
                        asset@,
                        forward_of(p, rs[j].1 as int, min),
                    ),
            decreases n - i,
        {
            let r = rules.recipient_at(i);
            assert(rs[i as int].1 <= 10000);
            let share = rules.share_at(i);
            let f = forward_amount(pool, share, min_distribution);
            let a = self.read(&CounterKey::Pool(r.clone(), asset.clone()));
            let b = self.read(&CounterKey::Received(r.clone(), asset.clone()));
            let c = self.read(&CounterKey::ReceivedFromCascade(r.clone(), asset.clone()));
            if a > i128::MAX - f || b > i128::MAX - f || c > i128::MAX - f {
                assert(!self.credit_fits(rs[i as int].0, asset@, forward_of(p, rs[i as int].1 as int, min)));
                return None;
            }
            proof {
                let fi = forward_of(p, rs[i as int].1 as int, min);
                assert(forwarded_from(rs, i as int, p, min) == fi + forwarded_from(
                    rs,
                    i + 1,
                    p,
                    min,
                ));
                lemma_forward_bounds(p, rs[i as int].1 as int, min);
                if i + 1 < n {
                    assert(forwarded_from(rs, i + 1, p, min) >= 0) by {
                        lemma_forwarded_nonneg(rs, i + 1, p, min);
                    }
                }
            }
            total = total + f;
            i = i + 1;
        }
        let fwd = self.read(&CounterKey::Forwarded(project_id.clone(), asset.clone()));
        let unc = self.read(&CounterKey::Unclaimed(project_id.clone(), asset.clone()));
        if fwd > i128::MAX - total || unc > i128::MAX - (pool - total) {
            return None;
        }
        Some(total)
    }

    /// Pushes each rule's share of `project_id`'s pool of `asset` to the
    /// recipient's pool, leaves the rest unclaimed for the owner and empties
    /// the pool. Shares are computed from the pool as it stood before the
    /// call; one below `min_distribution` stays with the owner. Recipients'
    /// new funds are not distributed further by this call.
    pub fn distribute(&mut self, project_id: &String, asset: &String, min_distribution: i128) -> (r:
        Result<(), Error>)
        requires
            old(self).wf(),
        ensures
            final(self).wf(),
            Self::distribute_post(*old(self), project_id@, asset@, min_distribution as int, *final(self), r),
    {
        if !self.owners.contains(project_id) {
            return Err(Error::ProjectNotFound);
        }
        let rules = match self.rules.get(project_id) {
            Some(rs) => rs.copy(),
            None => {
                return Err(Error::RulesNotSet);
            },
        };
        let pool = self.read(&CounterKey::Pool(project_id.clone(), asset.clone()));
        if pool == 0 {
            return Err(Error::NothingToDistribute);
        }
        let total = match self.forwarded_if_fits(project_id, asset, &rules, pool, min_distribution) {
            Some(t) => t,
            None => {
                return Err(Error::Overflow);
            },
        };
        let ghost start = *self;
        let ghost rs = rules@;
        let ghost p = pool as int;
        let ghost min = min_distribution as int;
        proof {
            self.lemma_wf();
            lemma_forwarded_within_pool(rs, project_id@, p, min);
            rules.lemma_view();
        }
        let n = rules.len();
        let mut i: usize = 0;
        while i < n
            invariant
                self.wf(),
                start.wf(),
                rules.wf(),
                rs == rules@,
                n == rs.len(),
                i <= n,
                p == pool as int,
                min == min_distribution as int,
                p >= 0,
                start.rules_of(project_id@) == Some(rs),
                start.pool(project_id@, asset@) == p,
                well_shaped(rs, project_id@),
                start.distribution_fits(project_id@, asset@, min),
                self.same_but_counters(&start),
                forall|c: Counter| #[trigger]
                    self.counter(c) == match cascade_credited(c, asset@) {
                        Some(x) => start.counter(c) + cascade_from(rs, 0, x, p, min) - cascade_from(
                            rs,
                            i as int,
                            x,
                            p,
                            min,
                        ),
                        None => start.counter(c),
                    },
            decreases n - i,
        {
            let r = rules.recipient_at(i);
            let share = rules.share_at(i);
            let f = forward_amount(pool, share, min_distribution);
            let ghost x = rs[i as int].0;
            proof {
                assert(distinct_recipients(rs));
                assert forall|j: int| 0 <= j < i implies (#[trigger] rs[j]).0 != x by {
                    assert(rs[j].0 != rs[i as int].0);
                }
                lemma_cascade_skip(rs, i as int, x, p, min);
                assert(start.credit_fits(rs[i as int].0, asset@, forward_of(p, rs[i as int].1 as int, min)));
                assert(self.counter(Counter::Pool(x, asset@)) == start.counter(Counter::Pool(x, asset@)));
                assert(self.counter(Counter::Received(x, asset@)) == start.counter(Counter::Received(x, asset@)));
                assert(self.counter(Counter::ReceivedFromCascade(x, asset@)) == start.counter(
                    Counter::ReceivedFromCascade(x, asset@),
                ));
            }
            let ghost before = *self;
            if f > 0 {
                self.storage_add(CounterKey::Pool(r.clone(), asset.clone()), f);
                self.storage_add(CounterKey::Received(r.clone(), asset.clone()), f);
                self.storage_add(CounterKey::ReceivedFromCascade(r.clone(), asset.clone()), f);
            }
            proof {
                assert forall|c: Counter| #[trigger]
                    self.counter(c) == match cascade_credited(c, asset@) {
                        Some(y) => start.counter(c) + cascade_from(rs, 0, y, p, min) - cascade_from(
                            rs,
                            i + 1,
                            y,
                            p,
                            min,
                        ),
                        None => start.counter(c),
                    } by {
                    assert(before.counter(c) == match cascade_credited(c, asset@) {
                        Some(y) => start.counter(c) + cascade_from(rs, 0, y, p, min) - cascade_from(
                            rs,
                            i as int,
                            y,
                            p,
                            min,
                        ),
                        None => start.counter(c),
                    });
                    match cascade_credited(c, asset@) {
                        Some(y) => {
                            assert(cascade_from(rs, i as int, y, p, min) == (if rs[i as int].0 == y {
                                forward_of(p, rs[i as int].1 as int, min)
                            } else {
                                0
                            }) + cascade_from(rs, i + 1, y, p, min));
                        },
                        None => {},
                    }
                }
            }
            i = i + 1;
        }
        proof {
            lemma_cascade_absent(rs, project_id@, p, min);
        }
        let ghost mid = *self;
        if total > 0 {
            self.storage_add(CounterKey::Forwarded(project_id.clone(), asset.clone()), total);
        }
        let owner_part = pool - total;
        if owner_part > 0 {
            self.storage_add(CounterKey::Unclaimed(project_id.clone(), asset.clone()), owner_part);
        }
        self.set_counter(CounterKey::Pool(project_id.clone(), asset.clone()), 0);
        let ghost last = *self;
        emit_distributed(&mut self.events, project_id, asset, pool);
        proof {
            assert(self.counters == last.counters);
            assert forall|c: Counter| #[trigger] self.counter(c) == last.counter(c) by {}
            assert forall|c: Counter| #[trigger]
                self.counter(c) == start.distributed(project_id@, asset@, min, c) by {
                assert(mid.counter(c) == match cascade_credited(c, asset@) {
                    Some(x) => start.counter(c) + cascade_from(rs, 0, x, p, min) - cascade_from(
                        rs,
                        n as int,
                        x,
                        p,
                        min,
                    ),
                    None => start.counter(c),
                });
            }
            assert(self.same_identities(&start));
            assert(self.same_nicknames(&start));
        }
        Ok(())
    }

    /// Whether `caller` is the owner of `project_id`.
    pub fn assert_owner(&self, caller: &String, project_id: &String) -> (r: Result<(), Error>)
        requires
            self.wf(),
        ensures
            r is Err <==> self.owner_error(caller@, project_id@) is Some,
            r is Err ==> r == Err::<(), Error>(self.owner_error(caller@, project_id@)->0),
    {
        match self.owners.get(project_id) {
            None => Err(Error::ProjectNotFound),
            Some(o) => if *o == *caller {
                Ok(())
            } else {
                Err(Error::NotOwner)
            },
        }
    }

    /// Registers `project_id` to `caller` with an empty rule set.
    pub fn register_project(&mut self, caller: &String, project_id: &String) -> (r: Result<(), Error>)
        requires
            old(self).wf(),
        ensures
            final(self).wf(),
            Self::register_post(*old(self), caller@, project_id@, *final(self), r),
    {
        if self.owners.contains(project_id) {
            return Err(Error::ProjectAlreadyExists);
        }
        self.owners.insert(project_id.clone(), caller.clone());
        let empty = RuleSet::new();
        self.rules.insert(project_id.clone(), empty);
        emit_project_registered(&mut self.events, project_id, caller);
        proof {
            assert forall|id: Seq<char>| #[trigger] self.rules.map().contains_key(id) implies self.rules.map()[id].wf() && well_shaped(self.rules.map()[id]@, id) by {
                if id != project_id@ {
                    assert(old(self).rules.map().contains_key(id));
                } else {
                    assert(shares_from(Seq::<Rule>::empty(), 0) == 0);
                }
            }
        }
        Ok(())
    }

    /// Hands `project_id` from its owner `caller` to `new_owner`.
    pub fn transfer_ownership(&mut self, caller: &String, project_id: &String, new_owner: &String) -> (r:
        Result<(), Error>)
        requires
            old(self).wf(),
        ensures
            final(self).wf(),
            r is Err <==> old(self).owner_error(caller@, project_id@) is Some,
            r is Err ==> r == Err::<(), Error>(old(self).owner_error(caller@, project_id@)->0)
                && *final(self) == *old(self),
            r is Ok ==> final(self).owner_of(project_id@) == Some(new_owner@),
            r is Ok ==> forall|id: Seq<char>| id != project_id@ ==> #[trigger] final(self).owner_of(id) == old(self).owner_of(id),
            r is Ok ==> forall|id: Seq<char>| #[trigger] final(self).rules_of(id) == old(self).rules_of(id),
            r is Ok ==> final(self).registered_recipients_only() == old(self).registered_recipients_only(),
            r is Ok ==> final(self).same_counters(old(self)) && final(self).same_nicknames(old(self)),
            r is Ok ==> final(self).events() == old(self).events().push(
                EventRecord::OwnershipTransferred(project_id@, caller@, new_owner@),
            ),
    {
        self.assert_owner(caller, project_id)?;
        self.owners.set_existing(project_id, new_owner.clone());
        emit_ownership_transferred(&mut self.events, project_id, caller, new_owner);
        Ok(())
    }

    /// Checks a rule set for identifier `own_project`: at most `MAX_RULES`
    /// rules, then for each rule in order: not `own_project` itself, a
    /// registered recipient where the policy asks for one, a share from 1 to
    /// `BPS_BASE`, and a running total of shares no more than `BPS_BASE`.
    pub fn validate_rules(&self, rules: &RuleSet, own_project: &String) -> (r: Result<(), Error>)
        requires
            self.wf(),
            rules.wf(),
        ensures
            r is Err <==> self.rules_error(own_project@, rules@) is Some,
            r is Err ==> r == Err::<(), Error>(self.rules_error(own_project@, rules@)->0),
    {
        let n = rules.len();
        if n > MAX_RULES {
            return Err(Error::TooManyRules);
        }
        let ghost rs = rules@;
        let mut total: u32 = 0;
        let mut i: usize = 0;
        while i < n
            invariant
                self.wf(),
                rules.wf(),
                rs == rules@,
                n == rs.len(),
                i <= n,
                total <= BPS_BASE,
                self.rules_error(own_project@, rs) == self.scan_rules(own_project@, rs, i as int, total as int),
                n <= MAX_RULES,
            decreases n - i,
        {
            let key = rules.recipient_at(i);
            if *key == *own_project {
                return Err(Error::SelfReference);
            }
            if self.registered_recipients_only && !self.owners.contains(key) {
                return Err(Error::RecipientNotRegistered);
            }
            let pct = rules.share_at(i);
            if pct == 0 || pct > BPS_BASE {
                return Err(Error::InvalidPercentage);
            }
            total = total.saturating_add(pct);
            if total > BPS_BASE {
                return Err(Error::RulesTotalExceedsMax);
            }
            i = i + 1;
        }
        Ok(())
    }

    /// Replaces the rule set of `project_id`, owned by `caller`, with `rules`
    /// if they pass `validate_rules`; nothing changes otherwise.
    pub fn set_rules(&mut self, caller: &String, project_id: &String, rules: RuleSet) -> (r: Result<(), Error>)
        requires
            old(self).wf(),
            rules.wf(),
        ensures
            final(self).wf(),
            Self::set_rules_post(*old(self), caller@, project_id@, rules@, *final(self), r),
    {
        self.assert_owner(caller, project_id)?;
        self.validate_rules(&rules, project_id)?;
        proof {
            rules.lemma_view();
            self.lemma_rules_accepted(project_id@, rules@);
        }
        emit_rules_set(&mut self.events, project_id, &rules);
        self.rules.insert(project_id.clone(), rules);
        proof {
            assert forall|id: Seq<char>| #[trigger] self.rules.map().contains_key(id) implies self.rules.map()[id].wf() && well_shaped(self.rules.map()[id]@, id) by {
                if id != project_id@ {
                    assert(old(self).rules.map().contains_key(id));
                }
            }
        }
        Ok(())
    }

    proof fn lemma_scan_accepted(&self, own: Seq<char>, rs: Seq<Rule>, i: int, sum: int)
        requires
            self.scan_rules(own, rs, i, sum) is None,
            0 <= i <= rs.len(),
            0 <= sum,
        ensures
            forall|j: int| i <= j < rs.len() ==> (#[trigger] rs[j]).0 != own && 1 <= rs[j].1 <= BPS_BASE,
            sum + shares_from(rs, i) <= BPS_BASE || i == rs.len(),
            sum <= BPS_BASE ==> sum + shares_from(rs, i) <= BPS_BASE,
        decreases rs.len() - i,
    {
        if i < rs.len() {
            self.lemma_scan_accepted(own, rs, i + 1, sum + rs[i].1);
            assert forall|j: int| i <= j < rs.len() implies (#[trigger] rs[j]).0 != own && 1 <= rs[j].1 <= BPS_BASE by {
                if j > i {
                    assert(rs[j].0 != own && 1 <= rs[j].1 <= BPS_BASE);
                }
            }
        }
    }

    proof fn lemma_rules_accepted(&self, own: Seq<char>, rs: Seq<Rule>)
        requires
            self.rules_error(own, rs) is None,
            distinct_recipients(rs),
        ensures
            well_shaped(rs, own),
    {
        self.lemma_scan_accepted(own, rs, 0, 0);
        assert forall|i: int| 0 <= i < rs.len() implies (#[trigger] rs[i]).0 != own by {}
        assert forall|i: int| 0 <= i < rs.len() implies 1 <= (#[trigger] rs[i]).1 <= BPS_BASE by {}
    }

    /// Records a donation of `amount` of `asset` to `project_id` by `caller`,
    /// credited to `donor_override` when one is given. Moving the funds into
    /// the ledger's custody is the caller's part: both succeed or neither.
    pub fn donate(
        &mut self,
        caller: &String,
        project_id: &String,
        asset: &String,
        amount: i128,
        donor_override: Option<String>,
    ) -> (r: Result<(), Error>)
        requires
            old(self).wf(),
        ensures
            final(self).wf(),
            ({
                let donor = match donor_override {
                    Some(d) => d@,
                    None => caller@,
                };
                &&& r is Err <==> old(self).donate_error(project_id@, asset@, donor, amount as int) is Some
                &&& r is Err ==> r == Err::<(), Error>(
                    old(self).donate_error(project_id@, asset@, donor, amount as int)->0,
                ) && *final(self) == *old(self)
                &&& r is Ok ==> final(self).same_identities(old(self)) && final(self).same_nicknames(old(self))
                &&& r is Ok ==> final(self).events() == old(self).events().push(
                    EventRecord::Donated(project_id@, donor, asset@, amount as int),
                )
                &&& r is Ok ==> forall|c: Counter| #[trigger]
                    final(self).counter(c) == old(self).counter(c) + if Self::donation_credits(
                        c,
                        project_id@,
                        asset@,
                        donor,
                    ) {
                        amount as int
                    } else {
                        0
                    }
            }),
    {
        if amount <= 0 {
            return Err(Error::InvalidAmount);
        }
        if !self.owners.contains(project_id) {
            return Err(Error::ProjectNotFound);
        }
        let donor = match donor_override {
            Some(d) => d,
            None => caller.clone(),
        };
        let k_pool = CounterKey::Pool(project_id.clone(), asset.clone());
        let k_received = CounterKey::Received(project_id.clone(), asset.clone());
        let k_donor_project = CounterKey::DonorToProject(donor.clone(), project_id.clone(), asset.clone());
        let k_donor = CounterKey::DonorTotal(donor.clone(), asset.clone());
        let k_grand = CounterKey::GrandTotal(asset.clone());
        let limit = i128::MAX - amount;
        if self.read(&k_pool) > limit || self.read(&k_received) > limit || self.read(&k_donor_project) > limit
            || self.read(&k_donor) > limit || self.read(&k_grand) > limit {
            return Err(Error::Overflow);
        }
        proof {
            assert(forall|c: Counter|
                Self::donation_credits(c, project_id@, asset@, donor@) ==> #[trigger] self.counter(c) + amount
                    <= i128::MAX);
        }
        self.storage_add(k_pool, amount);
        self.storage_add(k_received, amount);
        self.storage_add(k_donor_project, amount);
        self.storage_add(k_donor, amount);
        self.storage_add(k_grand, amount);
        let ghost last = *self;
        emit_donated(&mut self.events, project_id, &donor, asset, amount);
        proof {
            assert(self.counters == last.counters);
            assert forall|c: Counter| #[trigger] self.counter(c) == last.counter(c) by {}
        }
        proof {
            assert(self.same_identities(old(self)));
            assert(self.same_nicknames(old(self)));
        }
        Ok(())
    }

    fn do_claim(&mut self, caller: &String, project_id: &String, asset: &String, to: Option<String>) -> (r:
        Result<i128, Error>)
        requires
            old(self).wf(),
        ensures
            final(self).wf(),
            ({
                let recipient = match to {
                    Some(t) => t@,
                    None => caller@,
                };
                &&& r is Err <==> old(self).unclaimed(project_id@, asset@) == 0
                    || old(self).counter(Counter::PaidTo(recipient, asset@)) + old(self).unclaimed(project_id@, asset@) > i128::MAX
                &&& r is Err ==> *final(self) == *old(self)
                &&& old(self).unclaimed(project_id@, asset@) == 0 ==> r == Err::<i128, Error>(Error::NothingToDistribute)
                &&& old(self).unclaimed(project_id@, asset@) != 0 && r is Err ==> r == Err::<i128, Error>(Error::Overflow)
                &&& r is Ok ==> r->Ok_0 == old(self).unclaimed(project_id@, asset@)
                &&& r is Ok ==> final(self).same_identities(old(self)) && final(self).same_nicknames(old(self))
                &&& r is Ok ==> forall|c: Counter| #[trigger]
                    final(self).counter(c) == old(self).claimed(project_id@, asset@, recipient, c)
                &&& r is Ok ==> final(self).events() == old(self).events().push(
                    EventRecord::Claimed(project_id@, recipient, asset@, old(self).unclaimed(project_id@, asset@)),
                )
            }),
    {
        let k_unclaimed = CounterKey::Unclaimed(project_id.clone(), asset.clone());
        let unclaimed = self.read(&k_unclaimed);
        if unclaimed == 0 {
            return Err(Error::NothingToDistribute);
        }
        let recipient = match to {
            Some(t) => t,
            None => caller.clone(),
        };
        let k_paid = CounterKey::PaidTo(recipient.clone(), asset.clone());
        if self.read(&k_paid) > i128::MAX - unclaimed {
            return Err(Error::Overflow);
        }
        self.storage_add(k_paid, unclaimed);
        self.set_counter(k_unclaimed, 0);
        let ghost last = *self;
        emit_claimed(&mut self.events, project_id, &recipient, asset, unclaimed);
        proof {
            assert(self.counters == last.counters);
            assert forall|c: Counter| #[trigger] self.counter(c) == last.counter(c) by {}
        }
        Ok(unclaimed)
    }

    /// Withdraws the whole unclaimed `asset` of `project_id` for its owner
    /// `caller`, to `to` or else to `caller`, and returns the amount. Sending
    /// that amount out of custody is the caller's part: both succeed or neither.
    pub fn claim(&mut self, caller: &String, project_id: &String, asset: &String, to: Option<String>) -> (r:
        Result<i128, Error>)
        requires
            old(self).wf(),
        ensures
            final(self).wf(),
            Self::claim_post(*old(self), caller@, project_id@, asset@, to, *final(self), r),
    {
        self.assert_owner(caller, project_id)?;
        let r = self.do_claim(caller, project_id, asset, to);
        proof {
            if r is Ok {
                assert(self.same_identities(old(self)));
                assert(self.same_nicknames(old(self)));
            }
        }
        r
    }

    /// Distributes the pool of `project_id` in `asset`, then claims for its
    /// owner `caller` what is unclaimed, to `to` or else to `caller`. A
    /// distribution that leaves nothing unclaimed returns 0.
    pub fn distribute_and_claim(
        &mut self,
        caller: &String,
        project_id: &String,
        asset: &String,
        to: Option<String>,
        min_distribution: i128,
    ) -> (r: Result<i128, Error>)
        requires
            old(self).wf(),
        ensures
            final(self).wf(),
            ({
                let recipient = match to {
                    Some(t) => t@,
                    None => caller@,
                };
                let id = project_id@;
                let a = asset@;
                let min = min_distribution as int;
                let owner_err = old(self).owner_error(caller@, id);
                let dist_err = old(self).distribute_error(id, a, min);
                let due = old(self).unclaimed(id, a) + owner_share(
                    old(self).rules_of(id)->0,
                    old(self).pool(id, a),
                    min,
                );
                let overflows = due != 0 && old(self).counter(Counter::PaidTo(recipient, a)) + due > i128::MAX;
                &&& r is Err <==> owner_err is Some || dist_err is Some || overflows
                &&& r is Err ==> *final(self) == *old(self)
                &&& owner_err is Some ==> r == Err::<i128, Error>(owner_err->0)
                &&& owner_err is None && dist_err is Some ==> r == Err::<i128, Error>(dist_err->0)
                &&& owner_err is None && dist_err is None && overflows ==> r == Err::<i128, Error>(Error::Overflow)
                &&& r is Ok ==> r->Ok_0 == due
                &&& r is Ok ==> final(self).events() == if due == 0 {
                    old(self).events().push(EventRecord::Distributed(id, a, old(self).pool(id, a)))
                } else {
                    old(self).events().push(EventRecord::Distributed(id, a, old(self).pool(id, a))).push(
                        EventRecord::Claimed(id, recipient, a, due),
                    )
                }
                &&& r is Ok ==> final(self).same_identities(old(self)) && final(self).same_nicknames(old(self))
                &&& r is Ok ==> forall|c: Counter| #[trigger]
                    final(self).counter(c) == if due != 0 && c == Counter::Unclaimed(id, a) {
                        0
                    } else if due != 0 && c == Counter::PaidTo(recipient, a) {
                        old(self).counter(c) + due
                    } else {
                        old(self).distributed(id, a, min, c)
                    }
            }),
    {
        self.assert_owner(caller, project_id)?;
        proof {
            self.lemma_wf();
        }
        // Refuse up front a claim that could not follow the distribution.
        if self.owners.contains(project_id) {
            if let Some(rs) = self.rules.get(project_id) {
                let pool = self.read(&CounterKey::Pool(project_id.clone(), asset.clone()));
                if pool != 0 {
                    if let Some(total) = self.forwarded_if_fits(project_id, asset, rs, pool, min_distribution) {
                        proof {
                            lemma_forwarded_within_pool(rs@, project_id@, pool as int, min_distribution as int);
                        }
                        let unclaimed = self.read(&CounterKey::Unclaimed(project_id.clone(), asset.clone()));
                        let due = unclaimed + (pool - total);
                        let recipient = match &to {
                            Some(t) => t.clone(),
                            None => caller.clone(),
                        };
                        if due != 0 && self.read(&CounterKey::PaidTo(recipient, asset.clone())) > i128::MAX - due {
                            return Err(Error::Overflow);
                        }
                    }
                }
            }
        }
        let ghost start = *self;
        self.distribute(project_id, asset, min_distribution)?;
        let ghost mid = *self;
        let unclaimed = self.read(&CounterKey::Unclaimed(project_id.clone(), asset.clone()));
        if unclaimed == 0 {
            return Ok(0);
        }
        let r = self.do_claim(caller, project_id, asset, to);
        proof {
            if r is Ok {
                assert(self.same_identities(&mid));
                assert(self.same_nicknames(&mid));
                assert(self.same_identities(&start));
                assert(self.same_nicknames(&start));
            }
        }
        r
    }

    /// Binds `nickname` to `caller`, releasing the nickname `caller` held
    /// before. A nickname that another principal holds is refused.
    pub fn set_nickname(&mut self, caller: &String, nickname: &String) -> (r: Result<(), Error>)
        requires
            old(self).wf(),
        ensures
            final(self).wf(),
            Self::set_nickname_post(*old(self), caller@, nickname@, *final(self), r),
    {
        proof {
            self.lemma_wf();
        }
        if let Some(holder) = self.nickname_owners.get(nickname) {
            if *holder == *caller {
                emit_nickname_set(&mut self.events, caller, nickname);
                return Ok(());
            }
            return Err(Error::NicknameAlreadyTaken);
        }
        let ghost nk = self.nicknames.map();
        let ghost no = self.nickname_owners.map();
        if let Some(previous) = self.nicknames.get(caller) {
            let previous = previous.clone();
            self.nickname_owners.remove(&previous);
        }
        self.nicknames.insert(caller.clone(), nickname.clone());
        self.nickname_owners.insert(nickname.clone(), caller.clone());
        emit_nickname_set(&mut self.events, caller, nickname);
        proof {
            assert forall|p: Seq<char>| #[trigger] self.nicknames.map().contains_key(p) implies self.nickname_owners.map().contains_key(
                self.nicknames.map()[p]@,
            ) && self.nickname_owners.map()[self.nicknames.map()[p]@]@ == p by {
                if p != caller@ {
                    assert(nk.contains_key(p));
                    let m = nk[p]@;
                    assert(no.contains_key(m) && no[m]@ == p);
                    assert(m != nickname@);
                    if nk.contains_key(caller@) {
                        assert(no[nk[caller@]@]@ == caller@);
                        assert(m != nk[caller@]@);
                    }
                }
            }
            assert forall|n: Seq<char>| #[trigger] self.nickname_owners.map().contains_key(n) implies self.nicknames.map().contains_key(
                self.nickname_owners.map()[n]@,
            ) && self.nicknames.map()[self.nickname_owners.map()[n]@]@ == n by {
                if n != nickname@ {
                    assert(no.contains_key(n));
                    let q = no[n]@;
                    assert(nk.contains_key(q) && nk[q]@ == n);
                    if nk.contains_key(caller@) {
                        assert(n != nk[caller@]@);
                    }
                    assert(q != caller@);
                }
            }
            assert forall|n: Seq<char>| n != nickname@ implies #[trigger] self.nickname_owner(n) == if old(
                self,
            ).nickname_owner(n) == Some(caller@) {
                None
            } else {
                old(self).nickname_owner(n)
            } by {
                if no.contains_key(n) && no[n]@ == caller@ {
                    assert(nk.contains_key(caller@) && nk[caller@]@ == n);
                }
                if nk.contains_key(caller@) && nk[caller@]@ == n {
                    assert(no.contains_key(n) && no[n]@ == caller@);
                }
            }
        }
        Ok(())
    }

    /// The funds of `project_id` in `asset` that await distribution.
    pub fn get_pool(&self, project_id: &String, asset: &String) -> (r: i128)
        requires
            self.wf(),
        ensures
            r == self.pool(project_id@, asset@),
    {
        self.read(&CounterKey::Pool(project_id.clone(), asset.clone()))
    }

    /// The rule set of `project_id`; empty where it has none.
    pub fn get_rules(&self, project_id: &String) -> (r: RuleSet)
        requires
            self.wf(),
        ensures
            r.wf(),
            r@ == match self.rules_of(project_id@) {
                Some(rs) => rs,
                None => Seq::<Rule>::empty(),
            },
    {
        match self.rules.get(project_id) {
            Some(rs) => rs.copy(),
            None => RuleSet::new(),
        }
    }

    /// The owner of `project_id`, if it is registered.
    pub fn get_owner(&self, project_id: &String) -> (r: Option<String>)
        requires
            self.wf(),
        ensures
            r is Some <==> self.owner_of(project_id@) is Some,
            r is Some ==> self.owner_of(project_id@) == Some(r->0@),
    {
        match self.owners.get(project_id) {
            Some(o) => Some(o.clone()),
            None => None,
        }
    }

    /// Everything `project_id` ever received in `asset`, donated or cascaded.
    pub fn get_total_received(&self, project_id: &String, asset: &String) -> (r: i128)
        requires
            self.wf(),
        ensures
            r == self.counter(Counter::Received(project_id@, asset@)),
    {
        self.read(&CounterKey::Received(project_id.clone(), asset.clone()))
    }

    /// What `project_id` received in `asset` from other identifiers' pools.
    pub fn get_total_received_from_projects(&self, project_id: &String, asset: &String) -> (r: i128)
        requires
            self.wf(),
        ensures
            r == self.counter(Counter::ReceivedFromCascade(project_id@, asset@)),
    {
        self.read(&CounterKey::ReceivedFromCascade(project_id.clone(), asset.clone()))
    }

    /// What `project_id` ever forwarded in `asset` to other identifiers.
    pub fn get_total_forwarded(&self, project_id: &String, asset: &String) -> (r: i128)
        requires
            self.wf(),
        ensures
            r == self.counter(Counter::Forwarded(project_id@, asset@)),
    {
        self.read(&CounterKey::Forwarded(project_id.clone(), asset.clone()))
    }

    /// The owner's remainder of `project_id` in `asset` that awaits withdrawal.
    pub fn get_unclaimed(&self, project_id: &String, asset: &String) -> (r: i128)
        requires
            self.wf(),
        ensures
            r == self.unclaimed(project_id@, asset@),
    {
        self.read(&CounterKey::Unclaimed(project_id.clone(), asset.clone()))
    }

    /// What `donor` ever gave `project_id` in `asset`.
    pub fn get_donor_to_project(&self, donor: &String, project_id: &String, asset: &String) -> (r: i128)
        requires
            self.wf(),
        ensures
            r == self.counter(Counter::DonorToProject(donor@, project_id@, asset@)),
    {
        self.read(&CounterKey::DonorToProject(donor.clone(), project_id.clone(), asset.clone()))
    }

    /// What `donor` ever gave in `asset`, over all identifiers.
    pub fn get_donor_total(&self, donor: &String, asset: &String) -> (r: i128)
        requires
            self.wf(),
        ensures
            r == self.counter(Counter::DonorTotal(donor@, asset@)),
    {
        self.read(&CounterKey::DonorTotal(donor.clone(), asset.clone()))
    }

    /// Everything ever donated in `asset`.
    pub fn get_grand_total(&self, asset: &String) -> (r: i128)
        requires
            self.wf(),
        ensures
            r == self.counter(Counter::GrandTotal(asset@)),
    {
        self.read(&CounterKey::GrandTotal(asset.clone()))
    }

    /// Everything ever withdrawn in `asset` to `address`.
    pub fn get_paid_to(&self, address: &String, asset: &String) -> (r: i128)
        requires
            self.wf(),
        ensures
            r == self.counter(Counter::PaidTo(address@, asset@)),
    {
        self.read(&CounterKey::PaidTo(address.clone(), asset.clone()))
    }

    /// The nickname that `address` holds, if any.
    pub fn get_nickname(&self, address: &String) -> (r: Option<String>)
        requires
            self.wf(),
        ensures
            r is Some <==> self.nickname_of(address@) is Some,
            r is Some ==> self.nickname_of(address@) == Some(r->0@),
    {
        match self.nicknames.get(address) {
            Some(n) => Some(n.clone()),
            None => None,
        }
    }

    /// The principal that holds `nickname`, if any.
    pub fn get_nickname_owner(&self, nickname: &String) -> (r: Option<String>)
        requires
            self.wf(),
        ensures
            r is Some <==> self.nickname_owner(nickname@) is Some,
            r is Some ==> self.nickname_owner(nickname@) == Some(r->0@),
    {
        match self.nickname_owners.get(nickname) {
            Some(p) => Some(p.clone()),
            None => None,
        }
    }

    /// Hands out the events recorded so far, oldest first, and forgets them.
    pub fn take_events(&mut self) -> (r: Vec<Event>)
        requires
            old(self).wf(),
        ensures
            final(self).wf(),
            records(r@) == old(self).events(),
            final(self).events() == Seq::<EventRecord>::empty(),
            final(self).same_identities(old(self)),
            final(self).same_counters(old(self)),
            final(self).same_nicknames(old(self)),
    {
        let mut r: Vec<Event> = Vec::new();
        std::mem::swap(&mut r, &mut self.events);
        assert(self.events() =~= Seq::<EventRecord>::empty());
        r
    }
}

} // verus!
