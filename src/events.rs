use vstd::prelude::*;
use crate::rules::{Rule, RuleSet};

verus! {

/// What an event records, as the contracts name it.
pub enum EventRecord {
    ProjectRegistered(Seq<char>, Seq<char>),
    OwnershipTransferred(Seq<char>, Seq<char>, Seq<char>),
    RulesSet(Seq<char>, Seq<Rule>),
    Donated(Seq<char>, Seq<char>, Seq<char>, int),
    Distributed(Seq<char>, Seq<char>, int),
    Claimed(Seq<char>, Seq<char>, Seq<char>, int),
    NicknameSet(Seq<char>, Seq<char>),
}

/// A notification for observers of the ledger, in the order it happened.
pub enum Event {
    /// Identifier and its first owner.
    ProjectRegistered { project_id: String, owner: String },
    /// Identifier, previous owner and new owner.
    OwnershipTransferred { project_id: String, old_owner: String, new_owner: String },
    /// Identifier and the whole rule set it now has.
    RulesSet { project_id: String, rules: RuleSet },
    /// Identifier, the donor credited, asset and amount.
    Donated { project_id: String, donor: String, asset: String, amount: i128 },
    /// Identifier, asset and the pool as it stood before it was distributed.
    Distributed { project_id: String, asset: String, pool: i128 },
    /// Identifier, the principal paid, asset and amount.
    Claimed { project_id: String, recipient: String, asset: String, amount: i128 },
    /// Principal and the nickname it took.
    NicknameSet { address: String, nickname: String },
}

impl View for Event {
    type V = EventRecord;

    open spec fn view(&self) -> EventRecord {
        match self {
            Event::ProjectRegistered { project_id, owner } => EventRecord::ProjectRegistered(
                project_id@,
                owner@,
            ),
            Event::OwnershipTransferred { project_id, old_owner, new_owner } =>
                EventRecord::OwnershipTransferred(project_id@, old_owner@, new_owner@),
            Event::RulesSet { project_id, rules } => EventRecord::RulesSet(project_id@, rules@),
            Event::Donated { project_id, donor, asset, amount } => EventRecord::Donated(
                project_id@,
                donor@,
                asset@,
                *amount as int,
            ),
            Event::Distributed { project_id, asset, pool } => EventRecord::Distributed(
                project_id@,
                asset@,
                *pool as int,
            ),
            Event::Claimed { project_id, recipient, asset, amount } => EventRecord::Claimed(
                project_id@,
                recipient@,
                asset@,
                *amount as int,
            ),
            Event::NicknameSet { address, nickname } => EventRecord::NicknameSet(
                address@,
                nickname@,
            ),
        }
    }
}

/// The records of a list of events.
pub open spec fn records(events: Seq<Event>) -> Seq<EventRecord> {
    events.map_values(|e: Event| e@)
}

proof fn lemma_records_push(events: Seq<Event>, e: Event)
    ensures
        records(events.push(e)) == records(events).push(e@),
{
    assert(records(events.push(e)) =~= records(events).push(e@));
}

pub fn emit_project_registered(log: &mut Vec<Event>, project_id: &String, owner: &String)
    ensures
        records(final(log)@) == records(old(log)@).push(
            EventRecord::ProjectRegistered(project_id@, owner@),
        ),
{
    let e = Event::ProjectRegistered { project_id: project_id.clone(), owner: owner.clone() };
    proof {
        lemma_records_push(log@, e);
    }
    log.push(e);
}

pub fn emit_ownership_transferred(
    log: &mut Vec<Event>,
    project_id: &String,
    old_owner: &String,
    new_owner: &String,
)
    ensures
        records(final(log)@) == records(old(log)@).push(
            EventRecord::OwnershipTransferred(project_id@, old_owner@, new_owner@),
        ),
{
    let e = Event::OwnershipTransferred {
        project_id: project_id.clone(),
        old_owner: old_owner.clone(),
        new_owner: new_owner.clone(),
    };
    proof {
        lemma_records_push(log@, e);
    }
    log.push(e);
}

pub fn emit_rules_set(log: &mut Vec<Event>, project_id: &String, rules: &RuleSet)
    requires
        rules.wf(),
    ensures
        records(final(log)@) == records(old(log)@).push(EventRecord::RulesSet(project_id@, rules@)),
{
    let e = Event::RulesSet { project_id: project_id.clone(), rules: rules.copy() };
    proof {
        lemma_records_push(log@, e);
    }
    log.push(e);
}

pub fn emit_donated(
    log: &mut Vec<Event>,
    project_id: &String,
    donor: &String,
    asset: &String,
    amount: i128,
)
    ensures
        records(final(log)@) == records(old(log)@).push(
            EventRecord::Donated(project_id@, donor@, asset@, amount as int),
        ),
{
    let e = Event::Donated {
        project_id: project_id.clone(),
        donor: donor.clone(),
        asset: asset.clone(),
        amount,
    };
    proof {
        lemma_records_push(log@, e);
    }
    log.push(e);
}

pub fn emit_distributed(log: &mut Vec<Event>, project_id: &String, asset: &String, pool: i128)
    ensures
        records(final(log)@) == records(old(log)@).push(
            EventRecord::Distributed(project_id@, asset@, pool as int),
        ),
{
    let e = Event::Distributed { project_id: project_id.clone(), asset: asset.clone(), pool };
    proof {
        lemma_records_push(log@, e);
    }
    log.push(e);
}

pub fn emit_claimed(
    log: &mut Vec<Event>,
    project_id: &String,
    recipient: &String,
    asset: &String,
    amount: i128,
)
    ensures
        records(final(log)@) == records(old(log)@).push(
            EventRecord::Claimed(project_id@, recipient@, asset@, amount as int),
        ),
{
    let e = Event::Claimed {
        project_id: project_id.clone(),
        recipient: recipient.clone(),
        asset: asset.clone(),
        amount,
    };
    proof {
        lemma_records_push(log@, e);
    }
    log.push(e);
}

pub fn emit_nickname_set(log: &mut Vec<Event>, address: &String, nickname: &String)
    ensures
        records(final(log)@) == records(old(log)@).push(
            EventRecord::NicknameSet(address@, nickname@),
        ),
{
    let e = Event::NicknameSet { address: address.clone(), nickname: nickname.clone() };
    proof {
        lemma_records_push(log@, e);
    }
    log.push(e);
}

} // verus!
