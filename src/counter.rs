use vstd::prelude::*;
use crate::table::KeyEq;

verus! {

/// The running totals of the ledger, as the contracts name them.
/// `Pool(id, asset)`: funds awaiting distribution; `Unclaimed(id, asset)`: the
/// owner's remainder awaiting withdrawal; `Received`, `ReceivedFromCascade`,
/// `Forwarded`: lifetime totals of an identifier; `DonorToProject(donor, id,
/// asset)`, `DonorTotal(donor, asset)`, `GrandTotal(asset)`: donation totals;
/// `PaidTo(principal, asset)`: what was withdrawn to a principal.
pub enum Counter {
    Pool(Seq<char>, Seq<char>),
    Unclaimed(Seq<char>, Seq<char>),
    Received(Seq<char>, Seq<char>),
    ReceivedFromCascade(Seq<char>, Seq<char>),
    Forwarded(Seq<char>, Seq<char>),
    DonorToProject(Seq<char>, Seq<char>, Seq<char>),
    DonorTotal(Seq<char>, Seq<char>),
    GrandTotal(Seq<char>),
    PaidTo(Seq<char>, Seq<char>),
}

/// The stored key of one running total.
pub enum CounterKey {
    Pool(String, String),
    Unclaimed(String, String),
    Received(String, String),
    ReceivedFromCascade(String, String),
    Forwarded(String, String),
    DonorToProject(String, String, String),
    DonorTotal(String, String),
    GrandTotal(String),
    PaidTo(String, String),
}

impl View for CounterKey {
    type V = Counter;

    open spec fn view(&self) -> Counter {
        match self {
            CounterKey::Pool(a, b) => Counter::Pool(a@, b@),
            CounterKey::Unclaimed(a, b) => Counter::Unclaimed(a@, b@),
            CounterKey::Received(a, b) => Counter::Received(a@, b@),
            CounterKey::ReceivedFromCascade(a, b) => Counter::ReceivedFromCascade(a@, b@),
            CounterKey::Forwarded(a, b) => Counter::Forwarded(a@, b@),
            CounterKey::DonorToProject(a, b, c) => Counter::DonorToProject(a@, b@, c@),
            CounterKey::DonorTotal(a, b) => Counter::DonorTotal(a@, b@),
            CounterKey::GrandTotal(a) => Counter::GrandTotal(a@),
            CounterKey::PaidTo(a, b) => Counter::PaidTo(a@, b@),
        }
    }
}

impl KeyEq for CounterKey {
    fn key_eq(&self, other: &Self) -> (r: bool) {
        match (self, other) {
            (CounterKey::Pool(a, b), CounterKey::Pool(c, d)) => *a == *c && *b == *d,
            (CounterKey::Unclaimed(a, b), CounterKey::Unclaimed(c, d)) => *a == *c && *b == *d,
            (CounterKey::Received(a, b), CounterKey::Received(c, d)) => *a == *c && *b == *d,
            (
                CounterKey::ReceivedFromCascade(a, b),
                CounterKey::ReceivedFromCascade(c, d),
            ) => *a == *c && *b == *d,
            (CounterKey::Forwarded(a, b), CounterKey::Forwarded(c, d)) => *a == *c && *b == *d,
            (
                CounterKey::DonorToProject(a, b, e),
                CounterKey::DonorToProject(c, d, f),
            ) => *a == *c && *b == *d && *e == *f,
            (CounterKey::DonorTotal(a, b), CounterKey::DonorTotal(c, d)) => *a == *c && *b == *d,
            (CounterKey::GrandTotal(a), CounterKey::GrandTotal(c)) => *a == *c,
            (CounterKey::PaidTo(a, b), CounterKey::PaidTo(c, d)) => *a == *c && *b == *d,
            _ => false,
        }
    }
}

} // verus!
