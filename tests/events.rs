use tippa::{emit_donated, CascadingDonations, Event, RuleSet};

fn s(v: &str) -> String {
    v.to_string()
}

#[test]
fn operations_record_events_in_order() {
    let mut c = CascadingDonations::new();
    let tok = s("CTOKEN");
    c.register_project(&s("GA"), &s("alice")).unwrap();
    c.register_project(&s("GB"), &s("bob")).unwrap();
    let mut rules = RuleSet::new();
    rules.set(s("bob"), 4000);
    c.set_rules(&s("GA"), &s("alice"), rules).unwrap();
    c.donate(&s("GD"), &s("alice"), &tok, 1000, None).unwrap();
    c.distribute(&s("alice"), &tok, 0).unwrap();
    c.claim(&s("GA"), &s("alice"), &tok, None).unwrap();
    c.transfer_ownership(&s("GA"), &s("alice"), &s("GN")).unwrap();
    c.set_nickname(&s("GN"), &s("al")).unwrap();

    let events = c.take_events();
    assert_eq!(events.len(), 8);
    assert!(matches!(&events[0], Event::ProjectRegistered { project_id, owner }
        if project_id == "alice" && owner == "GA"));
    assert!(matches!(&events[1], Event::ProjectRegistered { project_id, .. } if project_id == "bob"));
    match &events[2] {
        Event::RulesSet { project_id, rules } => {
            assert_eq!(project_id, "alice");
            assert_eq!(rules.get(&s("bob")), Some(4000));
        },
        _ => panic!("expected a rules event"),
    }
    assert!(matches!(&events[3], Event::Donated { project_id, donor, asset, amount }
        if project_id == "alice" && donor == "GD" && asset == "CTOKEN" && *amount == 1000));
    assert!(matches!(&events[4], Event::Distributed { project_id, pool, .. }
        if project_id == "alice" && *pool == 1000));
    assert!(matches!(&events[5], Event::Claimed { recipient, amount, .. }
        if recipient == "GA" && *amount == 600));
    assert!(matches!(&events[6], Event::OwnershipTransferred { old_owner, new_owner, .. }
        if old_owner == "GA" && new_owner == "GN"));
    assert!(matches!(&events[7], Event::NicknameSet { address, nickname }
        if address == "GN" && nickname == "al"));
    assert_eq!(c.take_events().len(), 0);
}

#[test]
fn failed_operation_records_nothing() {
    let mut c = CascadingDonations::new();
    c.register_project(&s("GA"), &s("alice")).unwrap();
    c.take_events();
    assert!(c.register_project(&s("GB"), &s("alice")).is_err());
    assert!(c.donate(&s("GD"), &s("alice"), &s("CTOKEN"), 0, None).is_err());
    assert_eq!(c.take_events().len(), 0);
}

#[test]
fn distribute_and_claim_records_both() {
    let mut c = CascadingDonations::new();
    c.register_project(&s("GA"), &s("alice")).unwrap();
    c.donate(&s("GD"), &s("alice"), &s("CTOKEN"), 50, None).unwrap();
    c.take_events();
    assert_eq!(c.distribute_and_claim(&s("GA"), &s("alice"), &s("CTOKEN"), Some(s("GP")), 0), Ok(50));
    let events = c.take_events();
    assert_eq!(events.len(), 2);
    assert!(matches!(&events[0], Event::Distributed { pool, .. } if *pool == 50));
    assert!(matches!(&events[1], Event::Claimed { recipient, amount, .. }
        if recipient == "GP" && *amount == 50));
}

#[test]
fn emit_appends_one_event() {
    let mut log: Vec<Event> = Vec::new();
    emit_donated(&mut log, &s("alice"), &s("GD"), &s("CTOKEN"), 7);
    assert_eq!(log.len(), 1);
    assert!(matches!(&log[0], Event::Donated { amount, .. } if *amount == 7));
}
