use tippa::{CascadingDonations, Error, RuleSet};

fn s(v: &str) -> String {
    v.to_string()
}

fn token() -> String {
    s("CTOKEN")
}

fn rules_of(pairs: &[(&str, u32)]) -> RuleSet {
    let mut rules = RuleSet::new();
    for (k, v) in pairs {
        rules.set(s(k), *v);
    }
    rules
}

#[test]
fn test_register() {
    let mut c = CascadingDonations::new();
    let owner = s("GOWNER");
    let username = s("alice");

    c.register_project(&owner, &username).unwrap();
    assert_eq!(c.get_owner(&username), Some(owner));
}

#[test]
#[should_panic]
fn test_register_duplicate_fails() {
    let mut c = CascadingDonations::new();
    let owner = s("GOWNER");
    let username = s("alice");

    c.register_project(&owner, &username).unwrap();
    c.register_project(&owner, &username).unwrap();
}

#[test]
fn test_set_rules() {
    let mut c = CascadingDonations::new();
    let owner = s("GOWNER");
    let username = s("alice");
    let dep = s("bob");

    c.register_project(&owner, &username).unwrap();
    c.register_project(&s("GOTHER"), &dep).unwrap();

    let mut rules = RuleSet::new();
    rules.set(dep.clone(), 3000u32);
    c.set_rules(&owner, &username, rules).unwrap();

    let stored = c.get_rules(&username);
    assert_eq!(stored.get(&dep).unwrap(), 3000);
}

#[test]
#[should_panic]
fn test_rules_exceed_max_fails() {
    let mut c = CascadingDonations::new();
    let owner = s("GOWNER");
    let username = s("alice");
    c.register_project(&owner, &username).unwrap();

    c.register_project(&s("GBOB"), &s("bob")).unwrap();
    c.register_project(&s("GCAROL"), &s("carol")).unwrap();

    let mut rules = RuleSet::new();
    rules.set(s("bob"), 6000u32);
    rules.set(s("carol"), 6000u32);
    c.set_rules(&owner, &username, rules).unwrap();
}

#[test]
#[should_panic]
fn test_rules_unregistered_recipient_fails() {
    let mut c = CascadingDonations::new();
    let owner = s("GOWNER");
    let username = s("alice");
    c.register_project(&owner, &username).unwrap();

    let mut rules = RuleSet::new();
    rules.set(s("not_registered"), 3000u32);
    c.set_rules(&owner, &username, rules).unwrap();
}

#[test]
fn test_donate() {
    let mut c = CascadingDonations::new();
    let tok = token();
    let owner = s("GOWNER");
    let donor = s("GDONOR");
    let username = s("alice");

    c.register_project(&owner, &username).unwrap();
    c.donate(&donor, &username, &tok, 1_000, None).unwrap();

    assert_eq!(c.get_pool(&username, &tok), 1_000);
    assert_eq!(c.get_total_received(&username, &tok), 1_000);
    assert_eq!(c.get_donor_to_project(&donor, &username, &tok), 1_000);
    assert_eq!(c.get_donor_total(&donor, &tok), 1_000);
    assert_eq!(c.get_grand_total(&tok), 1_000);
}

#[test]
fn test_distribute_no_rules_all_unclaimed() {
    let mut c = CascadingDonations::new();
    let tok = token();
    let owner = s("GOWNER");
    let donor = s("GDONOR");
    let username = s("alice");

    c.register_project(&owner, &username).unwrap();
    c.donate(&donor, &username, &tok, 1_000, None).unwrap();

    c.distribute(&username, &tok, 0).unwrap();

    assert_eq!(c.get_pool(&username, &tok), 0);
    assert_eq!(c.get_unclaimed(&username, &tok), 1_000);
}

#[test]
fn test_distribute_with_cascade() {
    let mut c = CascadingDonations::new();
    let tok = token();
    let owner1 = s("GOWNER1");
    let owner2 = s("GOWNER2");
    let donor = s("GDONOR");
    let user1 = s("alice");
    let user2 = s("bob");

    c.register_project(&owner1, &user1).unwrap();
    c.register_project(&owner2, &user2).unwrap();

    let mut rules = RuleSet::new();
    rules.set(user2.clone(), 4000u32);
    c.set_rules(&owner1, &user1, rules).unwrap();

    c.donate(&donor, &user1, &tok, 1_000, None).unwrap();

    c.distribute(&user1, &tok, 0).unwrap();

    assert_eq!(c.get_pool(&user1, &tok), 0);
    assert_eq!(c.get_unclaimed(&user1, &tok), 600);

    assert_eq!(c.get_pool(&user2, &tok), 400);
    assert_eq!(c.get_total_received(&user2, &tok), 400);
    assert_eq!(c.get_total_received_from_projects(&user2, &tok), 400);
}

#[test]
fn test_claim() {
    let mut c = CascadingDonations::new();
    let tok = token();
    let owner = s("GOWNER");
    let donor = s("GDONOR");
    let username = s("alice");

    c.register_project(&owner, &username).unwrap();
    c.donate(&donor, &username, &tok, 1_000, None).unwrap();
    c.distribute(&username, &tok, 0).unwrap();

    let paid = c.claim(&owner, &username, &tok, None).unwrap();
    assert_eq!(paid, 1_000);

    assert_eq!(c.get_unclaimed(&username, &tok), 0);
    assert_eq!(c.get_paid_to(&owner, &tok), 1_000);
}

#[test]
fn test_distribute_and_claim() {
    let mut c = CascadingDonations::new();
    let tok = token();
    let owner = s("GOWNER");
    let donor = s("GDONOR");
    let username = s("alice");

    c.register_project(&owner, &username).unwrap();
    c.donate(&donor, &username, &tok, 500, None).unwrap();

    let paid = c.distribute_and_claim(&owner, &username, &tok, None, 0).unwrap();
    assert_eq!(paid, 500);
    assert_eq!(c.get_pool(&username, &tok), 0);
    assert_eq!(c.get_unclaimed(&username, &tok), 0);
}

#[test]
fn test_min_distribution_skips_dust() {
    let mut c = CascadingDonations::new();
    let tok = token();
    let owner1 = s("GOWNER1");
    let owner2 = s("GOWNER2");
    let donor = s("GDONOR");
    let user1 = s("alice");
    let user2 = s("bob");

    c.register_project(&owner1, &user1).unwrap();
    c.register_project(&owner2, &user2).unwrap();

    let mut rules = RuleSet::new();
    rules.set(user2.clone(), 4000u32);
    c.set_rules(&owner1, &user1, rules).unwrap();

    c.donate(&donor, &user1, &tok, 100, None).unwrap();

    c.distribute(&user1, &tok, 50).unwrap();

    assert_eq!(c.get_pool(&user2, &tok), 0);
    assert_eq!(c.get_unclaimed(&user1, &tok), 100);
}

// Two registered identifiers, alice forwarding 40% to bob, 1000 donated to alice.
fn alice_and_bob(amount: i128) -> CascadingDonations {
    let mut c = CascadingDonations::new();
    c.register_project(&s("GA"), &s("alice")).unwrap();
    c.register_project(&s("GB"), &s("bob")).unwrap();
    c.set_rules(&s("GA"), &s("alice"), rules_of(&[("bob", 4000)])).unwrap();
    c.donate(&s("GD"), &s("alice"), &token(), amount, None).unwrap();
    c
}

#[test]
fn scenario_cascade_then_claim() {
    let mut c = alice_and_bob(1000);
    let tok = token();
    assert_eq!(c.get_pool(&s("alice"), &tok), 1000);
    c.distribute(&s("alice"), &tok, 0).unwrap();
    assert_eq!(c.get_pool(&s("alice"), &tok), 0);
    assert_eq!(c.get_unclaimed(&s("alice"), &tok), 600);
    assert_eq!(c.get_pool(&s("bob"), &tok), 400);
    assert_eq!(c.get_total_received_from_projects(&s("bob"), &tok), 400);
    assert_eq!(c.get_total_forwarded(&s("alice"), &tok), 400);
    assert_eq!(c.claim(&s("GA"), &s("alice"), &tok, None), Ok(600));
    assert_eq!(c.get_paid_to(&s("GA"), &tok), 600);
}

#[test]
fn scenario_threshold_keeps_dust_with_owner() {
    let mut c = alice_and_bob(1000);
    let tok = token();
    c.distribute(&s("alice"), &tok, 500).unwrap();
    assert_eq!(c.get_pool(&s("bob"), &tok), 0);
    assert_eq!(c.get_unclaimed(&s("alice"), &tok), 1000);
    assert_eq!(c.get_total_forwarded(&s("alice"), &tok), 0);
}

#[test]
fn register_twice_fails_for_any_caller() {
    let mut c = CascadingDonations::new();
    c.register_project(&s("GA"), &s("alice")).unwrap();
    assert_eq!(c.register_project(&s("GB"), &s("alice")), Err(Error::ProjectAlreadyExists));
    assert_eq!(c.get_owner(&s("alice")), Some(s("GA")));
}

#[test]
fn refused_rules_leave_previous_rules() {
    let mut c = alice_and_bob(1000);
    c.register_project(&s("GC"), &s("carol")).unwrap();
    let bad = rules_of(&[("carol", 3000), ("bob", 8000)]);
    assert_eq!(c.set_rules(&s("GA"), &s("alice"), bad), Err(Error::RulesTotalExceedsMax));
    let stored = c.get_rules(&s("alice"));
    assert_eq!(stored.len(), 1);
    assert_eq!(stored.get(&s("bob")), Some(4000));
    assert_eq!(stored.get(&s("carol")), None);
}

#[test]
fn shares_add_up_to_pool() {
    let mut c = CascadingDonations::new();
    let tok = token();
    for (owner, id) in [("GA", "alice"), ("GB", "bob"), ("GC", "carol"), ("GD", "dave")] {
        c.register_project(&s(owner), &s(id)).unwrap();
    }
    let rules = rules_of(&[("bob", 3333), ("carol", 3333), ("dave", 3333)]);
    c.set_rules(&s("GA"), &s("alice"), rules).unwrap();
    c.donate(&s("GX"), &s("alice"), &tok, 1001, None).unwrap();
    c.distribute(&s("alice"), &tok, 0).unwrap();
    let bob = c.get_pool(&s("bob"), &tok);
    let carol = c.get_pool(&s("carol"), &tok);
    let dave = c.get_pool(&s("dave"), &tok);
    assert_eq!(bob, 333);
    assert_eq!(carol, 333);
    assert_eq!(dave, 333);
    assert_eq!(c.get_unclaimed(&s("alice"), &tok), 2);
    assert_eq!(bob + carol + dave + c.get_unclaimed(&s("alice"), &tok), 1001);
}

#[test]
fn higher_threshold_forwards_less() {
    let tok = token();
    let mut low = alice_and_bob(1000);
    let mut high = alice_and_bob(1000);
    low.distribute(&s("alice"), &tok, 400).unwrap();
    high.distribute(&s("alice"), &tok, 401).unwrap();
    assert_eq!(low.get_pool(&s("bob"), &tok), 400);
    assert_eq!(high.get_pool(&s("bob"), &tok), 0);
    assert!(high.get_unclaimed(&s("alice"), &tok) >= low.get_unclaimed(&s("alice"), &tok));
}

#[test]
fn second_distribute_finds_nothing() {
    let mut c = alice_and_bob(1000);
    let tok = token();
    c.distribute(&s("alice"), &tok, 0).unwrap();
    assert_eq!(c.distribute(&s("alice"), &tok, 0), Err(Error::NothingToDistribute));
    assert_eq!(c.get_unclaimed(&s("alice"), &tok), 600);
    assert_eq!(c.get_pool(&s("bob"), &tok), 400);
    assert_eq!(c.get_total_received(&s("bob"), &tok), 400);
}

#[test]
fn second_claim_finds_nothing() {
    let mut c = alice_and_bob(1000);
    let tok = token();
    c.distribute(&s("alice"), &tok, 0).unwrap();
    assert_eq!(c.claim(&s("GA"), &s("alice"), &tok, Some(s("GPAYEE"))), Ok(600));
    assert_eq!(c.get_unclaimed(&s("alice"), &tok), 0);
    assert_eq!(c.get_paid_to(&s("GPAYEE"), &tok), 600);
    assert_eq!(c.get_paid_to(&s("GA"), &tok), 0);
    assert_eq!(c.claim(&s("GA"), &s("alice"), &tok, None), Err(Error::NothingToDistribute));
}

#[test]
fn nickname_is_unique_and_released() {
    let mut c = CascadingDonations::new();
    c.set_nickname(&s("GU1"), &s("x")).unwrap();
    assert_eq!(c.set_nickname(&s("GU2"), &s("x")), Err(Error::NicknameAlreadyTaken));
    assert_eq!(c.get_nickname_owner(&s("x")), Some(s("GU1")));
    c.set_nickname(&s("GU1"), &s("y")).unwrap();
    assert_eq!(c.get_nickname_owner(&s("x")), None);
    assert_eq!(c.get_nickname_owner(&s("y")), Some(s("GU1")));
    assert_eq!(c.get_nickname(&s("GU1")), Some(s("y")));
    c.set_nickname(&s("GU2"), &s("x")).unwrap();
    assert_eq!(c.get_nickname(&s("GU2")), Some(s("x")));
}

#[test]
fn nickname_kept_by_its_holder() {
    let mut c = CascadingDonations::new();
    c.set_nickname(&s("GU1"), &s("x")).unwrap();
    assert_eq!(c.set_nickname(&s("GU1"), &s("x")), Ok(()));
    assert_eq!(c.get_nickname(&s("GU1")), Some(s("x")));
}

#[test]
fn donation_errors() {
    let mut c = CascadingDonations::new();
    let tok = token();
    c.register_project(&s("GA"), &s("alice")).unwrap();
    assert_eq!(c.donate(&s("GD"), &s("alice"), &tok, 0, None), Err(Error::InvalidAmount));
    assert_eq!(c.donate(&s("GD"), &s("alice"), &tok, -5, None), Err(Error::InvalidAmount));
    assert_eq!(c.donate(&s("GD"), &s("nobody"), &tok, 5, None), Err(Error::ProjectNotFound));
    assert_eq!(c.get_grand_total(&tok), 0);
}

#[test]
fn donation_credited_to_override() {
    let mut c = CascadingDonations::new();
    let tok = token();
    c.register_project(&s("GA"), &s("alice")).unwrap();
    c.donate(&s("GRELAY"), &s("alice"), &tok, 70, Some(s("GREAL"))).unwrap();
    assert_eq!(c.get_donor_total(&s("GREAL"), &tok), 70);
    assert_eq!(c.get_donor_to_project(&s("GREAL"), &s("alice"), &tok), 70);
    assert_eq!(c.get_donor_total(&s("GRELAY"), &tok), 0);
}

#[test]
fn donation_overflow_is_refused() {
    let mut c = CascadingDonations::new();
    let tok = token();
    c.register_project(&s("GA"), &s("alice")).unwrap();
    c.donate(&s("GD"), &s("alice"), &tok, i128::MAX, None).unwrap();
    assert_eq!(c.donate(&s("GD"), &s("alice"), &tok, 1, None), Err(Error::Overflow));
    assert_eq!(c.get_pool(&s("alice"), &tok), i128::MAX);
}

#[test]
fn ownership_errors_and_transfer() {
    let mut c = CascadingDonations::new();
    c.register_project(&s("GA"), &s("alice")).unwrap();
    assert_eq!(c.transfer_ownership(&s("GB"), &s("alice"), &s("GB")), Err(Error::NotOwner));
    assert_eq!(c.transfer_ownership(&s("GA"), &s("zed"), &s("GB")), Err(Error::ProjectNotFound));
    c.transfer_ownership(&s("GA"), &s("alice"), &s("GB")).unwrap();
    assert_eq!(c.get_owner(&s("alice")), Some(s("GB")));
    assert_eq!(
        c.set_rules(&s("GA"), &s("alice"), RuleSet::new()),
        Err(Error::NotOwner)
    );
}

#[test]
fn rule_validation_errors() {
    let mut c = CascadingDonations::new();
    c.register_project(&s("GA"), &s("alice")).unwrap();
    for i in 0..11 {
        c.register_project(&s("GX"), &format!("r{}", i)).unwrap();
    }
    let mut many = RuleSet::new();
    for i in 0..11 {
        many.set(format!("r{}", i), 100);
    }
    assert_eq!(c.set_rules(&s("GA"), &s("alice"), many), Err(Error::TooManyRules));
    assert_eq!(
        c.set_rules(&s("GA"), &s("alice"), rules_of(&[("alice", 100)])),
        Err(Error::SelfReference)
    );
    assert_eq!(
        c.set_rules(&s("GA"), &s("alice"), rules_of(&[("ghost", 100)])),
        Err(Error::RecipientNotRegistered)
    );
    assert_eq!(
        c.set_rules(&s("GA"), &s("alice"), rules_of(&[("r1", 0)])),
        Err(Error::InvalidPercentage)
    );
    assert_eq!(
        c.set_rules(&s("GA"), &s("alice"), rules_of(&[("r1", 10001)])),
        Err(Error::InvalidPercentage)
    );
    let mut ten = RuleSet::new();
    for i in 0..10 {
        ten.set(format!("r{}", i), 1000);
    }
    assert_eq!(c.set_rules(&s("GA"), &s("alice"), ten), Ok(()));
}

#[test]
fn permissive_policy_accepts_unregistered_recipient() {
    let mut c = CascadingDonations::with_recipient_policy(false);
    c.register_project(&s("GA"), &s("alice")).unwrap();
    assert_eq!(c.set_rules(&s("GA"), &s("alice"), rules_of(&[("later", 2500)])), Ok(()));
    c.donate(&s("GD"), &s("alice"), &token(), 80, None).unwrap();
    c.distribute(&s("alice"), &token(), 0).unwrap();
    assert_eq!(c.get_pool(&s("later"), &token()), 20);
    assert_eq!(c.get_unclaimed(&s("alice"), &token()), 60);
}

#[test]
fn distribute_errors() {
    let mut c = alice_and_bob(10);
    let tok = token();
    assert_eq!(c.distribute(&s("nobody"), &tok, 0), Err(Error::ProjectNotFound));
    assert_eq!(c.distribute(&s("bob"), &tok, 0), Err(Error::NothingToDistribute));
    assert_eq!(c.claim(&s("GB"), &s("bob"), &tok, None), Err(Error::NothingToDistribute));
    assert_eq!(c.claim(&s("GA"), &s("bob"), &tok, None), Err(Error::NotOwner));
}

#[test]
fn distribute_and_claim_when_all_forwarded() {
    let mut c = CascadingDonations::new();
    let tok = token();
    c.register_project(&s("GA"), &s("alice")).unwrap();
    c.register_project(&s("GB"), &s("bob")).unwrap();
    c.set_rules(&s("GA"), &s("alice"), rules_of(&[("bob", 10000)])).unwrap();
    c.donate(&s("GD"), &s("alice"), &tok, 300, None).unwrap();
    assert_eq!(c.distribute_and_claim(&s("GA"), &s("alice"), &tok, None, 0), Ok(0));
    assert_eq!(c.get_pool(&s("bob"), &tok), 300);
    assert_eq!(
        c.distribute_and_claim(&s("GA"), &s("alice"), &tok, None, 0),
        Err(Error::NothingToDistribute)
    );
    assert_eq!(
        c.distribute_and_claim(&s("GB"), &s("alice"), &tok, None, 0),
        Err(Error::NotOwner)
    );
}

#[test]
fn multi_hop_needs_one_call_per_hop() {
    let mut c = CascadingDonations::new();
    let tok = token();
    for (owner, id) in [("GA", "alice"), ("GB", "bob"), ("GC", "carol")] {
        c.register_project(&s(owner), &s(id)).unwrap();
    }
    c.set_rules(&s("GA"), &s("alice"), rules_of(&[("bob", 5000)])).unwrap();
    c.set_rules(&s("GB"), &s("bob"), rules_of(&[("carol", 5000)])).unwrap();
    c.donate(&s("GD"), &s("alice"), &tok, 1000, None).unwrap();
    c.distribute(&s("alice"), &tok, 0).unwrap();
    assert_eq!(c.get_pool(&s("carol"), &tok), 0);
    c.distribute(&s("bob"), &tok, 0).unwrap();
    assert_eq!(c.get_pool(&s("carol"), &tok), 250);
    assert_eq!(c.get_unclaimed(&s("bob"), &tok), 250);
    assert_eq!(c.get_total_received(&s("carol"), &tok), 250);
}

#[test]
fn large_pool_share_is_exact() {
    let mut c = CascadingDonations::new();
    let tok = token();
    c.register_project(&s("GA"), &s("alice")).unwrap();
    c.register_project(&s("GB"), &s("bob")).unwrap();
    c.set_rules(&s("GA"), &s("alice"), rules_of(&[("bob", 9999)])).unwrap();
    let big: i128 = i128::MAX - 7;
    c.donate(&s("GD"), &s("alice"), &tok, big, None).unwrap();
    c.distribute(&s("alice"), &tok, 0).unwrap();
    let expected = (big / 10000) * 9999 + (big % 10000) * 9999 / 10000;
    assert_eq!(c.get_pool(&s("bob"), &tok), expected);
    assert_eq!(c.get_unclaimed(&s("alice"), &tok), big - expected);
}

#[test]
fn distribute_near_limit() {
    let mut c = alice_and_bob(1000);
    let tok = token();
    assert_eq!(c.donate(&s("GD"), &s("bob"), &tok, i128::MAX - 999, None), Err(Error::Overflow));
    c.donate(&s("GD"), &s("bob"), &tok, i128::MAX - 1000, None).unwrap();
    assert_eq!(c.distribute(&s("alice"), &tok, 0), Ok(()));
    assert_eq!(c.get_pool(&s("bob"), &tok), i128::MAX - 600);
    assert_eq!(c.get_grand_total(&tok), i128::MAX);
}

#[test]
fn rule_order_does_not_change_amounts() {
    let tok = token();
    let mut results = Vec::new();
    for order in [[("bob", 2500), ("carol", 1234)], [("carol", 1234), ("bob", 2500)]] {
        let mut c = CascadingDonations::new();
        for (owner, id) in [("GA", "alice"), ("GB", "bob"), ("GC", "carol")] {
            c.register_project(&s(owner), &s(id)).unwrap();
        }
        c.set_rules(&s("GA"), &s("alice"), rules_of(&order)).unwrap();
        c.donate(&s("GD"), &s("alice"), &tok, 9999, None).unwrap();
        c.distribute(&s("alice"), &tok, 0).unwrap();
        results.push((
            c.get_pool(&s("bob"), &tok),
            c.get_pool(&s("carol"), &tok),
            c.get_unclaimed(&s("alice"), &tok),
        ));
    }
    assert_eq!(results[0], (2499, 1233, 6267));
    assert_eq!(results[0], results[1]);
}
