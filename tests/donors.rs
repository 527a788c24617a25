use donors::donor::Donor;
use donors::every_org::{every_org_donors, ConsentPolicy, CsvData, EveryOrgRow, EveryOrgToDonorError};
use donors::merge::apply_donor_info;
use donors::metrics::{compute_metrics, Metrics};
use donors::recency::{is_past, is_past_recurring, Timestamp};
use donors::reconcile::{
    cents_to_units, custom_field_value, stripe_donors, CustomField, MatchStrategy, PaymentEvent,
    ReconcileError, SessionRecord,
};

const DAY: i64 = 86_400;
const NOW: i64 = 1_792_022_400; // 2026-10-15T00:00:00Z

fn at(seconds: i64) -> Timestamp {
    Timestamp { seconds, nanos: 0 }
}

fn text(s: &str) -> Option<String> {
    Some(s.to_string())
}

fn payment(id: &str, customer: Option<&str>, amount: i64, currency: &str, created: i64) -> PaymentEvent {
    PaymentEvent {
        id: id.to_string(),
        customer: customer.map(|c| c.to_string()),
        amount,
        currency: currency.to_string(),
        created,
        succeeded: true,
    }
}

fn session(customer: &str, amount: i64, created: i64, name: &str, link: &str) -> SessionRecord {
    SessionRecord {
        customer: text(customer),
        payment_ref: None,
        amount_total: Some(amount),
        created,
        complete: true,
        custom_fields: vec![
            CustomField { key: "nametolistinbevycredits".to_string(), value: text(name) },
            CustomField { key: "linktolistinbevycredits".to_string(), value: text(link) },
            CustomField { key: "other".to_string(), value: text("ignored") },
        ],
    }
}

fn donor(id: Option<&str>, name: Option<&str>, amount: Option<i64>) -> Donor {
    let mut d = Donor::empty();
    d.customer_id = id.map(|s| s.to_string());
    d.name = name.map(|s| s.to_string());
    d.amount = amount;
    d
}

fn row(id: &str, name: &str, amount: &str, units: Option<i64>, public: &str) -> EveryOrgRow {
    EveryOrgRow {
        donor_id: text(id),
        name: text(name),
        amount: text(amount),
        amount_units: units,
        public_supporter: text(public),
        recurring_donation_status: None,
        last_donation: None,
    }
}

#[test]
fn payment_forty_days_ago_is_past_twenty_is_not() {
    assert!(is_past(at(NOW), at(NOW - 40 * DAY)));
    assert!(!is_past(at(NOW), at(NOW - 20 * DAY)));
}

#[test]
fn recency_window_is_exact() {
    assert!(!is_past(at(NOW), at(NOW - 31 * DAY)));
    let now = Timestamp { seconds: NOW, nanos: 1 };
    assert!(is_past(now, at(NOW - 31 * DAY)));
    assert!(!is_past(at(NOW), at(NOW + 5 * DAY)));
}

#[test]
fn recurring_recency() {
    assert!(!is_past_recurring(at(NOW), true, None));
    assert!(!is_past_recurring(at(NOW), true, Some(at(NOW - 400 * DAY))));
    assert!(is_past_recurring(at(NOW), false, None));
    assert!(is_past_recurring(at(NOW), false, Some(at(NOW - 40 * DAY))));
    assert!(!is_past_recurring(at(NOW), false, Some(at(NOW - 2 * DAY))));
}

#[test]
fn cents_become_whole_units() {
    assert_eq!(cents_to_units(5000), 50);
    assert_eq!(cents_to_units(199), 1);
    assert_eq!(cents_to_units(0), 0);
    assert_eq!(cents_to_units(-150), -1);
    assert_eq!(cents_to_units(i64::MIN), -92_233_720_368_547_758);
}

#[test]
fn last_custom_field_wins() {
    let fields = vec![
        CustomField { key: "k".to_string(), value: text("first") },
        CustomField { key: "x".to_string(), value: text("other") },
        CustomField { key: "k".to_string(), value: text("second") },
    ];
    assert_eq!(custom_field_value(&fields, "k"), text("second"));
    assert_eq!(custom_field_value(&fields, "missing"), None);
}

#[test]
fn by_amount_match_takes_latest_session() {
    let t0 = NOW - 10 * DAY;
    let t1 = NOW - 9 * DAY;
    let t2 = NOW - 8 * DAY;
    let events = vec![payment("pi_1", Some("c1"), 5000, "usd", t1)];
    let sessions = vec![
        session("c1", 5000, t0, "Early", "https://early"),
        session("c1", 5000, t2, "Late", "https://late"),
        session("c1", 7000, t2 + 1, "Other amount", "https://other"),
    ];
    let ds = stripe_donors(&events, &sessions, MatchStrategy::ByAmount, at(NOW)).unwrap();
    assert_eq!(ds.len(), 1);
    assert_eq!(ds[0].customer_id, text("c1"));
    assert_eq!(ds[0].amount, Some(50));
    assert_eq!(ds[0].name, text("Late"));
    assert_eq!(ds[0].link, text("https://late"));
    assert_eq!(ds[0].source, text("stripe"));
    assert_eq!(ds[0].past, Some(false));
}

#[test]
fn latest_payment_of_a_customer_wins_whatever_the_order() {
    let sessions = vec![
        session("c1", 1000, NOW - 50 * DAY, "Old", "l1"),
        session("c1", 2000, NOW - 3 * DAY, "New", "l2"),
    ];
    let late = payment("pi_2", Some("c1"), 2000, "usd", NOW - 3 * DAY);
    let early = payment("pi_1", Some("c1"), 1000, "usd", NOW - 50 * DAY);
    let forward = vec![early, late];
    let ds = stripe_donors(&forward, &sessions, MatchStrategy::ByAmount, at(NOW)).unwrap();
    let backward: Vec<PaymentEvent> = forward.into_iter().rev().collect();
    let ds2 = stripe_donors(&backward, &sessions, MatchStrategy::ByAmount, at(NOW)).unwrap();
    for d in [&ds, &ds2] {
        assert_eq!(d.len(), 1);
        assert_eq!(d[0].amount, Some(20));
        assert_eq!(d[0].name, text("New"));
        assert_eq!(d[0].past, Some(false));
    }
}

#[test]
fn failed_payments_and_open_sessions_are_ignored() {
    let mut failed = payment("pi_0", Some("c2"), 999, "eur", NOW);
    failed.succeeded = false;
    let mut open = session("c1", 5000, NOW, "Open", "l");
    open.complete = false;
    let events = vec![failed, payment("pi_1", Some("c1"), 5000, "usd", NOW - DAY)];
    let sessions = vec![session("c1", 5000, NOW - 2 * DAY, "Done", "l"), open];
    let ds = stripe_donors(&events, &sessions, MatchStrategy::ByAmount, at(NOW)).unwrap();
    assert_eq!(ds.len(), 1);
    assert_eq!(ds[0].name, text("Done"));
}

#[test]
fn by_reference_match() {
    let events = vec![payment("pi_9", Some("c9"), 1200, "usd", NOW - 40 * DAY)];
    let mut s1 = session("someone", 1, NOW - 41 * DAY, "Ref", "r");
    s1.payment_ref = text("pi_9");
    let mut s2 = session("c9", 1200, NOW - 39 * DAY, "Amount", "a");
    s2.payment_ref = text("pi_other");
    let ds = stripe_donors(&events, &vec![s1, s2], MatchStrategy::ByReference, at(NOW)).unwrap();
    assert_eq!(ds.len(), 1);
    assert_eq!(ds[0].name, text("Ref"));
    assert_eq!(ds[0].amount, Some(12));
    assert_eq!(ds[0].past, Some(true));
}

#[test]
fn reconcile_errors() {
    let sessions = vec![session("c1", 5000, NOW, "A", "l")];
    let foreign = vec![payment("pi_1", Some("c1"), 5000, "eur", NOW)];
    assert_eq!(
        stripe_donors(&foreign, &sessions, MatchStrategy::ByAmount, at(NOW)).unwrap_err(),
        ReconcileError::NonBaseCurrency
    );
    let anonymous = vec![payment("pi_1", None, 5000, "usd", NOW)];
    assert_eq!(
        stripe_donors(&anonymous, &sessions, MatchStrategy::ByAmount, at(NOW)).unwrap_err(),
        ReconcileError::MissingPayer
    );
    let unmatched = vec![payment("pi_1", Some("c1"), 4000, "usd", NOW)];
    assert_eq!(
        stripe_donors(&unmatched, &sessions, MatchStrategy::ByAmount, at(NOW)).unwrap_err(),
        ReconcileError::NoMatchingSession
    );
    let both = vec![unmatched.into_iter().next().unwrap(), foreign.into_iter().next().unwrap()];
    assert_eq!(
        stripe_donors(&both, &sessions, MatchStrategy::ByAmount, at(NOW)).unwrap_err(),
        ReconcileError::NonBaseCurrency
    );
}

#[test]
fn anonymize_clears_name_and_keeps_amount() {
    let mut donors = vec![donor(Some("c1"), Some("Alice"), Some(50))];
    let mut o = donor(Some("c1"), Some("Anon"), None);
    o.anonymize = Some(true);
    apply_donor_info(&mut donors, vec![o]);
    assert_eq!(donors.len(), 1);
    assert_eq!(donors[0].name, None);
    assert_eq!(donors[0].amount, Some(50));
}

#[test]
fn keyless_override_with_amount_is_appended() {
    let mut donors = vec![donor(Some("c1"), Some("Alice"), Some(50))];
    let gift = donor(None, Some("Legacy Gift"), Some(100));
    let nothing = donor(None, Some("No amount"), None);
    apply_donor_info(&mut donors, vec![gift, nothing]);
    assert_eq!(donors.len(), 2);
    assert_eq!(donors[1].name, text("Legacy Gift"));
    assert_eq!(donors[1].amount, Some(100));
    assert_eq!(donors[1].past, None);
    assert_eq!(donors[0].name, text("Alice"));
}

#[test]
fn override_sets_only_its_fields() {
    let mut base = donor(Some("c1"), Some("Alice"), Some(50));
    base.link = text("https://alice");
    base.past = Some(false);
    let mut o = donor(Some("c1"), None, Some(700));
    o.logo = text("logo.png");
    o.logo_scale = Some(0x3f00_0000);
    o.square_logo = Some(true);
    let mut donors = vec![base, donor(Some("c1"), Some("Second"), Some(1))];
    apply_donor_info(&mut donors, vec![donor(Some("c1"), Some("Earlier"), None), o, donor(Some("zz"), None, Some(5))]);
    assert_eq!(donors.len(), 2);
    assert_eq!(donors[0].name, text("Alice"));
    assert_eq!(donors[0].link, text("https://alice"));
    assert_eq!(donors[0].amount, Some(700));
    assert_eq!(donors[0].logo, text("logo.png"));
    assert_eq!(donors[0].logo_scale, Some(0x3f00_0000));
    assert_eq!(donors[0].square_logo, Some(true));
    assert_eq!(donors[0].past, Some(false));
    assert_eq!(donors[1].name, text("Second"));
    assert_eq!(donors[1].amount, Some(1));
}

#[test]
fn merging_twice_changes_no_merged_donor() {
    let overrides = || vec![donor(Some("c1"), Some("Bob"), Some(600)), donor(None, Some("Gift"), Some(10))];
    let mut once = vec![donor(Some("c1"), Some("Alice"), Some(50)), donor(Some("c2"), Some("Carol"), Some(5))];
    apply_donor_info(&mut once, overrides());
    let mut twice = vec![donor(Some("c1"), Some("Alice"), Some(50)), donor(Some("c2"), Some("Carol"), Some(5))];
    apply_donor_info(&mut twice, overrides());
    apply_donor_info(&mut twice, overrides());
    assert_eq!(once.len(), 3);
    assert_eq!(twice.len(), 4);
    for k in 0..once.len() {
        assert_eq!(once[k].customer_id, twice[k].customer_id);
        assert_eq!(once[k].name, twice[k].name);
        assert_eq!(once[k].amount, twice[k].amount);
    }
    assert_eq!(twice[3].name, text("Gift"));
}

#[test]
fn metrics_count_active_donors() {
    let mut sponsor = donor(Some("a"), None, Some(500));
    sponsor.past = Some(false);
    let mut member = donor(Some("b"), None, Some(499));
    member.past = Some(false);
    let mut gone = donor(Some("c"), None, Some(10_000));
    gone.past = Some(true);
    let unclassified = donor(None, None, Some(100));
    let mut no_amount = donor(Some("d"), None, None);
    no_amount.past = Some(false);
    let m = compute_metrics(&vec![sponsor, member, gone, unclassified, no_amount]);
    assert_eq!(m, Metrics { monthly_dollars: 1099, sponsors: 1, members: 2 });
}

#[test]
fn metrics_of_nothing() {
    let m = compute_metrics(&vec![]);
    assert_eq!(m, Metrics { monthly_dollars: 0, sponsors: 0, members: 0 });
}

#[test]
fn metrics_total_does_not_overflow() {
    let mut a = donor(None, None, Some(i64::MAX));
    a.past = Some(false);
    let mut b = donor(None, None, Some(i64::MAX));
    b.past = Some(false);
    let m = compute_metrics(&vec![a, b]);
    assert_eq!(m.monthly_dollars, 2 * (i64::MAX as i128));
    assert_eq!(m.sponsors, 2);
}

#[test]
fn public_row_becomes_donor() {
    let r = row("42", "Dana", "25.9", Some(25), "true");
    let d = Donor::from_every_org_row(&r, ConsentPolicy::Drop).unwrap();
    assert_eq!(d.customer_id, text("every.org:42"));
    assert_eq!(d.name, text("Dana"));
    assert_eq!(d.amount, Some(25));
    assert_eq!(d.source, text("every.org"));
    assert_eq!(d.past, None);
}

#[test]
fn empty_id_and_name_are_absent() {
    let r = row("", "", "5", Some(5), "true");
    let d = Donor::from_every_org_row(&r, ConsentPolicy::Drop).unwrap();
    assert_eq!(d.customer_id, None);
    assert_eq!(d.name, None);
}

#[test]
fn private_row_is_dropped_or_redacted() {
    let r = row("7", "Secret", "100", Some(100), "false");
    assert_eq!(
        Donor::from_every_org_row(&r, ConsentPolicy::Drop).unwrap_err(),
        EveryOrgToDonorError::PrivateSupporter
    );
    let d = Donor::from_every_org_row(&r, ConsentPolicy::Redact).unwrap();
    assert_eq!(d.customer_id, text("every.org:7"));
    assert_eq!(d.name, None);
    assert_eq!(d.amount, None);
    let mut missing = row("8", "Secret", "100", Some(100), "true");
    missing.public_supporter = None;
    assert_eq!(
        Donor::from_every_org_row(&missing, ConsentPolicy::Drop).unwrap_err(),
        EveryOrgToDonorError::PrivateSupporter
    );
}

#[test]
fn row_amount_errors() {
    let empty = row("1", "A", "", None, "true");
    assert_eq!(
        Donor::from_every_org_row(&empty, ConsentPolicy::Drop).unwrap_err(),
        EveryOrgToDonorError::NoAmount
    );
    let d = Donor::from_every_org_row(&empty, ConsentPolicy::Redact).unwrap();
    assert_eq!(d.amount, None);
    assert_eq!(d.name, text("A"));
    let bad = row("1", "A", "ten", None, "true");
    assert_eq!(
        Donor::from_every_org_row(&bad, ConsentPolicy::Drop).unwrap_err(),
        EveryOrgToDonorError::ParseAmountError
    );
    assert_eq!(
        Donor::from_every_org_row(&bad, ConsentPolicy::Redact).unwrap_err(),
        EveryOrgToDonorError::ParseAmountError
    );
}

#[test]
fn every_org_recency() {
    let mut recurring = row("1", "R", "10", Some(10), "true");
    recurring.recurring_donation_status = text("Active");
    recurring.last_donation = text("01/15/2020");
    let mut recent = row("2", "N", "10", Some(10), "true");
    recent.last_donation = text("10/01/2026");
    let mut old = row("3", "O", "10", Some(10), "true");
    old.last_donation = text("01/15/2020");
    let mut unreadable = row("4", "U", "10", Some(10), "true");
    unreadable.last_donation = text("2026-10-01");
    let none = row("5", "X", "10", Some(10), "true");
    let private = row("6", "P", "10", Some(10), "no");
    let rows = vec![recurring, recent, old, unreadable, none, private];
    let ds = every_org_donors(&rows, ConsentPolicy::Drop, at(NOW));
    let past: Vec<Option<bool>> = ds.iter().map(|d| d.past).collect();
    assert_eq!(past, vec![Some(false), Some(false), Some(true), Some(true), Some(true)]);
    let redacted = every_org_donors(&rows, ConsentPolicy::Redact, at(NOW));
    assert_eq!(redacted.len(), 6);
    assert_eq!(redacted[5].name, None);
    assert_eq!(redacted[5].amount, None);
}

#[test]
fn csv_is_rebuilt_without_inner_commas() {
    let data = CsvData {
        ok: vec![
            vec!["Name".to_string(), "Amount".to_string()],
            vec!["Doe, Jane".to_string(), "10".to_string()],
        ],
        error: vec![vec!["ignored".to_string()]],
    };
    assert_eq!(data.rebuild_csv(), "Name,Amount,\nDoe  Jane,10,\n");
    let empty = CsvData { ok: vec![], error: vec![] };
    assert_eq!(empty.rebuild_csv(), "");
}
