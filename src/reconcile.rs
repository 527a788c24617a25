use vstd::prelude::*;
use crate::donor::{copy_text, Donor};
use crate::recency::{active_window, is_past, Timestamp};

verus! {

/// One custom field filled in on a checkout page.
#[derive(Debug)]
pub struct CustomField {
    pub key: String,
    pub value: Option<String>,
}

/// A payment as the card processor reports it.
#[derive(Debug)]
pub struct PaymentEvent {
    pub id: String,
    /// The paying customer's identity.
    pub customer: Option<String>,
    /// Minor currency units (cents).
    pub amount: i64,
    /// Lower-case ISO currency code.
    pub currency: String,
    /// Seconds since the Unix epoch.
    pub created: i64,
    pub succeeded: bool,
}

/// A checkout session: the page on which the payer typed their details.
#[derive(Debug)]
pub struct SessionRecord {
    pub customer: Option<String>,
    /// The payment this session produced, where the processor says so.
    pub payment_ref: Option<String>,
    /// Minor currency units (cents).
    pub amount_total: Option<i64>,
    /// Seconds since the Unix epoch.
    pub created: i64,
    pub complete: bool,
    pub custom_fields: Vec<CustomField>,
}

/// How a payment finds the session that carries its details.
#[derive(Clone, Copy, Debug, PartialEq, Eq, Structural)]
pub enum MatchStrategy {
    /// A session of the same customer for the same total.
    ByAmount,
    /// A session that names the payment.
    ByReference,
}

/// Upstream data that breaks what reconciliation relies on; the whole run stops.
#[derive(Clone, Copy, Debug, PartialEq, Eq, Structural)]
pub enum ReconcileError {
    /// A successful payment in a currency other than the base currency.
    NonBaseCurrency,
    /// A successful payment without a customer.
    MissingPayer,
    /// A successful payment that no complete session matches.
    NoMatchingSession,
}

pub open spec fn base_currency() -> Seq<char> {
    "usd"@
}

pub open spec fn name_key() -> Seq<char> {
    "nametolistinbevycredits"@
}

pub open spec fn link_key() -> Seq<char> {
    "linktolistinbevycredits"@
}

pub open spec fn source_label() -> Seq<char> {
    "stripe"@
}

/// Whether `s` names the same text as `t`.
pub open spec fn names(s: Option<String>, t: Seq<char>) -> bool {
    s is Some && s.unwrap()@ == t
}

/// The value of the last field under `key`; `None` where there is none.
pub open spec fn field_value(fields: Seq<CustomField>, key: Seq<char>) -> Option<String>
    decreases fields.len(),
{
    if fields.len() == 0 {
        None
    } else if fields.last().key@ == key {
        fields.last().value
    } else {
        field_value(fields.drop_last(), key)
    }
}

/// Cents to whole units, truncating toward zero.
pub open spec fn whole_units(cents: int) -> int {
    if cents >= 0 {
        cents / 100
    } else {
        -((-cents) / 100)
    }
}

pub open spec fn session_matches(s: SessionRecord, e: PaymentEvent, strategy: MatchStrategy) -> bool {
    s.complete && match strategy {
        MatchStrategy::ByAmount => e.customer is Some && names(s.customer, e.customer.unwrap()@)
            && s.amount_total == Some(e.amount),
        MatchStrategy::ByReference => names(s.payment_ref, e.id@),
    }
}

/// Session `i` is the most recently created session that matches `e`; of
/// sessions created at the same second, the last one listed.
pub open spec fn is_chosen_session(
    ss: Seq<SessionRecord>,
    e: PaymentEvent,
    strategy: MatchStrategy,
    i: int,
) -> bool {
    &&& 0 <= i < ss.len()
    &&& session_matches(ss[i], e, strategy)
    &&& forall|j: int|
        0 <= j < ss.len() && session_matches(#[trigger] ss[j], e, strategy) ==> (j < i ==> ss[j].created
            <= ss[i].created) && (j > i ==> ss[j].created < ss[i].created)
}

pub open spec fn has_session(ss: Seq<SessionRecord>, e: PaymentEvent, strategy: MatchStrategy) -> bool {
    exists|j: int| 0 <= j < ss.len() && session_matches(#[trigger] ss[j], e, strategy)
}

pub open spec fn same_payer(a: PaymentEvent, b: PaymentEvent) -> bool {
    a.customer is Some && b.customer is Some && a.customer.unwrap()@ == b.customer.unwrap()@
}

/// Among the successful payments of the first `n`, payment `i` is its
/// customer's latest; of payments created at the same second, the last one
/// listed.
pub open spec fn is_latest_payment(es: Seq<PaymentEvent>, n: int, i: int) -> bool {
    &&& 0 <= i < n <= es.len()
    &&& es[i].succeeded
    &&& es[i].customer is Some
    &&& forall|j: int|
        0 <= j < n && (#[trigger] es[j]).succeeded && same_payer(es[j], es[i]) ==> (j < i
            ==> es[j].created <= es[i].created) && (j > i ==> es[j].created < es[i].created)
}

/// The donor that payment `e`, matched to session `s`, yields at `now`.
pub open spec fn is_donor_of(d: Donor, e: PaymentEvent, s: SessionRecord, now: Timestamp) -> bool {
    &&& d.customer_id == e.customer
    &&& d.amount == Some(whole_units(e.amount as int) as i64)
    &&& d.name == field_value(s.custom_fields@, name_key())
    &&& d.link == field_value(s.custom_fields@, link_key())
    &&& names(d.source, source_label())
    &&& d.past == Some(now.instant() - Timestamp { seconds: e.created, nanos: 0 }.instant() > active_window())
    &&& d.logo is None && d.style is None && d.square_logo is None && d.logo_scale is None
    &&& d.anonymize is None
}

pub open spec fn bad_currency(e: PaymentEvent) -> bool {
    e.succeeded && e.currency@ != base_currency()
}

pub open spec fn missing_payer(e: PaymentEvent) -> bool {
    e.succeeded && e.customer is None
}

pub open spec fn unmatched(e: PaymentEvent, ss: Seq<SessionRecord>, strategy: MatchStrategy) -> bool {
    e.succeeded && !has_session(ss, e, strategy)
}

/// The fatal error, if any, that the payments carry. A foreign currency is
/// reported first, then a missing customer, then a missing session.
pub open spec fn reconcile_error(
    es: Seq<PaymentEvent>,
    ss: Seq<SessionRecord>,
    strategy: MatchStrategy,
) -> Option<ReconcileError> {
    if exists|i: int| 0 <= i < es.len() && bad_currency(#[trigger] es[i]) {
        Some(ReconcileError::NonBaseCurrency)
    } else if exists|i: int| 0 <= i < es.len() && missing_payer(#[trigger] es[i]) {
        Some(ReconcileError::MissingPayer)
    } else if exists|i: int| 0 <= i < es.len() && unmatched(#[trigger] es[i], ss, strategy) {
        Some(ReconcileError::NoMatchingSession)
    } else {
        None
    }
}

/// Donor `d` is built from the session chosen for payment `e`.
pub open spec fn slot_donor(
    d: Donor,
    e: PaymentEvent,
    ss: Seq<SessionRecord>,
    strategy: MatchStrategy,
    now: Timestamp,
) -> bool {
    exists|c: int| is_chosen_session(ss, e, strategy, c) && is_donor_of(d, e, ss[c], now)
}

/// Donor `d` is built from some customer's latest successful payment.
pub open spec fn donor_from_latest(
    d: Donor,
    es: Seq<PaymentEvent>,
    ss: Seq<SessionRecord>,
    strategy: MatchStrategy,
    now: Timestamp,
) -> bool {
    exists|i: int| is_latest_payment(es, es.len() as int, i) && slot_donor(d, es[i], ss, strategy, now)
}

/// `ds` holds exactly one donor per customer with a successful payment, each
/// built from that customer's latest payment and its chosen session.
pub open spec fn is_reconciled(
    ds: Seq<Donor>,
    es: Seq<PaymentEvent>,
    ss: Seq<SessionRecord>,
    strategy: MatchStrategy,
    now: Timestamp,
) -> bool {
    &&& forall|k: int| 0 <= k < ds.len() ==> #[trigger] donor_from_latest(ds[k], es, ss, strategy, now)
    &&& forall|i: int|
        0 <= i < es.len() && (#[trigger] es[i]).succeeded ==> exists|k: int|
            0 <= k < ds.len() && names(#[trigger] ds[k].customer_id, es[i].customer.unwrap()@)
    &&& forall|k1: int, k2: int|
        0 <= k1 < k2 < ds.len() ==> !(#[trigger] ds[k1].customer_id is Some && names(
            #[trigger] ds[k2].customer_id,
            ds[k1].customer_id.unwrap()@,
        ))
}

fn text_is(s: &String, lit: &str) -> (r: bool)
    ensures
        r == (s@ == lit@),
{
    let t = lit.to_owned();
    *s == t
}

fn same_text(a: &Option<String>, b: &Option<String>) -> (r: bool)
    ensures
        r == (a is Some && b is Some && a.unwrap()@ == b.unwrap()@),
{
    match (a, b) {
        (Some(x), Some(y)) => *x == *y,
        _ => false,
    }
}

/// The value of the last custom field under `key`.
pub fn custom_field_value(fields: &Vec<CustomField>, key: &str) -> (r: Option<String>)
    ensures
        r == field_value(fields@, key@),
{
    let mut r: Option<String> = None;
    let mut i: usize = 0;
    while i < fields.len()
        invariant
            i <= fields.len(),
            r == field_value(fields@.subrange(0, i as int), key@),
        decreases fields.len() - i,
    {
        proof {
            assert(fields@.subrange(0, i + 1).drop_last() =~= fields@.subrange(0, i as int));
        }
        if text_is(&fields[i].key, key) {
            r = copy_text(&fields[i].value);
        }
        i = i + 1;
    }
    proof {
        assert(fields@.subrange(0, i as int) =~= fields@);
    }
    r
}

/// Cents to whole units, truncating toward zero.
pub fn cents_to_units(cents: i64) -> (r: i64)
    ensures
        r == whole_units(cents as int),
{
    if cents >= 0 {
        cents / 100
    } else {
        let m: i128 = -(cents as i128);
        let q: i128 = m / 100;
        (-q) as i64
    }
}

fn matches_session(s: &SessionRecord, e: &PaymentEvent, strategy: MatchStrategy) -> (r: bool)
    ensures
        r == session_matches(*s, *e, strategy),
{
    if !s.complete {
        return false;
    }
    match strategy {
        MatchStrategy::ByAmount => same_text(&s.customer, &e.customer) && s.amount_total == Some(
            e.amount,
        ),
        MatchStrategy::ByReference => match &s.payment_ref {
            Some(r) => *r == e.id,
            None => false,
        },
    }
}

/// The session that supplies the details of payment `e`: the latest one that
/// matches it, or `None` where no session does.
pub fn choose_session(sessions: &Vec<SessionRecord>, e: &PaymentEvent, strategy: MatchStrategy) -> (r:
    Option<usize>)
    ensures
        r matches Some(c) ==> is_chosen_session(sessions@, *e, strategy, c as int),
        r is None <==> !has_session(sessions@, *e, strategy),
{
    let mut best: Option<usize> = None;
    let mut j: usize = 0;
    while j < sessions.len()
        invariant
            j <= sessions.len(),
            best matches Some(c) ==> c < j && is_chosen_session(
                sessions@.subrange(0, j as int),
                *e,
                strategy,
                c as int,
            ),
            best is None ==> forall|m: int|
                0 <= m < j ==> !session_matches(#[trigger] sessions@[m], *e, strategy),
        decreases sessions.len() - j,
    {
        let ghost pre = sessions@.subrange(0, j as int);
        let ghost post = sessions@.subrange(0, j + 1);
        if matches_session(&sessions[j], e, strategy) {
            let take = match best {
                Some(c) => sessions[j].created >= sessions[c].created,
                None => true,
            };
            if take {
                proof {
                    assert forall|m: int|
                        0 <= m < post.len() && session_matches(#[trigger] post[m], *e, strategy) implies (
                        m < j ==> post[m].created <= post[j as int].created) by {
                        if m < j {
                            assert(pre[m] == post[m]);
                        }
                    }
                }
                best = Some(j);
            } else {
                proof {
                    let c = best.unwrap() as int;
                    assert forall|m: int|
                        0 <= m < post.len() && session_matches(#[trigger] post[m], *e, strategy) implies (
                        m < c ==> post[m].created <= post[c].created) && (m > c ==> post[m].created
                            < post[c].created) by {
                        if m < j {
                            assert(pre[m] == post[m]);
                        }
                    }
                }
            }
        } else {
            proof {
                if best is Some {
                    let c = best.unwrap() as int;
                    assert forall|m: int|
                        0 <= m < post.len() && session_matches(#[trigger] post[m], *e, strategy) implies (
                        m < c ==> post[m].created <= post[c].created) && (m > c ==> post[m].created
                            < post[c].created) by {
                        if m < j {
                            assert(pre[m] == post[m]);
                        }
                    }
                }
            }
        }
        j = j + 1;
    }
    proof {
        assert(sessions@.subrange(0, j as int) =~= sessions@);
    }
    best
}

/// The donor that payment `e` yields at `now` with the details of session `s`.
pub fn donor_of_payment(e: &PaymentEvent, s: &SessionRecord, now: Timestamp) -> (r: Donor)
    ensures
        is_donor_of(r, *e, *s, now),
{
    let name = custom_field_value(&s.custom_fields, "nametolistinbevycredits");
    let link = custom_field_value(&s.custom_fields, "linktolistinbevycredits");
    let past = is_past(now, Timestamp::from_seconds(e.created));
    Donor {
        customer_id: copy_text(&e.customer),
        name,
        link,
        logo: None,
        amount: Some(cents_to_units(e.amount)),
        source: Some("stripe".to_owned()),
        style: None,
        past: Some(past),
        square_logo: None,
        logo_scale: None,
        anonymize: None,
    }
}

/// The fatal error that the payments carry, if any.
pub fn find_reconcile_error(
    events: &Vec<PaymentEvent>,
    sessions: &Vec<SessionRecord>,
    strategy: MatchStrategy,
) -> (r: Option<ReconcileError>)
    ensures
        r == reconcile_error(events@, sessions@, strategy),
{
    let mut currency = false;
    let mut payer = false;
    let mut matched = false;
    let mut i: usize = 0;
    while i < events.len()
        invariant
            i <= events.len(),
            currency == exists|m: int| 0 <= m < i && bad_currency(#[trigger] events@[m]),
            payer == exists|m: int| 0 <= m < i && missing_payer(#[trigger] events@[m]),
            matched == exists|m: int|
                0 <= m < i && unmatched(#[trigger] events@[m], sessions@, strategy),
        decreases events.len() - i,
    {
        let e = &events[i];
        if e.succeeded {
            if !text_is(&e.currency, "usd") {
                currency = true;
            }
            if e.customer.is_none() {
                payer = true;
            }
            if choose_session(sessions, e, strategy).is_none() {
                matched = true;
            }
        }
        i = i + 1;
    }
    if currency {
        Some(ReconcileError::NonBaseCurrency)
    } else if payer {
        Some(ReconcileError::MissingPayer)
    } else if matched {
        Some(ReconcileError::NoMatchingSession)
    } else {
        None
    }
}

/// The first `n` payments are summed up in `ds`: one slot per customer,
/// where slot `k` holds the donor of payment `own[k]`, that customer's latest.
pub open spec fn slots_hold(
    es: Seq<PaymentEvent>,
    ss: Seq<SessionRecord>,
    strategy: MatchStrategy,
    now: Timestamp,
    n: int,
    ds: Seq<Donor>,
    own: Seq<usize>,
) -> bool {
    &&& own.len() == ds.len()
    &&& forall|k: int| 0 <= k < ds.len() ==> is_latest_payment(es, n, #[trigger] own[k] as int)
    &&& forall|k: int|
        0 <= k < ds.len() ==> #[trigger] slot_donor(ds[k], es[own[k] as int], ss, strategy, now)
    &&& forall|m: int|
        0 <= m < n && (#[trigger] es[m]).succeeded ==> exists|k: int|
            0 <= k < ds.len() && same_payer(es[#[trigger] own[k] as int], es[m])
    &&& forall|k1: int, k2: int|
        0 <= k1 < k2 < ds.len() ==> !same_payer(es[#[trigger] own[k1] as int], es[#[trigger] own[k2] as int])
}

/// Every successful payment has a customer and a session.
pub open spec fn payments_sound(es: Seq<PaymentEvent>, ss: Seq<SessionRecord>, strategy: MatchStrategy) -> bool {
    forall|m: int| 0 <= m < es.len() && (#[trigger] es[m]).succeeded ==> es[m].customer is Some
        && has_session(ss, es[m], strategy)
}

proof fn lemma_sound_without_error(es: Seq<PaymentEvent>, ss: Seq<SessionRecord>, strategy: MatchStrategy)
    requires
        reconcile_error(es, ss, strategy) is None,
    ensures
        payments_sound(es, ss, strategy),
{
    assert forall|m: int| 0 <= m < es.len() && (#[trigger] es[m]).succeeded implies es[m].customer is Some
        && has_session(ss, es[m], strategy) by {
        if es[m].customer is None {
            assert(missing_payer(es[m]));
        }
        if !has_session(ss, es[m], strategy) {
            assert(unmatched(es[m], ss, strategy));
        }
    }
}

proof fn lemma_slots_reconciled(
    es: Seq<PaymentEvent>,
    ss: Seq<SessionRecord>,
    strategy: MatchStrategy,
    now: Timestamp,
    ds: Seq<Donor>,
    own: Seq<usize>,
)
    requires
        slots_hold(es, ss, strategy, now, es.len() as int, ds, own),
    ensures
        is_reconciled(ds, es, ss, strategy, now),
{
    assert forall|k: int| 0 <= k < ds.len() implies #[trigger] donor_from_latest(ds[k], es, ss, strategy, now) by {
        assert(is_latest_payment(es, es.len() as int, own[k] as int));
        assert(slot_donor(ds[k], es[own[k] as int], ss, strategy, now));
    }
    assert forall|m: int| 0 <= m < es.len() && (#[trigger] es[m]).succeeded implies exists|k: int|
        0 <= k < ds.len() && names(#[trigger] ds[k].customer_id, es[m].customer.unwrap()@) by {
        let q = choose|q: int| 0 <= q < ds.len() && same_payer(es[#[trigger] own[q] as int], es[m]);
        assert(is_latest_payment(es, es.len() as int, own[q] as int));
        assert(slot_donor(ds[q], es[own[q] as int], ss, strategy, now));
        assert(names(ds[q].customer_id, es[m].customer.unwrap()@));
    }
    assert forall|k1: int, k2: int| 0 <= k1 < k2 < ds.len() implies !(#[trigger] ds[k1].customer_id is Some
        && names(#[trigger] ds[k2].customer_id, ds[k1].customer_id.unwrap()@)) by {
        assert(!same_payer(es[own[k1] as int], es[own[k2] as int]));
        assert(is_latest_payment(es, es.len() as int, own[k1] as int));
        assert(is_latest_payment(es, es.len() as int, own[k2] as int));
        assert(slot_donor(ds[k1], es[own[k1] as int], ss, strategy, now));
        assert(slot_donor(ds[k2], es[own[k2] as int], ss, strategy, now));
    }
}

/// The slot that already holds the customer of payment `i`, if any.
fn find_slot(events: &Vec<PaymentEvent>, owners: &Vec<usize>, i: usize) -> (r: Option<usize>)
    requires
        i < events@.len(),
        forall|q: int| 0 <= q < owners@.len() ==> #[trigger] owners@[q] < i,
    ensures
        r matches Some(k) ==> k < owners@.len() && same_payer(events@[owners@[k as int] as int], events@[i as int]),
        r is None ==> forall|q: int|
            0 <= q < owners@.len() ==> !same_payer(events@[#[trigger] owners@[q] as int], events@[i as int]),
{
    let mut k: usize = 0;
    while k < owners.len()
        invariant
            k <= owners@.len(),
            i < events@.len(),
            forall|q: int| 0 <= q < owners@.len() ==> #[trigger] owners@[q] < i,
            forall|q: int| 0 <= q < k ==> !same_payer(events@[#[trigger] owners@[q] as int], events@[i as int]),
        decreases owners@.len() - k,
    {
        if same_text(&events[owners[k]].customer, &events[i].customer) {
            return Some(k);
        }
        k = k + 1;
    }
    None
}

/// Takes payment `i` into the slots.
fn absorb_payment(
    events: &Vec<PaymentEvent>,
    sessions: &Vec<SessionRecord>,
    strategy: MatchStrategy,
    now: Timestamp,
    i: usize,
    out: &mut Vec<Donor>,
    owners: &mut Vec<usize>,
)
    requires
        i < events@.len(),
        payments_sound(events@, sessions@, strategy),
        slots_hold(events@, sessions@, strategy, now, i as int, old(out)@, old(owners)@),
    ensures
        slots_hold(events@, sessions@, strategy, now, i + 1, final(out)@, final(owners)@),
{
    let ghost es = events@;
    let ghost ss = sessions@;
    let ghost ii = i as int;
    let ghost out0 = out@;
    let ghost own0 = owners@;
    assert forall|q: int| 0 <= q < owners@.len() implies #[trigger] owners@[q] < i by {
        assert(is_latest_payment(es, ii, own0[q] as int));
    }
    if !events[i].succeeded {
        assert forall|q: int| 0 <= q < out@.len() implies is_latest_payment(
            es,
            ii + 1,
            #[trigger] owners@[q] as int,
        ) by {
            assert(is_latest_payment(es, ii, owners@[q] as int));
        }
        assert(out@ == out0 && owners@ == own0);
        assert(slots_hold(es, ss, strategy, now, ii + 1, out@, owners@));
        return;
    }
    let c = choose_session(sessions, &events[i], strategy).unwrap();
    let d = donor_of_payment(&events[i], &sessions[c], now);
    match find_slot(events, owners, i) {
        Some(k) => {
            let ghost o = own0[k as int] as int;
            assert(is_latest_payment(es, ii, o));
            if events[i].created >= events[owners[k]].created {
                out.set(k, d);
                owners.set(k, i);
                assert forall|j: int|
                    0 <= j < ii + 1 && (#[trigger] es[j]).succeeded && same_payer(es[j], es[ii]) implies (j
                    < ii ==> es[j].created <= es[ii].created) by {
                    if j < ii {
                        assert(same_payer(es[j], es[o]));
                    }
                }
                assert(is_latest_payment(es, ii + 1, ii));
            } else {
                assert forall|j: int|
                    0 <= j < ii + 1 && (#[trigger] es[j]).succeeded && same_payer(es[j], es[o]) implies (j < o
                        ==> es[j].created <= es[o].created) && (j > o ==> es[j].created < es[o].created) by {}
                assert(is_latest_payment(es, ii + 1, o));
            }
            assert forall|q: int| 0 <= q < out@.len() && q != k implies is_latest_payment(
                es,
                ii + 1,
                #[trigger] owners@[q] as int,
            ) by {
                let oq = owners@[q] as int;
                assert(oq == own0[q]);
                assert(is_latest_payment(es, ii, oq));
                if q < k {
                    assert(!same_payer(es[own0[q] as int], es[own0[k as int] as int]));
                } else {
                    assert(!same_payer(es[own0[k as int] as int], es[own0[q] as int]));
                }
                assert(!same_payer(es[ii], es[oq]));
            }
            assert forall|k1: int, k2: int| 0 <= k1 < k2 < out@.len() implies !same_payer(
                es[#[trigger] owners@[k1] as int],
                es[#[trigger] owners@[k2] as int],
            ) by {
                assert(!same_payer(es[own0[k1] as int], es[own0[k2] as int]));
            }
            assert forall|m: int| 0 <= m < ii + 1 && (#[trigger] es[m]).succeeded implies exists|q: int|
                0 <= q < out@.len() && same_payer(es[#[trigger] owners@[q] as int], es[m]) by {
                if m < ii {
                    let q = choose|q: int| 0 <= q < out0.len() && same_payer(es[#[trigger] own0[q] as int], es[m]);
                    assert(same_payer(es[owners@[q] as int], es[m]));
                } else {
                    assert(same_payer(es[owners@[k as int] as int], es[m]));
                }
            }
            assert forall|q: int| 0 <= q < out@.len() implies #[trigger] slot_donor(
                out@[q],
                es[owners@[q] as int],
                ss,
                strategy,
                now,
            ) by {
                if q == k && owners@[q] == i {
                    assert(is_chosen_session(ss, es[ii], strategy, c as int));
                } else {
                    assert(out@[q] == out0[q]);
                    assert(slot_donor(out0[q], es[own0[q] as int], ss, strategy, now));
                }
            }
        },
        None => {
            out.push(d);
            owners.push(i);
            let ghost n = out0.len() as int;
            assert forall|j: int|
                0 <= j < ii + 1 && (#[trigger] es[j]).succeeded && same_payer(es[j], es[ii]) implies (j < ii
                ==> es[j].created <= es[ii].created) by {
                if j < ii {
                    let q = choose|q: int| 0 <= q < out0.len() && same_payer(es[#[trigger] own0[q] as int], es[j]);
                    assert(same_payer(es[own0[q] as int], es[ii]));
                }
            }
            assert(is_latest_payment(es, ii + 1, ii));
            assert forall|q: int| 0 <= q < out@.len() implies is_latest_payment(
                es,
                ii + 1,
                #[trigger] owners@[q] as int,
            ) by {
                if q < n {
                    assert(owners@[q] == own0[q]);
                    assert(is_latest_payment(es, ii, own0[q] as int));
                    assert(!same_payer(es[own0[q] as int], es[ii]));
                }
            }
            assert forall|k1: int, k2: int| 0 <= k1 < k2 < out@.len() implies !same_payer(
                es[#[trigger] owners@[k1] as int],
                es[#[trigger] owners@[k2] as int],
            ) by {
                if k2 < n {
                    assert(!same_payer(es[own0[k1] as int], es[own0[k2] as int]));
                } else {
                    assert(!same_payer(es[own0[k1] as int], es[ii]));
                }
            }
            assert forall|m: int| 0 <= m < ii + 1 && (#[trigger] es[m]).succeeded implies exists|q: int|
                0 <= q < out@.len() && same_payer(es[#[trigger] owners@[q] as int], es[m]) by {
                if m < ii {
                    let q = choose|q: int| 0 <= q < out0.len() && same_payer(es[#[trigger] own0[q] as int], es[m]);
                    assert(same_payer(es[owners@[q] as int], es[m]));
                } else {
                    assert(same_payer(es[owners@[n] as int], es[m]));
                }
            }
            assert forall|q: int| 0 <= q < out@.len() implies #[trigger] slot_donor(
                out@[q],
                es[owners@[q] as int],
                ss,
                strategy,
                now,
            ) by {
                if q == n {
                    assert(is_chosen_session(ss, es[ii], strategy, c as int));
                } else {
                    assert(out@[q] == out0[q]);
                    assert(slot_donor(out0[q], es[own0[q] as int], ss, strategy, now));
                }
            }
        },
    }
}

/// Donors of the card processor: for each customer with a successful
/// payment, one donor built from their latest payment and the session chosen
/// for it by `strategy`. Fails, producing nothing, where a successful payment
/// is in a foreign currency, has no customer or has no session.
pub fn stripe_donors(
    events: &Vec<PaymentEvent>,
    sessions: &Vec<SessionRecord>,
    strategy: MatchStrategy,
    now: Timestamp,
) -> (r: Result<Vec<Donor>, ReconcileError>)
    ensures
        r is Err <==> reconcile_error(events@, sessions@, strategy) is Some,
        r matches Err(err) ==> reconcile_error(events@, sessions@, strategy) == Some(err),
        r matches Ok(ds) ==> is_reconciled(ds@, events@, sessions@, strategy, now),
{
    if let Some(err) = find_reconcile_error(events, sessions, strategy) {
        return Err(err);
    }
    proof {
        lemma_sound_without_error(events@, sessions@, strategy);
    }
    let mut out: Vec<Donor> = Vec::new();
    let mut owners: Vec<usize> = Vec::new();
    let mut i: usize = 0;
    while i < events.len()
        invariant
            i <= events@.len(),
            payments_sound(events@, sessions@, strategy),
            slots_hold(events@, sessions@, strategy, now, i as int, out@, owners@),
        decreases events.len() - i,
    {
        absorb_payment(events, sessions, strategy, now, i, &mut out, &mut owners);
        i = i + 1;
    }
    proof {
        lemma_slots_reconciled(events@, sessions@, strategy, now, out@, owners@);
    }
    Ok(out)
}

/// No two different successful payments of one customer were created at the
/// same second.
pub open spec fn no_payment_ties(es: Seq<PaymentEvent>) -> bool {
    forall|i: int, j: int|
        0 <= i < es.len() && 0 <= j < es.len() && (#[trigger] es[i]).succeeded && (#[trigger] es[j]).succeeded
            && same_payer(es[i], es[j]) && es[i].created == es[j].created ==> es[i] == es[j]
}

/// No two different complete sessions were created at the same second.
pub open spec fn no_session_ties(ss: Seq<SessionRecord>) -> bool {
    forall|i: int, j: int|
        0 <= i < ss.len() && 0 <= j < ss.len() && (#[trigger] ss[i]).complete && (#[trigger] ss[j]).complete
            && ss[i].created == ss[j].created ==> ss[i] == ss[j]
}

/// Donors `d1` and `d2` are built from the same payment and the same session.
pub open spec fn built_alike(d1: Donor, d2: Donor, now: Timestamp) -> bool {
    exists|e: PaymentEvent, s: SessionRecord| is_donor_of(d1, e, s, now) && is_donor_of(d2, e, s, now)
}

/// Some donor of `ds` is built alike to `d`.
pub open spec fn has_alike(d: Donor, ds: Seq<Donor>, now: Timestamp) -> bool {
    exists|k: int| 0 <= k < ds.len() && #[trigger] built_alike(d, ds[k], now)
}

proof fn lemma_same_latest(
    es1: Seq<PaymentEvent>,
    es2: Seq<PaymentEvent>,
    i1: int,
    i2: int,
)
    requires
        forall|e: PaymentEvent| es1.contains(e) <==> es2.contains(e),
        no_payment_ties(es1),
        is_latest_payment(es1, es1.len() as int, i1),
        is_latest_payment(es2, es2.len() as int, i2),
        same_payer(es1[i1], es2[i2]),
    ensures
        es1[i1] == es2[i2],
{
    let e1 = es1[i1];
    let e2 = es2[i2];
    assert(es1.contains(e1));
    assert(es2.contains(e1));
    let j2 = choose|j: int| 0 <= j < es2.len() && es2[j] == e1;
    assert(es2.contains(e2));
    assert(es1.contains(e2));
    let j1 = choose|j: int| 0 <= j < es1.len() && es1[j] == e2;
    assert(same_payer(es1[j1], es1[i1]));
    assert(es1[j1].created <= e1.created);
    assert(same_payer(es2[j2], es2[i2]));
    assert(es2[j2].created <= e2.created);
    assert(es1[j1].created == es1[i1].created);
}

proof fn lemma_same_session(
    ss1: Seq<SessionRecord>,
    ss2: Seq<SessionRecord>,
    e: PaymentEvent,
    strategy: MatchStrategy,
    c1: int,
    c2: int,
)
    requires
        forall|s: SessionRecord| ss1.contains(s) <==> ss2.contains(s),
        no_session_ties(ss1),
        is_chosen_session(ss1, e, strategy, c1),
        is_chosen_session(ss2, e, strategy, c2),
    ensures
        ss1[c1] == ss2[c2],
{
    let s1 = ss1[c1];
    let s2 = ss2[c2];
    assert(ss1.contains(s1));
    assert(ss2.contains(s1));
    let j2 = choose|j: int| 0 <= j < ss2.len() && ss2[j] == s1;
    assert(ss2.contains(s2));
    assert(ss1.contains(s2));
    let j1 = choose|j: int| 0 <= j < ss1.len() && ss1[j] == s2;
    assert(session_matches(ss1[j1], e, strategy));
    assert(ss1[j1].created <= s1.created);
    assert(session_matches(ss2[j2], e, strategy));
    assert(ss2[j2].created <= s2.created);
}

/// Reconciliation does not depend on the order of its inputs: runs over the
/// same payments and sessions, listed in any order, yield donors built alike,
/// where no two different successful payments of one customer, and no two
/// different complete sessions, were created at the same second.
pub proof fn lemma_order_independent(
    ds1: Seq<Donor>,
    es1: Seq<PaymentEvent>,
    ss1: Seq<SessionRecord>,
    ds2: Seq<Donor>,
    es2: Seq<PaymentEvent>,
    ss2: Seq<SessionRecord>,
    strategy: MatchStrategy,
    now: Timestamp,
)
    requires
        is_reconciled(ds1, es1, ss1, strategy, now),
        is_reconciled(ds2, es2, ss2, strategy, now),
        forall|e: PaymentEvent| es1.contains(e) <==> es2.contains(e),
        forall|s: SessionRecord| ss1.contains(s) <==> ss2.contains(s),
        no_payment_ties(es1),
        no_session_ties(ss1),
    ensures
        forall|k1: int| 0 <= k1 < ds1.len() ==> #[trigger] has_alike(ds1[k1], ds2, now),
{
    assert forall|k1: int| 0 <= k1 < ds1.len() implies #[trigger] has_alike(ds1[k1], ds2, now) by {
        assert(donor_from_latest(ds1[k1], es1, ss1, strategy, now));
        let i1 = choose|i: int|
            is_latest_payment(es1, es1.len() as int, i) && slot_donor(ds1[k1], es1[i], ss1, strategy, now);
        let e = es1[i1];
        let c1 = choose|c: int| is_chosen_session(ss1, e, strategy, c) && is_donor_of(ds1[k1], e, ss1[c], now);
        assert(es1.contains(e));
        let j = choose|j: int| 0 <= j < es2.len() && es2[j] == e;
        assert(es2[j].succeeded);
        let k2 = choose|k: int| 0 <= k < ds2.len() && names(#[trigger] ds2[k].customer_id, es2[j].customer.unwrap()@);
        assert(donor_from_latest(ds2[k2], es2, ss2, strategy, now));
        let i2 = choose|i: int|
            is_latest_payment(es2, es2.len() as int, i) && slot_donor(ds2[k2], es2[i], ss2, strategy, now);
        let c2 = choose|c: int|
            is_chosen_session(ss2, es2[i2], strategy, c) && is_donor_of(ds2[k2], es2[i2], ss2[c], now);
        assert(same_payer(es1[i1], es2[i2]));
        lemma_same_latest(es1, es2, i1, i2);
        lemma_same_session(ss1, ss2, e, strategy, c1, c2);
        assert(is_donor_of(ds1[k1], e, ss1[c1], now) && is_donor_of(ds2[k2], e, ss1[c1], now));
        assert(built_alike(ds1[k1], ds2[k2], now));
    }
}

} // verus!
