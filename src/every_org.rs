use vstd::prelude::*;
use crate::donor::{copy_text, Donor};
use crate::reconcile::names;
use crate::recency::{active_window, is_past_recurring, Timestamp};

verus! {

/// The fields of one row of the donation platform's export that donors are
/// built from.
#[derive(Debug)]
pub struct EveryOrgRow {
    pub donor_id: Option<String>,
    pub name: Option<String>,
    /// The amount as written in the export.
    pub amount: Option<String>,
    /// The amount text read as a decimal number and truncated to whole units;
    /// `None` where it does not read as a number.
    pub amount_units: Option<i64>,
    pub public_supporter: Option<String>,
    pub recurring_donation_status: Option<String>,
    /// Date of the last donation, month/day/year.
    pub last_donation: Option<String>,
}

/// Why a row yields no donor.
#[derive(Clone, Copy, Debug, PartialEq, Eq, Structural)]
pub enum EveryOrgToDonorError {
    /// The donor did not agree to be listed.
    PrivateSupporter,
    /// The row has no amount.
    NoAmount,
    /// The amount is not a number.
    ParseAmountError,
}

/// What happens to a row whose donor did not agree to be listed.
#[derive(Clone, Copy, Debug, PartialEq, Eq, Structural)]
pub enum ConsentPolicy {
    /// The row yields no donor.
    Drop,
    /// The row yields a donor without name and amount.
    Redact,
}

/// The export as the platform's API returns it: rows of cells.
#[derive(Debug)]
pub struct CsvData {
    pub ok: Vec<Vec<String>>,
    pub error: Vec<Vec<String>>,
}

pub open spec fn source_label() -> Seq<char> {
    "every.org"@
}

pub open spec fn id_prefix() -> Seq<char> {
    "every.org:"@
}

pub open spec fn date_format() -> Seq<char> {
    "%m/%d/%Y"@
}

/// The start (midnight UTC, in seconds since the epoch) of the day that
/// `text` gives in the strftime-style `format`; `None` where it gives none.
pub uninterp spec fn day_start(text: Seq<char>, format: Seq<char>) -> Option<i64>;

/// Relies on chrono's `NaiveDate::parse_from_str` to read a date in a given
/// format, and on `NaiveDateTime::and_utc` and `DateTime::timestamp` for the
/// second at which that day starts in UTC.
#[verifier::external_body]
fn parse_day(text: &str, format: &str) -> (r: Option<i64>)
    ensures
        r == day_start(text@, format@),
{
    match chrono::NaiveDate::parse_from_str(text, format) {
        Ok(day) => Some(day.and_time(chrono::NaiveTime::MIN).and_utc().timestamp()),
        Err(_) => None,
    }
}

/// A cell with every comma turned into a space.
pub open spec fn cell_text(s: Seq<char>) -> Seq<char> {
    s.map_values(|c: char| if c == ',' { ' ' } else { c })
}

/// Relies on `str::replace`: every comma replaced by a space.
#[verifier::external_body]
fn replace_commas(s: &str) -> (r: String)
    ensures
        r@ == cell_text(s@),
{
    s.replace(',', " ")
}

/// Whether the text is present and not empty.
pub open spec fn filled(o: Option<String>) -> bool {
    o is Some && o.unwrap()@.len() > 0
}

/// The text where it is present and not empty.
pub open spec fn filled_text(o: Option<String>) -> Option<String> {
    if filled(o) {
        o
    } else {
        None
    }
}

/// The donor agreed to be listed.
pub open spec fn consents(row: EveryOrgRow) -> bool {
    names(row.public_supporter, "true"@)
}

/// The reason, if any, why `row` yields no donor under `policy`.
pub open spec fn row_error(row: EveryOrgRow, policy: ConsentPolicy) -> Option<EveryOrgToDonorError> {
    if !consents(row) {
        if policy == ConsentPolicy::Drop {
            Some(EveryOrgToDonorError::PrivateSupporter)
        } else {
            None
        }
    } else if !filled(row.amount) {
        if policy == ConsentPolicy::Drop {
            Some(EveryOrgToDonorError::NoAmount)
        } else {
            None
        }
    } else if row.amount_units is None {
        Some(EveryOrgToDonorError::ParseAmountError)
    } else {
        None
    }
}

/// Donor `d` is what `row` yields, before its recency is known: the donor id
/// namespaced by the platform, and name and amount only where the donor
/// agreed to be listed.
pub open spec fn is_row_donor(d: Donor, row: EveryOrgRow) -> bool {
    &&& if filled(row.donor_id) {
        d.customer_id is Some && d.customer_id.unwrap()@ == id_prefix() + row.donor_id.unwrap()@
    } else {
        d.customer_id is None
    }
    &&& names(d.source, source_label())
    &&& if consents(row) {
        d.name == filled_text(row.name) && d.amount == (if filled(row.amount) {
            row.amount_units
        } else {
            None
        })
    } else {
        d.name is None && d.amount is None
    }
    &&& d.link is None && d.logo is None && d.style is None && d.square_logo is None
    &&& d.logo_scale is None && d.anonymize is None
}

/// Whether the donor of `row` is past at `now`: never while a recurring
/// donation is active; otherwise where the last donation is more than the
/// active window ago, or its date does not read.
pub open spec fn row_is_past(row: EveryOrgRow, now: Timestamp) -> bool {
    !names(row.recurring_donation_status, "Active"@) && match day_start(
        if row.last_donation is Some {
            row.last_donation.unwrap()@
        } else {
            Seq::empty()
        },
        date_format(),
    ) {
        Some(t) => now.instant() - Timestamp { seconds: t, nanos: 0 }.instant() > active_window(),
        None => true,
    }
}

/// `ds` is what the rows yield at `now`, in order: one donor for each row
/// without error, classified.
pub open spec fn rows_yield(ds: Seq<Donor>, rows: Seq<EveryOrgRow>, policy: ConsentPolicy, now: Timestamp) -> bool
    decreases rows.len(),
{
    if rows.len() == 0 {
        ds.len() == 0
    } else if row_error(rows.last(), policy) is Some {
        rows_yield(ds, rows.drop_last(), policy, now)
    } else {
        &&& ds.len() > 0
        &&& rows_yield(ds.drop_last(), rows.drop_last(), policy, now)
        &&& is_row_donor(ds.last(), rows.last())
        &&& ds.last().past == Some(row_is_past(rows.last(), now))
    }
}

/// The text of one row of the export: each cell followed by a comma.
pub open spec fn row_text(cells: Seq<String>) -> Seq<char>
    decreases cells.len(),
{
    if cells.len() == 0 {
        Seq::empty()
    } else {
        row_text(cells.drop_last()) + cell_text(cells.last()@) + ","@
    }
}

/// The text of the export: each row followed by a line break.
pub open spec fn csv_text(rows: Seq<Vec<String>>) -> Seq<char>
    decreases rows.len(),
{
    if rows.len() == 0 {
        Seq::empty()
    } else {
        csv_text(rows.drop_last()) + row_text(rows.last()@) + "\n"@
    }
}

fn text_is(s: &Option<String>, lit: &str) -> (r: bool)
    ensures
        r == names(*s, lit@),
{
    match s {
        Some(v) => {
            let t = lit.to_owned();
            *v == t
        },
        None => false,
    }
}

fn is_filled(s: &Option<String>) -> (r: bool)
    ensures
        r == filled(*s),
{
    match s {
        Some(v) => !v.as_str().is_empty(),
        None => false,
    }
}

impl CsvData {
    /// The rows that the export holds, as CSV text. A comma inside a cell
    /// would split it, so it becomes a space.
    pub fn rebuild_csv(&self) -> (r: String)
        ensures
            r@ == csv_text(self.ok@),
    {
        let mut csv = String::new();
        let mut i: usize = 0;
        while i < self.ok.len()
            invariant
                i <= self.ok@.len(),
                csv@ == csv_text(self.ok@.subrange(0, i as int)),
            decreases self.ok@.len() - i,
        {
            let row = &self.ok[i];
            let ghost before = csv@;
            let mut j: usize = 0;
            while j < row.len()
                invariant
                    j <= row@.len(),
                    csv@ == before + row_text(row@.subrange(0, j as int)),
                decreases row@.len() - j,
            {
                let cell = replace_commas(row[j].as_str());
                csv.append(cell.as_str());
                csv.append(",");
                proof {
                    assert(row@.subrange(0, j + 1).drop_last() =~= row@.subrange(0, j as int));
                    assert(csv@ =~= before + row_text(row@.subrange(0, j + 1)));
                }
                j = j + 1;
            }
            csv.append("\n");
            proof {
                assert(row@.subrange(0, j as int) =~= row@);
                assert(self.ok@.subrange(0, i + 1).drop_last() =~= self.ok@.subrange(0, i as int));
                assert(csv@ =~= csv_text(self.ok@.subrange(0, i + 1)));
            }
            i = i + 1;
        }
        proof {
            assert(self.ok@.subrange(0, i as int) =~= self.ok@);
        }
        csv
    }
}

impl Donor {
    /// The donor that a row of the donation platform yields, before its
    /// recency is known, or why it yields none.
    pub fn from_every_org_row(row: &EveryOrgRow, policy: ConsentPolicy) -> (r: Result<Donor, EveryOrgToDonorError>)
        ensures
            r is Err <==> row_error(*row, policy) is Some,
            r matches Err(e) ==> row_error(*row, policy) == Some(e),
            r matches Ok(d) ==> is_row_donor(d, *row) && d.past is None,
    {
        let consent = text_is(&row.public_supporter, "true");
        let has_amount = is_filled(&row.amount);
        if !consent && policy == ConsentPolicy::Drop {
            return Err(EveryOrgToDonorError::PrivateSupporter);
        }
        if consent && !has_amount && policy == ConsentPolicy::Drop {
            return Err(EveryOrgToDonorError::NoAmount);
        }
        if consent && has_amount && row.amount_units.is_none() {
            return Err(EveryOrgToDonorError::ParseAmountError);
        }
        let customer_id = match &row.donor_id {
            Some(v) => {
                if v.as_str().is_empty() {
                    None
                } else {
                    let prefix = "every.org:".to_owned();
                    Some(prefix.concat(v.as_str()))
                }
            },
            None => None,
        };
        let name = if consent && is_filled(&row.name) {
            copy_text(&row.name)
        } else {
            None
        };
        let amount = if consent && has_amount {
            row.amount_units
        } else {
            None
        };
        Ok(
            Donor {
                customer_id,
                name,
                link: None,
                logo: None,
                amount,
                source: Some("every.org".to_owned()),
                style: None,
                past: None,
                square_logo: None,
                logo_scale: None,
                anonymize: None,
            },
        )
    }
}

/// Whether the donor of `row` is past at `now`.
pub fn every_org_row_is_past(row: &EveryOrgRow, now: Timestamp) -> (r: bool)
    ensures
        r == row_is_past(*row, now),
{
    let active = text_is(&row.recurring_donation_status, "Active");
    let day = match &row.last_donation {
        Some(text) => parse_day(text.as_str(), "%m/%d/%Y"),
        None => {
            proof {
                reveal_strlit("");
                assert(""@ =~= Seq::<char>::empty());
            }
            parse_day("", "%m/%d/%Y")
        },
    };
    let last_payment = match day {
        Some(t) => Some(Timestamp::from_seconds(t)),
        None => None,
    };
    is_past_recurring(now, active, last_payment)
}

/// Donors of the donation platform at `now`: one for each row that yields
/// one under `policy`, in order, with its recency; rows that yield none are
/// skipped.
pub fn every_org_donors(rows: &Vec<EveryOrgRow>, policy: ConsentPolicy, now: Timestamp) -> (r: Vec<Donor>)
    ensures
        rows_yield(r@, rows@, policy, now),
{
    let mut out: Vec<Donor> = Vec::new();
    let mut i: usize = 0;
    while i < rows.len()
        invariant
            i <= rows@.len(),
            rows_yield(out@, rows@.subrange(0, i as int), policy, now),
        decreases rows@.len() - i,
    {
        let ghost before = out@;
        proof {
            assert(rows@.subrange(0, i + 1).drop_last() =~= rows@.subrange(0, i as int));
        }
        match Donor::from_every_org_row(&rows[i], policy) {
            Ok(mut donor) => {
                donor.past = Some(every_org_row_is_past(&rows[i], now));
                out.push(donor);
                proof {
                    assert(out@.drop_last() =~= before);
                }
            },
            Err(_) => {},
        }
        i = i + 1;
    }
    proof {
        assert(rows@.subrange(0, i as int) =~= rows@);
    }
    out
}

/// Donor `d` comes from one of `rows`, and shows a name or an amount only
/// where that row's donor agreed to be listed; without that agreement it
/// exists only under the redact policy.
pub open spec fn shown_with_consent(d: Donor, rows: Seq<EveryOrgRow>, policy: ConsentPolicy) -> bool {
    exists|i: int|
        0 <= i < rows.len() && is_row_donor(d, #[trigger] rows[i]) && (consents(rows[i]) || (policy
            == ConsentPolicy::Redact && d.name is None && d.amount is None))
}

/// No row whose donor did not agree to be listed gives a donor a name or an
/// amount; under the drop policy such a row gives no donor at all.
pub proof fn lemma_privacy(ds: Seq<Donor>, rows: Seq<EveryOrgRow>, policy: ConsentPolicy, now: Timestamp)
    requires
        rows_yield(ds, rows, policy, now),
    ensures
        forall|k: int| 0 <= k < ds.len() ==> #[trigger] shown_with_consent(ds[k], rows, policy),
    decreases rows.len(),
{
    if rows.len() > 0 {
        let p = rows.drop_last();
        let n = rows.len() - 1;
        if row_error(rows.last(), policy) is Some {
            lemma_privacy(ds, p, policy, now);
            assert forall|k: int| 0 <= k < ds.len() implies #[trigger] shown_with_consent(ds[k], rows, policy) by {
                assert(shown_with_consent(ds[k], p, policy));
                let i = choose|i: int|
                    0 <= i < p.len() && is_row_donor(ds[k], #[trigger] p[i]) && (consents(p[i]) || (policy
                        == ConsentPolicy::Redact && ds[k].name is None && ds[k].amount is None));
                assert(p[i] == rows[i]);
            }
        } else {
            let q = ds.drop_last();
            lemma_privacy(q, p, policy, now);
            assert forall|k: int| 0 <= k < ds.len() implies #[trigger] shown_with_consent(ds[k], rows, policy) by {
                if k < q.len() {
                    assert(ds[k] == q[k]);
                    assert(shown_with_consent(q[k], p, policy));
                    let i = choose|i: int|
                        0 <= i < p.len() && is_row_donor(q[k], #[trigger] p[i]) && (consents(p[i]) || (policy
                            == ConsentPolicy::Redact && q[k].name is None && q[k].amount is None));
                    assert(p[i] == rows[i]);
                } else {
                    assert(ds[k] == ds.last());
                    assert(rows[n] == rows.last());
                    assert(is_row_donor(ds[k], rows[n]));
                }
            }
        }
    }
}

} // verus!
