use vstd::prelude::*;
use crate::donor::Donor;

verus! {

/// A monthly amount from which a donor counts as a sponsor, in whole units.
pub const SPONSOR_THRESHOLD: i64 = 500;

/// Membership figures over a list of donors.
#[derive(Clone, Copy, Debug, PartialEq, Eq, Structural)]
pub struct Metrics {
    /// The sum of the amounts of the donors that count.
    pub monthly_dollars: i128,
    /// Donors that count with an amount of at least the threshold.
    pub sponsors: usize,
    /// Donors that count with an amount under the threshold.
    pub members: usize,
}

/// A donor counts where it is not known to be past and has an amount.
pub open spec fn counts(d: Donor) -> bool {
    d.past != Some(true) && d.amount is Some
}

pub open spec fn is_sponsor(d: Donor) -> bool {
    counts(d) && d.amount.unwrap() >= SPONSOR_THRESHOLD
}

pub open spec fn is_member(d: Donor) -> bool {
    counts(d) && d.amount.unwrap() < SPONSOR_THRESHOLD
}

/// The sum of the amounts of the donors that count.
pub open spec fn total(ds: Seq<Donor>) -> int
    decreases ds.len(),
{
    if ds.len() == 0 {
        0
    } else {
        total(ds.drop_last()) + if counts(ds.last()) {
            ds.last().amount.unwrap() as int
        } else {
            0
        }
    }
}

/// How many donors satisfy `p`.
pub open spec fn count_of(ds: Seq<Donor>, p: spec_fn(Donor) -> bool) -> int
    decreases ds.len(),
{
    if ds.len() == 0 {
        0
    } else {
        count_of(ds.drop_last(), p) + if p(ds.last()) {
            1int
        } else {
            0
        }
    }
}

/// The sum of the amounts of the donors known to be active.
pub open spec fn active_total(ds: Seq<Donor>) -> int
    decreases ds.len(),
{
    if ds.len() == 0 {
        0
    } else {
        active_total(ds.drop_last()) + if ds.last().past == Some(false) && ds.last().amount is Some {
            ds.last().amount.unwrap() as int
        } else {
            0
        }
    }
}

pub open spec fn is_active_payer(d: Donor) -> bool {
    d.past == Some(false) && d.amount is Some
}

/// The figures of `donors`: the sum of the amounts of the donors that count,
/// and how many of them are sponsors and how many members.
pub fn compute_metrics(donors: &Vec<Donor>) -> (m: Metrics)
    ensures
        m.monthly_dollars == total(donors@),
        m.sponsors == count_of(donors@, |d: Donor| is_sponsor(d)),
        m.members == count_of(donors@, |d: Donor| is_member(d)),
{
    let mut metrics = Metrics { monthly_dollars: 0, sponsors: 0, members: 0 };
    let mut i: usize = 0;
    while i < donors.len()
        invariant
            i <= donors@.len(),
            metrics.monthly_dollars == total(donors@.subrange(0, i as int)),
            metrics.sponsors == count_of(donors@.subrange(0, i as int), |d: Donor| is_sponsor(d)),
            metrics.members == count_of(donors@.subrange(0, i as int), |d: Donor| is_member(d)),
            metrics.sponsors + metrics.members <= i,
            -(i * 0x8000_0000_0000_0000) <= metrics.monthly_dollars <= i * 0x8000_0000_0000_0000,
        decreases donors@.len() - i,
    {
        proof {
            assert(donors@.subrange(0, i + 1).drop_last() =~= donors@.subrange(0, i as int));
        }
        let d = &donors[i];
        if d.past != Some(true) {
            if let Some(amount) = d.amount {
                metrics.monthly_dollars = metrics.monthly_dollars + amount as i128;
                if amount >= SPONSOR_THRESHOLD {
                    metrics.sponsors = metrics.sponsors + 1;
                } else {
                    metrics.members = metrics.members + 1;
                }
            }
        }
        i = i + 1;
    }
    proof {
        assert(donors@.subrange(0, i as int) =~= donors@);
    }
    metrics
}

/// Every donor that counts is a sponsor or a member, never both.
pub proof fn lemma_sponsor_member_partition(ds: Seq<Donor>)
    ensures
        count_of(ds, |d: Donor| is_sponsor(d)) + count_of(ds, |d: Donor| is_member(d)) == count_of(
            ds,
            |d: Donor| counts(d),
        ),
    decreases ds.len(),
{
    if ds.len() > 0 {
        lemma_sponsor_member_partition(ds.drop_last());
    }
}

/// Where every donor has been classified, the total is the sum of the amounts
/// of the donors known to be active, and each of them is counted once, as a
/// sponsor or as a member.
pub proof fn lemma_total_of_active(ds: Seq<Donor>)
    requires
        forall|k: int| 0 <= k < ds.len() ==> (#[trigger] ds[k]).past is Some,
    ensures
        total(ds) == active_total(ds),
        count_of(ds, |d: Donor| is_sponsor(d)) + count_of(ds, |d: Donor| is_member(d)) == count_of(
            ds,
            |d: Donor| is_active_payer(d),
        ),
    decreases ds.len(),
{
    if ds.len() > 0 {
        let p = ds.drop_last();
        assert forall|k: int| 0 <= k < p.len() implies (#[trigger] p[k]).past is Some by {
            assert(p[k] == ds[k]);
        }
        assert(ds.last() == ds[ds.len() - 1]);
        assert(ds[ds.len() - 1].past is Some);
        let d = ds.last();
        lemma_total_of_active(p);
        assert(d.past is Some);
        assert(d.past == Some(false) || d.past == Some(true)) by {
            if d.past.unwrap() {
                assert(d.past == Some(true));
            } else {
                assert(d.past == Some(false));
            }
        }
        assert(counts(d) == is_active_payer(d));
        assert(total(ds) == total(p) + if counts(d) {
            d.amount.unwrap() as int
        } else {
            0
        });
        assert(active_total(ds) == active_total(p) + if is_active_payer(d) {
            d.amount.unwrap() as int
        } else {
            0
        });
    }
}

} // verus!
