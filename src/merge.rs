use vstd::prelude::*;
use crate::donor::{copy_text, Donor};
use crate::reconcile::names;

verus! {

/// `o` where it is set, else `d`.
pub open spec fn pick<T>(o: Option<T>, d: Option<T>) -> Option<T> {
    if o is Some {
        o
    } else {
        d
    }
}

/// Donor `d` with the fields that override `o` sets written over it; the name
/// is cleared last where `o` asks for anonymity.
pub open spec fn overridden(d: Donor, o: Donor) -> Donor {
    Donor {
        customer_id: d.customer_id,
        name: if o.anonymize == Some(true) {
            None
        } else {
            pick(o.name, d.name)
        },
        link: pick(o.link, d.link),
        logo: pick(o.logo, d.logo),
        amount: pick(o.amount, d.amount),
        source: d.source,
        style: pick(o.style, d.style),
        past: d.past,
        square_logo: pick(o.square_logo, d.square_logo),
        logo_scale: pick(o.logo_scale, d.logo_scale),
        anonymize: d.anonymize,
    }
}

/// The position of the last override keyed by `id`.
pub open spec fn last_override(info: Seq<Donor>, id: Seq<char>) -> Option<int>
    decreases info.len(),
{
    if info.len() == 0 {
        None
    } else if names(info.last().customer_id, id) {
        Some(info.len() - 1)
    } else {
        last_override(info.drop_last(), id)
    }
}

/// Donor `k` is the first of the list with its customer: the one that takes
/// that customer's override.
pub open spec fn first_of_customer(c: Seq<Donor>, k: int) -> bool {
    &&& c[k].customer_id is Some
    &&& forall|q: int| 0 <= q < k ==> !names(#[trigger] c[q].customer_id, c[k].customer_id.unwrap()@)
}

/// Donor `k` of `c` after the overrides `info`.
pub open spec fn merged_at(c: Seq<Donor>, info: Seq<Donor>, k: int) -> Donor {
    if first_of_customer(c, k) {
        match last_override(info, c[k].customer_id.unwrap()@) {
            Some(j) => overridden(c[k], info[j]),
            None => c[k],
        }
    } else {
        c[k]
    }
}

/// An override without a customer that carries an amount: it is added as a
/// donor of its own.
pub open spec fn is_addition(o: Donor) -> bool {
    o.customer_id is None && o.amount is Some
}

/// The overrides that are added as donors, in order.
pub open spec fn additions(info: Seq<Donor>) -> Seq<Donor>
    decreases info.len(),
{
    if info.len() == 0 {
        Seq::empty()
    } else if is_addition(info.last()) {
        additions(info.drop_last()).push(info.last())
    } else {
        additions(info.drop_last())
    }
}

/// The donors `c` after the overrides `info`.
pub open spec fn merged(c: Seq<Donor>, info: Seq<Donor>) -> Seq<Donor> {
    Seq::new(c.len(), |k: int| merged_at(c, info, k)) + additions(info)
}

/// Writes override `o` over donor `d`.
pub fn apply_override(d: &Donor, o: &Donor) -> (r: Donor)
    ensures
        r == overridden(*d, *o),
{
    let name = if o.anonymize == Some(true) {
        None
    } else if o.name.is_some() {
        copy_text(&o.name)
    } else {
        copy_text(&d.name)
    };
    Donor {
        customer_id: copy_text(&d.customer_id),
        name,
        link: if o.link.is_some() {
            copy_text(&o.link)
        } else {
            copy_text(&d.link)
        },
        logo: if o.logo.is_some() {
            copy_text(&o.logo)
        } else {
            copy_text(&d.logo)
        },
        amount: if o.amount.is_some() {
            o.amount
        } else {
            d.amount
        },
        source: copy_text(&d.source),
        style: if o.style.is_some() {
            copy_text(&o.style)
        } else {
            copy_text(&d.style)
        },
        past: d.past,
        square_logo: if o.square_logo.is_some() {
            o.square_logo
        } else {
            d.square_logo
        },
        logo_scale: if o.logo_scale.is_some() {
            o.logo_scale
        } else {
            d.logo_scale
        },
        anonymize: d.anonymize,
    }
}

/// The position of the last override keyed by `id`.
pub fn find_override(info: &Vec<Donor>, id: &String) -> (r: Option<usize>)
    ensures
        r matches Some(j) ==> j < info@.len() && last_override(info@, id@) == Some(j as int),
        r is None ==> last_override(info@, id@) is None,
{
    let mut r: Option<usize> = None;
    let mut i: usize = 0;
    while i < info.len()
        invariant
            i <= info@.len(),
            r matches Some(j) ==> j < i && last_override(info@.subrange(0, i as int), id@) == Some(j as int),
            r is None ==> last_override(info@.subrange(0, i as int), id@) is None,
        decreases info.len() - i,
    {
        proof {
            assert(info@.subrange(0, i + 1).drop_last() =~= info@.subrange(0, i as int));
        }
        if let Some(x) = &info[i].customer_id {
            if *x == *id {
                r = Some(i);
            }
        }
        i = i + 1;
    }
    proof {
        assert(info@.subrange(0, i as int) =~= info@);
    }
    r
}

fn is_first_of_customer(donors: &Vec<Donor>, k: usize) -> (r: bool)
    requires
        k < donors@.len(),
    ensures
        r == first_of_customer(donors@, k as int),
{
    let id = match &donors[k].customer_id {
        Some(id) => id,
        None => return false,
    };
    let mut q: usize = 0;
    while q < k
        invariant
            q <= k < donors@.len(),
            donors@[k as int].customer_id == Some(*id),
            forall|p: int| 0 <= p < q ==> !names(#[trigger] donors@[p].customer_id, id@),
        decreases k - q,
    {
        if let Some(x) = &donors[q].customer_id {
            if *x == *id {
                return false;
            }
        }
        q = q + 1;
    }
    true
}

/// Applies the hand-written `donor_info` to `donors`: an override keyed by a
/// customer is written over the first donor of that customer (the last such
/// override wins, and one matching no donor is dropped); an override without
/// a customer is appended as a donor where it carries an amount.
pub fn apply_donor_info(donors: &mut Vec<Donor>, donor_info: Vec<Donor>)
    ensures
        final(donors)@ == merged(old(donors)@, donor_info@),
{
    let ghost c = donors@;
    let ghost info = donor_info@;
    let n = donors.len();
    let mut k: usize = 0;
    while k < n
        invariant
            k <= n == c.len(),
            info == donor_info@,
            donors@.len() == n,
            forall|q: int| 0 <= q < n ==> (#[trigger] donors@[q]).customer_id == c[q].customer_id,
            forall|q: int| 0 <= q < k ==> #[trigger] donors@[q] == merged_at(c, info, q),
            forall|q: int| k <= q < n ==> #[trigger] donors@[q] == c[q],
        decreases n - k,
    {
        let first = is_first_of_customer(donors, k);
        proof {
            if c[k as int].customer_id is Some {
                assert forall|q: int| 0 <= q < k implies !names(#[trigger] c[q].customer_id, c[k as int].customer_id.unwrap()@)
                    <==> !names(donors@[q].customer_id, donors@[k as int].customer_id.unwrap()@) by {
                    assert(donors@[q].customer_id == c[q].customer_id);
                }
            }
            assert(first == first_of_customer(c, k as int));
        }
        if first {
            let found = match &donors[k].customer_id {
                Some(id) => find_override(&donor_info, id),
                None => None,
            };
            if let Some(j) = found {
                let d = apply_override(&donors[k], &donor_info[j]);
                donors.set(k, d);
            }
        }
        k = k + 1;
    }
    let mut j: usize = 0;
    while j < donor_info.len()
        invariant
            j <= info.len(),
            info == donor_info@,
            donors@ =~= Seq::new(c.len(), |q: int| merged_at(c, info, q)) + additions(info.subrange(0, j as int)),
        decreases info.len() - j,
    {
        proof {
            assert(info.subrange(0, j + 1).drop_last() =~= info.subrange(0, j as int));
        }
        if donor_info[j].customer_id.is_none() && donor_info[j].amount.is_some() {
            donors.push(donor_info[j].duplicate());
        }
        j = j + 1;
    }
    proof {
        assert(info.subrange(0, j as int) =~= info);
    }
}

proof fn lemma_additions_keyless(info: Seq<Donor>)
    ensures
        forall|j: int| 0 <= j < additions(info).len() ==> is_addition(#[trigger] additions(info)[j]),
    decreases info.len(),
{
    if info.len() > 0 {
        let p = info.drop_last();
        lemma_additions_keyless(p);
        if is_addition(info.last()) {
            assert forall|j: int| 0 <= j < additions(info).len() implies is_addition(
                #[trigger] additions(info)[j],
            ) by {
                if j < additions(p).len() {
                    assert(additions(info)[j] == additions(p)[j]);
                }
            }
        }
    }
}

proof fn lemma_last_override_in_range(info: Seq<Donor>, id: Seq<char>)
    ensures
        last_override(info, id) matches Some(j) ==> 0 <= j < info.len(),
    decreases info.len(),
{
    if info.len() > 0 {
        lemma_last_override_in_range(info.drop_last(), id);
    }
}

/// Writing the same override twice is writing it once.
pub proof fn lemma_override_idempotent(d: Donor, o: Donor)
    ensures
        overridden(overridden(d, o), o) == overridden(d, o),
{
}

/// Merging the same overrides a second time leaves every donor of the first
/// merge as it was; it only appends the added donors once more. So where the
/// overrides add no donor, merging twice is merging once.
pub proof fn lemma_merge_idempotent(c: Seq<Donor>, info: Seq<Donor>)
    ensures
        merged(merged(c, info), info).subrange(0, merged(c, info).len() as int) == merged(c, info),
        additions(info).len() == 0 ==> merged(merged(c, info), info) == merged(c, info),
{
    let m = merged(c, info);
    let mm = merged(m, info);
    lemma_additions_keyless(info);
    assert forall|q: int| 0 <= q < c.len() implies (#[trigger] m[q]).customer_id == c[q].customer_id by {
        assert(m[q] == merged_at(c, info, q));
    }
    assert forall|k: int| 0 <= k < m.len() implies #[trigger] mm[k] == m[k] by {
        assert(mm[k] == merged_at(m, info, k));
        if k < c.len() {
            assert(m[k] == merged_at(c, info, k));
            assert(m[k].customer_id == c[k].customer_id);
            if first_of_customer(c, k) {
                assert forall|q: int| 0 <= q < k implies !names(
                    #[trigger] m[q].customer_id,
                    m[k].customer_id.unwrap()@,
                ) by {
                    assert(m[q].customer_id == c[q].customer_id);
                    assert(!names(c[q].customer_id, c[k].customer_id.unwrap()@));
                }
            }
            if first_of_customer(m, k) {
                assert forall|q: int| 0 <= q < k implies !names(
                    #[trigger] c[q].customer_id,
                    c[k].customer_id.unwrap()@,
                ) by {
                    assert(m[q].customer_id == c[q].customer_id);
                    assert(!names(m[q].customer_id, m[k].customer_id.unwrap()@));
                }
            }
            assert(first_of_customer(m, k) == first_of_customer(c, k));
            if first_of_customer(c, k) {
                let id = c[k].customer_id.unwrap()@;
                lemma_last_override_in_range(info, id);
                if let Some(j) = last_override(info, id) {
                    lemma_override_idempotent(c[k], info[j]);
                }
            }
        } else {
            assert(m[k] == additions(info)[k - c.len()]);
            assert(is_addition(additions(info)[k - c.len()]));
        }
    }
    assert(mm.subrange(0, m.len() as int) =~= m);
    if additions(info).len() == 0 {
        assert(mm =~= m);
    }
}

} // verus!
