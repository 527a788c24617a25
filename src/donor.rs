use vstd::prelude::*;

verus! {

/// One donor as published: computed from a payment source or written by hand
/// as an override.
#[derive(Debug)]
pub struct Donor {
    /// Stable identity of the payer, namespaced by the source that produced it.
    pub customer_id: Option<String>,
    pub name: Option<String>,
    pub link: Option<String>,
    pub logo: Option<String>,
    /// Whole currency units.
    pub amount: Option<i64>,
    pub source: Option<String>,
    pub style: Option<String>,
    /// Whether the donor no longer counts as active; `None` until classified.
    pub past: Option<bool>,
    pub square_logo: Option<bool>,
    /// The logo's scale factor, held as the bit pattern of an IEEE-754 single.
    pub logo_scale: Option<u32>,
    /// Override-only: clear the name when merging.
    pub anonymize: Option<bool>,
}

/// A donor with every field empty.
pub open spec fn blank_donor() -> Donor {
    Donor {
        customer_id: None,
        name: None,
        link: None,
        logo: None,
        amount: None,
        source: None,
        style: None,
        past: None,
        square_logo: None,
        logo_scale: None,
        anonymize: None,
    }
}

pub fn copy_text(s: &Option<String>) -> (r: Option<String>)
    ensures
        r == *s,
{
    match s {
        Some(v) => Some(v.clone()),
        None => None,
    }
}

impl Donor {
    /// A donor with every field empty.
    pub fn empty() -> (r: Donor)
        ensures
            r == blank_donor(),
    {
        Donor {
            customer_id: None,
            name: None,
            link: None,
            logo: None,
            amount: None,
            source: None,
            style: None,
            past: None,
            square_logo: None,
            logo_scale: None,
            anonymize: None,
        }
    }

    /// A field-for-field copy.
    pub fn duplicate(&self) -> (r: Donor)
        ensures
            r == *self,
    {
        Donor {
            customer_id: copy_text(&self.customer_id),
            name: copy_text(&self.name),
            link: copy_text(&self.link),
            logo: copy_text(&self.logo),
            amount: self.amount,
            source: copy_text(&self.source),
            style: copy_text(&self.style),
            past: self.past,
            square_logo: self.square_logo,
            logo_scale: self.logo_scale,
            anonymize: self.anonymize,
        }
    }
}

} // verus!
