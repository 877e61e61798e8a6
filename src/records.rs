//! Plain records exchanged with the registry, the API and the notification topic.
use vstd::prelude::*;

verus! {

/// A website as published on the website topic.
#[derive(Clone, Debug, PartialEq, Eq)]
pub struct WebsiteStreamEntry {
    pub id: String,
    pub url: String,
    pub name: Option<String>,
}

/// A down-alert awaiting delivery on the notification topic.
#[derive(Clone, Debug, PartialEq, Eq)]
pub struct NotificationEntry {
    pub website_id: String,
    pub region_id: String,
    pub status: String,
    pub response_time_ms: i32,
    pub timestamp: i64,
}

/// Request body for registering a website.
#[derive(Clone, Debug, PartialEq, Eq)]
pub struct CreateWebsite {
    pub url: String,
    pub name: Option<String>,
}

/// Request body for changing a website; absent fields keep their value.
#[derive(Clone, Debug, PartialEq, Eq)]
pub struct UpdateWebsite {
    pub url: Option<String>,
    pub name: Option<String>,
}

/// Request body for registering a region.
#[derive(Clone, Debug, PartialEq, Eq)]
pub struct CreateRegion {
    pub name: String,
}

/// A probing region.
#[derive(Clone, Debug, PartialEq, Eq)]
pub struct Region {
    pub id: String,
    pub name: String,
}

/// Token claims: the subject and the expiry.
#[derive(Clone, Debug, PartialEq, Eq)]
pub struct Claims {
    pub sub: String,
    exp: usize,
}

impl Claims {
    pub fn new(sub: String, exp: usize) -> (r: Claims)
        ensures
            r.subject() == sub,
            r.spec_exp() == exp,
    {
        Claims { sub, exp }
    }

    pub closed spec fn subject(&self) -> String {
        self.sub
    }

    pub closed spec fn spec_exp(&self) -> usize {
        self.exp
    }

    #[verifier::when_used_as_spec(spec_exp)]
    pub fn exp(&self) -> (r: usize)
        ensures
            r == self.spec_exp(),
    {
        self.exp
    }
}

} // verus!
