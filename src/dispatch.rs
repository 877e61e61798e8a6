//! Rendering of alert mails and the choice of which notification entries to acknowledge.
use vstd::prelude::*;

use crate::records::NotificationEntry;
use crate::text::{append_decimal, decimal_text};

verus! {

/// A fully formed message for the mail gateway.
#[derive(Clone, Debug, PartialEq, Eq)]
pub struct AlertMessage {
    pub from: String,
    pub to: String,
    pub subject: String,
    pub body: String,
}

pub open spec fn alert_subject() -> Seq<char> {
    "Website Down Alert"@
}

/// The body of the alert for `n`.
pub open spec fn alert_body(n: NotificationEntry) -> Seq<char> {
    "Website "@ + n.website_id@ + " is down in region "@ + n.region_id@ + " at "@ + decimal_text(
        n.timestamp as int,
    ) + ". Response time: "@ + decimal_text(n.response_time_ms as int) + "ms"@
}

/// Renders the alert message for a notification entry.
pub fn render_alert(n: &NotificationEntry, from: &String, to: &String) -> (r: AlertMessage)
    ensures
        r.from == *from,
        r.to == *to,
        r.subject@ == alert_subject(),
        r.body@ == alert_body(*n),
{
    let mut body = String::from_str("Website ");
    body.append(n.website_id.as_str());
    body.append(" is down in region ");
    body.append(n.region_id.as_str());
    body.append(" at ");
    append_decimal(&mut body, n.timestamp);
    body.append(". Response time: ");
    append_decimal(&mut body, n.response_time_ms as i64);
    body.append("ms");
    AlertMessage {
        from: from.clone(),
        to: to.clone(),
        subject: String::from_str("Website Down Alert"),
        body,
    }
}

/// The identifiers whose delivery succeeded, in batch order.
pub open spec fn delivered_ids(ids: Seq<String>, delivered: Seq<bool>) -> Seq<String>
    decreases ids.len(),
{
    if ids.len() == 0 || delivered.len() == 0 {
        seq![]
    } else if delivered.last() {
        delivered_ids(ids.drop_last(), delivered.drop_last()).push(ids.last())
    } else {
        delivered_ids(ids.drop_last(), delivered.drop_last())
    }
}

/// Chooses which entries of a batch to acknowledge: exactly those whose mail was
/// delivered (`delivered[i]` reports on `ids[i]`). The others stay pending for a retry.
pub fn acks_for(ids: &Vec<String>, delivered: &Vec<bool>) -> (r: Vec<String>)
    requires
        ids.len() == delivered.len(),
    ensures
        r@ == delivered_ids(ids@, delivered@),
{
    let mut r: Vec<String> = Vec::new();
    let mut i: usize = 0;
    while i < ids.len()
        invariant
            i <= ids.len(),
            ids.len() == delivered.len(),
            r@ == delivered_ids(ids@.subrange(0, i as int), delivered@.subrange(0, i as int)),
        decreases ids.len() - i,
    {
        assert(ids@.subrange(0, i + 1).drop_last() =~= ids@.subrange(0, i as int));
        assert(delivered@.subrange(0, i + 1).drop_last() =~= delivered@.subrange(0, i as int));
        if delivered[i] {
            r.push(ids[i].clone());
        }
        i = i + 1;
    }
    assert(ids@.subrange(0, ids.len() as int) =~= ids@);
    assert(delivered@.subrange(0, delivered.len() as int) =~= delivered@);
    r
}

} // verus!
