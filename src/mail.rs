//! The alert as a mail message for the gateway.
use vstd::prelude::*;

use lettre::address::AddressError;
use lettre::error::Error as EmailError;
use lettre::message::Mailbox;
use lettre::Message;

use crate::dispatch::AlertMessage;

verus! {

#[verifier::external_type_specification]
#[verifier::external_body]
pub struct ExMailbox(Mailbox);

#[verifier::external_type_specification]
#[verifier::external_body]
pub struct ExAddressError(AddressError);

#[verifier::external_type_specification]
#[verifier::external_body]
pub struct ExMessage(Message);

#[verifier::external_type_specification]
#[verifier::external_body]
pub struct ExEmailError(EmailError);

/// Whether lettre accepts the text as a mailbox (`Name <user@host>` or `user@host`).
pub uninterp spec fn mailbox_parses(s: Seq<char>) -> bool;

/// The text/plain message lettre builds with the given From and To mailbox texts,
/// subject, body, and a Date header of `date_s` seconds after the Unix epoch.
pub uninterp spec fn plain_text_mail(
    from: Seq<char>,
    to: Seq<char>,
    subject: Seq<char>,
    body: Seq<char>,
    date_s: u64,
) -> Message;

/// Seconds after the Unix epoch of the start of year 10000, the first instant that
/// lettre's Date header can no longer render.
pub const MAIL_DATE_LIMIT_S: u64 = 253402300800;

/// Relies on lettre's `FromStr for Mailbox`: whether parsing succeeds depends on the
/// text alone.
#[verifier::external_body]
fn parse_mailbox(s: &str) -> (r: Result<Mailbox, AddressError>)
    ensures
        r is Ok == mailbox_parses(s@),
{
    s.parse::<Mailbox>()
}

/// Relies on lettre's `FromStr for Mailbox` and `MessageBuilder` (`from`, `to`,
/// `subject`, `header`, `date`, `body`). Building fails only without a From, with more
/// than one From, or without a recipient; exactly one of each is set. With the date
/// given, no header depends on anything but the arguments. The Date header panics from
/// year 10000 on, which `requires` leaves out.
#[verifier::external_body]
fn compose(from: &str, to: &str, subject: &str, body: &str, date_s: u64) -> (r: Result<Message, EmailError>)
    requires
        mailbox_parses(from@),
        mailbox_parses(to@),
        date_s < MAIL_DATE_LIMIT_S,
    ensures
        r is Ok,
        r->Ok_0 == plain_text_mail(from@, to@, subject@, body@, date_s),
{
    Message::builder()
        .from(from.parse::<Mailbox>().unwrap())
        .to(to.parse::<Mailbox>().unwrap())
        .subject(subject)
        .header(lettre::message::header::ContentType::TEXT_PLAIN)
        .date(std::time::UNIX_EPOCH + std::time::Duration::from_secs(date_s))
        .body(body.to_string())
}

/// Why an alert could not be turned into a mail message.
#[derive(Clone, Copy, Debug, PartialEq, Eq, Structural)]
pub enum MailError {
    /// The sender is not a valid mailbox.
    InvalidSender,
    /// The recipient is not a valid mailbox.
    InvalidRecipient,
    /// The date lies at or beyond `MAIL_DATE_LIMIT_S`.
    DateOutOfRange,
}

/// Turns an alert into a plain-text mail message dated `date_s` seconds after the Unix
/// epoch; it fails only on an invalid address or an unrepresentable date.
pub fn alert_email(m: &AlertMessage, date_s: u64) -> (r: Result<Message, MailError>)
    ensures
        !mailbox_parses(m.from@) ==> r == Err::<Message, MailError>(MailError::InvalidSender),
        mailbox_parses(m.from@) && !mailbox_parses(m.to@) ==> r == Err::<Message, MailError>(
            MailError::InvalidRecipient,
        ),
        mailbox_parses(m.from@) && mailbox_parses(m.to@) && date_s >= MAIL_DATE_LIMIT_S ==> r == Err::<
            Message,
            MailError,
        >(MailError::DateOutOfRange),
        mailbox_parses(m.from@) && mailbox_parses(m.to@) && date_s < MAIL_DATE_LIMIT_S ==> r == Ok::<
            Message,
            MailError,
        >(plain_text_mail(m.from@, m.to@, m.subject@, m.body@, date_s)),
{
    if parse_mailbox(m.from.as_str()).is_err() {
        return Err(MailError::InvalidSender);
    }
    if parse_mailbox(m.to.as_str()).is_err() {
        return Err(MailError::InvalidRecipient);
    }
    if date_s >= MAIL_DATE_LIMIT_S {
        return Err(MailError::DateOutOfRange);
    }
    Ok(compose(m.from.as_str(), m.to.as_str(), m.subject.as_str(), m.body.as_str(), date_s).unwrap())
}

} // verus!
