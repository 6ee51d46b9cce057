//! The storage schema's value types: the composite header cell and the
//! delivery state of an outbound queue item, with their stable text forms.
use vstd::prelude::*;
use crate::codec::str_eq;

verus! {

/// Marker for the composite column type that stores one header.
#[allow(non_camel_case_types)]
#[derive(Debug)]
pub struct Mail_header;

/// One stored header: its name and value.
#[derive(Debug)]
pub struct MailHeader<'a>(pub &'a str, pub &'a str);

/// Marker for the column type that stores a delivery state.
#[allow(non_camel_case_types)]
#[derive(Debug)]
pub struct Mail_state;

/// Where an outbound queue item stands in its lifecycle.
#[derive(Debug, PartialEq, Eq, Structural, Clone, Copy)]
pub enum MailState {
    Queued,
    Sending,
    Sent,
    Failed,
}

impl MailState {
    /// The stable text under which this state is stored.
    pub open spec fn name_spec(&self) -> Seq<char> {
        match self {
            MailState::Queued => "queued"@,
            MailState::Sending => "sending"@,
            MailState::Sent => "sent"@,
            MailState::Failed => "failed"@,
        }
    }

    /// The stable text under which this state is stored.
    pub fn state_name(&self) -> (r: &'static str)
        ensures
            r@ == self.name_spec(),
    {
        match self {
            MailState::Queued => "queued",
            MailState::Sending => "sending",
            MailState::Sent => "sent",
            MailState::Failed => "failed",
        }
    }

    /// Reads a state back from its stored text; exactly the four stable
    /// names are recognized.
    pub fn from_name(s: &str) -> (r: Option<MailState>)
        ensures
            s@ == "queued"@ ==> r == Some(MailState::Queued),
            s@ == "sending"@ ==> r == Some(MailState::Sending),
            s@ == "sent"@ ==> r == Some(MailState::Sent),
            s@ == "failed"@ ==> r == Some(MailState::Failed),
            r matches Some(st) ==> s@ == st.name_spec(),
    {
        proof {
            reveal_strlit("queued");
            reveal_strlit("sending");
            reveal_strlit("sent");
            reveal_strlit("failed");
            assert(("queued"@)[0] == 'q' && ("queued"@).len() == 6);
            assert(("sending"@)[0] == 's' && ("sending"@).len() == 7);
            assert(("sent"@)[0] == 's' && ("sent"@).len() == 4);
            assert(("failed"@)[0] == 'f' && ("failed"@).len() == 6);
        }
        if str_eq(s, "queued") {
            Some(MailState::Queued)
        } else if str_eq(s, "sending") {
            Some(MailState::Sending)
        } else if str_eq(s, "sent") {
            Some(MailState::Sent)
        } else if str_eq(s, "failed") {
            Some(MailState::Failed)
        } else {
            None
        }
    }
}

} // verus!
