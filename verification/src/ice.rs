//! The record itself: a described message with recipients, either dormant or
//! armed for release at a scheduled future moment.
//!
//! The record invariant — armed exactly when a schedule is present — holds at
//! every observable point: every constructor establishes it and every
//! operation preserves it. Arming and disarming are the only operations that
//! touch the armed flag and the schedule, and they always change the two
//! together.

use vstd::prelude::*;
use vstd::string::*;
use crate::stamp::{Stamp, stamp_lt, stamp_text};
use crate::errors::{ValidationError, DisarmOutcome};

verus! {

/// Mathematical model of a record.
pub struct IceV {
    pub description: Seq<char>,
    pub message: Seq<char>,
    pub emails: Seq<Seq<char>>,
    pub active: bool,
    pub send_date: Option<Stamp>,
}

impl IceV {
    /// The record invariant: armed exactly when a schedule is present, and
    /// any schedule present is a real calendar moment.
    pub open spec fn inv(self) -> bool {
        (self.active <==> self.send_date is Some) && (self.send_date is Some
            ==> self.send_date->Some_0.wf())
    }
}

/// Text shown for the schedule: its fixed rendering, or `Unknown` when the
/// record has none.
pub open spec fn date_text_of(od: Option<Stamp>) -> Seq<char> {
    match od {
        Some(st) => stamp_text(st),
        None => "Unknown"@,
    }
}

/// The one-line status rendering: description, an armed label, and — only
/// when armed — the schedule in parentheses.
pub open spec fn status_line_of(v: IceV) -> Seq<char> {
    v.description + " ~> "@ + (if v.active {
        "Active"@
    } else {
        "Inactive"@
    }) + " "@ + (if v.active {
        "("@ + date_text_of(v.send_date) + ")"@
    } else {
        Seq::<char>::empty()
    })
}

/// One "in case of emergency" record.
pub struct Ice {
    description: String,
    message: String,
    emails: Vec<String>,
    active: bool,
    send_date: Option<Stamp>,
}

impl View for Ice {
    type V = IceV;

    closed spec fn view(&self) -> IceV {
        IceV {
            description: self.description@,
            message: self.message@,
            emails: self.emails.deep_view(),
            active: self.active,
            send_date: self.send_date,
        }
    }
}

impl DeepView for Ice {
    type V = IceV;

    open spec fn deep_view(&self) -> IceV {
        self.view()
    }
}

impl Ice {
    /// Creates a dormant record with no recipients and no schedule.
    pub fn new(description: String, message: String) -> (r: Ice)
        ensures
            r@ == (IceV {
                description: description@,
                message: message@,
                emails: Seq::<Seq<char>>::empty(),
                active: false,
                send_date: None,
            }),
            r@.inv(),
    {
        let r = Ice {
            description,
            message,
            emails: Vec::new(),
            active: false,
            send_date: None,
        };
        proof {
            assert(r.emails.deep_view() =~= Seq::<Seq<char>>::empty());
        }
        r
    }

    /// The short human label of the record.
    pub fn get_description(&self) -> (r: String)
        ensures
            r@ == self@.description,
    {
        self.description.clone()
    }

    /// Replaces the short label; nothing else changes.
    pub fn set_description(&mut self, description: String)
        ensures
            final(self)@ == (IceV { description: description@, ..old(self)@ }),
            old(self)@.inv() ==> final(self)@.inv(),
    {
        self.description = description;
    }

    /// The message body.
    pub fn get_message(&self) -> (r: String)
        ensures
            r@ == self@.message,
    {
        self.message.clone()
    }

    /// Replaces the message body; nothing else changes.
    pub fn set_message(&mut self, message: String)
        ensures
            final(self)@ == (IceV { message: message@, ..old(self)@ }),
            old(self)@.inv() ==> final(self)@.inv(),
    {
        self.message = message;
    }

    /// The recipient list, in order.
    pub fn get_emails(&self) -> (r: &Vec<String>)
        ensures
            r.deep_view() == self@.emails,
    {
        &self.emails
    }

    /// Replaces the whole recipient list, order kept and duplicates allowed;
    /// nothing else changes.
    pub fn set_emails(&mut self, emails: &Vec<String>)
        ensures
            final(self)@ == (IceV { emails: emails.deep_view(), ..old(self)@ }),
            old(self)@.inv() ==> final(self)@.inv(),
    {
        let copied = emails.clone();
        proof {
            assert forall|i: int| 0 <= i < emails@.len() implies copied.deep_view()[i]
                == emails.deep_view()[i] by {
                assert(cloned::<String>(emails@[i], copied@[i]));
            }
            assert(copied.deep_view() =~= emails.deep_view());
        }
        self.emails = copied;
    }

    /// Whether the record is armed.
    pub fn get_status(&self) -> (r: bool)
        ensures
            r == self@.active,
    {
        self.active
    }

    /// The schedule, when one is present.
    pub fn get_send_date(&self) -> (r: Option<Stamp>)
        ensures
            r == self@.send_date,
    {
        self.send_date
    }

    /// Arms the record for release at `at`, validated against `now`: the
    /// request succeeds exactly when `at` is strictly in the future, and a
    /// success overwrites any schedule already in place. A rejected request
    /// leaves the record exactly as it was.
    pub fn arm(&mut self, now: Stamp, at: Stamp) -> (r: Result<(), ValidationError>)
        requires
            at.wf(),
        ensures
            match r {
                Ok(_) => stamp_lt(now, at) && final(self)@ == (IceV {
                    active: true,
                    send_date: Some(at),
                    ..old(self)@
                }),
                Err(e) => e == ValidationError::NotFuture && !stamp_lt(now, at) && *final(self)
                    == *old(self),
            },
            old(self)@.inv() ==> final(self)@.inv(),
    {
        if now.is_before(&at) {
            self.send_date = Some(at);
            self.active = true;
            Ok(())
        } else {
            Err(ValidationError::NotFuture)
        }
    }

    /// Disarms the record: an armed record loses its schedule, a dormant one
    /// is left untouched and the caller is told there was nothing to do.
    pub fn disarm(&mut self) -> (r: DisarmOutcome)
        ensures
            old(self)@.active ==> r == DisarmOutcome::Disarmed && final(self)@ == (IceV {
                active: false,
                send_date: None,
                ..old(self)@
            }),
            !old(self)@.active ==> r == DisarmOutcome::NoOp && *final(self) == *old(self),
            old(self)@.inv() ==> final(self)@.inv(),
    {
        if self.active {
            self.send_date = None;
            self.active = false;
            DisarmOutcome::Disarmed
        } else {
            DisarmOutcome::NoOp
        }
    }

    /// Builds a record from already-validated parts; used by the store
    /// codec when reading a collection back in.
    pub(crate) fn assemble(
        description: String,
        message: String,
        emails: Vec<String>,
        active: bool,
        send_date: Option<Stamp>,
    ) -> (r: Ice)
        requires
            active == (send_date is Some),
            send_date is Some ==> send_date->Some_0.wf(),
        ensures
            r@ == (IceV {
                description: description@,
                message: message@,
                emails: emails.deep_view(),
                active,
                send_date,
            }),
            r@.inv(),
    {
        Ice { description, message, emails, active, send_date }
    }

    /// The schedule text: the fixed rendering, or `Unknown` for a dormant
    /// record, so callers always have some date text to show.
    pub fn get_date(&self) -> (r: String)
        requires
            self@.inv(),
        ensures
            r@ == date_text_of(self@.send_date),
    {
        match &self.send_date {
            Some(st) => st.format(),
            None => String::from_str("Unknown"),
        }
    }

    /// The one-line status rendering: description, `Active`/`Inactive`, and
    /// the schedule in parentheses only when armed.
    pub fn get_status_line(&self) -> (r: String)
        requires
            self@.inv(),
        ensures
            r@ == status_line_of(self@),
    {
        let mut r = self.description.clone();
        r.append(" ~> ");
        if self.active {
            r.append("Active");
        } else {
            r.append("Inactive");
        }
        r.append(" ");
        if self.active {
            r.append("(");
            let date = self.get_date();
            r.append(date.as_str());
            r.append(")");
        }
        proof {
            assert(r@ =~= status_line_of(self@));
        }
        r
    }
}

} // verus!
