//! Reasoning efforts.

use crate::text::str_eq;
use vstd::prelude::*;

verus! {

/// How hard a model is asked to think.
#[derive(Clone, Copy, Debug, PartialEq, Eq, Structural)]
pub enum Effort {
    Off,
    Minimal,
    Low,
    Medium,
    High,
    XHigh,
}

/// The name of an effort.
pub open spec fn effort_name(e: Effort) -> Seq<char> {
    match e {
        Effort::Off => "off"@,
        Effort::Minimal => "minimal"@,
        Effort::Low => "low"@,
        Effort::Medium => "medium"@,
        Effort::High => "high"@,
        Effort::XHigh => "xhigh"@,
    }
}

/// The effort of a name.
pub open spec fn effort_of(name: Seq<char>) -> Option<Effort> {
    if name == "off"@ {
        Some(Effort::Off)
    } else if name == "minimal"@ {
        Some(Effort::Minimal)
    } else if name == "low"@ {
        Some(Effort::Low)
    } else if name == "medium"@ {
        Some(Effort::Medium)
    } else if name == "high"@ {
        Some(Effort::High)
    } else if name == "xhigh"@ {
        Some(Effort::XHigh)
    } else {
        None
    }
}

impl View for Effort {
    type V = Effort;

    open spec fn view(&self) -> Effort {
        *self
    }
}

impl Effort {
    /// The name of this effort.
    pub fn as_str(self) -> (s: &'static str)
        ensures
            s@ == effort_name(self),
    {
        match self {
            Effort::Off => "off",
            Effort::Minimal => "minimal",
            Effort::Low => "low",
            Effort::Medium => "medium",
            Effort::High => "high",
            Effort::XHigh => "xhigh",
        }
    }
}

/// The effort of a name.
pub fn parse_effort(value: &str) -> (r: Option<Effort>)
    ensures
        r == effort_of(value@),
{
    if str_eq(value, "off") {
        Some(Effort::Off)
    } else if str_eq(value, "minimal") {
        Some(Effort::Minimal)
    } else if str_eq(value, "low") {
        Some(Effort::Low)
    } else if str_eq(value, "medium") {
        Some(Effort::Medium)
    } else if str_eq(value, "high") {
        Some(Effort::High)
    } else if str_eq(value, "xhigh") {
        Some(Effort::XHigh)
    } else {
        None
    }
}

/// How a request names an effort; nothing is said for [`Effort::Off`].
pub open spec fn wire_name(e: Effort) -> Option<Seq<char>> {
    match e {
        Effort::Off => None,
        _ => Some(effort_name(e)),
    }
}

/// How a request names an effort.
pub fn effort_wire(level: Effort) -> (r: Option<&'static str>)
    ensures
        crate::cbor::str_opt(r) == wire_name(level),
{
    match level {
        Effort::Off => None,
        Effort::Minimal => Some("minimal"),
        Effort::Low => Some("low"),
        Effort::Medium => Some("medium"),
        Effort::High => Some("high"),
        Effort::XHigh => Some("xhigh"),
    }
}

/// The name of an effort leads back to it.
pub proof fn law_effort_names_are_read_back(e: Effort)
    ensures
        effort_of(effort_name(e)) == Some(e),
{
    reveal_strlit("off");
    reveal_strlit("minimal");
    reveal_strlit("low");
    reveal_strlit("medium");
    reveal_strlit("high");
    reveal_strlit("xhigh");
    assert("off"@.len() == 3 && "low"@.len() == 3 && "high"@.len() == 4 && "xhigh"@.len() == 5
        && "medium"@.len() == 6 && "minimal"@.len() == 7);
    assert("off"@[0] != "low"@[0]);
}

/// A request says nothing of an effort that is off, and else names it so that the
/// name leads back to it.
pub proof fn law_requests_name_the_effort(e: Effort)
    ensures
        wire_name(e) is None <==> e is Off,
        wire_name(e) matches Some(name) ==> effort_of(name) == Some(e),
{
    law_effort_names_are_read_back(e);
}

/// Only the name of an effort is read as one.
pub proof fn law_other_texts_are_no_effort(text: Seq<char>)
    ensures
        effort_of(text) matches Some(e) ==> effort_name(e) == text,
{
}

/// Each effort has one name.
pub proof fn law_efforts_have_one_name(text: Seq<char>)
    ensures
        effort_of(text) == Some(Effort::Off) <==> text == "off"@,
        effort_of(text) == Some(Effort::Minimal) <==> text == "minimal"@,
        effort_of(text) == Some(Effort::Low) <==> text == "low"@,
        effort_of(text) == Some(Effort::Medium) <==> text == "medium"@,
        effort_of(text) == Some(Effort::High) <==> text == "high"@,
        effort_of(text) == Some(Effort::XHigh) <==> text == "xhigh"@,
{
    law_effort_names_are_read_back(Effort::Off);
    law_effort_names_are_read_back(Effort::Minimal);
    law_effort_names_are_read_back(Effort::Low);
    law_effort_names_are_read_back(Effort::Medium);
    law_effort_names_are_read_back(Effort::High);
    law_effort_names_are_read_back(Effort::XHigh);
}

} // verus!
