//! The shading styles and their labels.

use crate::text::same_text;
use std::str::FromStr;
use vstd::prelude::*;
use vstd::string::*;

verus! {

/// The family of rule by which an agent shades its value into a bid.
#[derive(Clone, Copy, Debug, PartialEq, Eq, Structural)]
pub enum Style {
    /// Scales the value by one minus the strength, on the side of the agent.
    Standard,
    /// Scales the value by the exponential of minus the strength.
    Exponential,
    /// Moves the bid down by the strength.
    Shift,
    /// Shades a buyer as `Standard` does and a seller towards an ask of one.
    Correct,
}

/// What [`Style::parse`] says of a label that names no style.
pub open spec fn unknown_style(text: Seq<char>) -> Seq<char> {
    "unknown style: \""@ + text + "\""@
}

impl Style {
    /// The label of the style: its name.
    pub open spec fn spec_label(self) -> Seq<char> {
        match self {
            Style::Standard => "Standard"@,
            Style::Exponential => "Exponential"@,
            Style::Shift => "Shift"@,
            Style::Correct => "Correct"@,
        }
    }

    /// The style that a label names, if it names one.
    pub open spec fn spec_parse(text: Seq<char>) -> Option<Style> {
        if text == "Standard"@ {
            Some(Style::Standard)
        } else if text == "Exponential"@ {
            Some(Style::Exponential)
        } else if text == "Shift"@ {
            Some(Style::Shift)
        } else if text == "Correct"@ {
            Some(Style::Correct)
        } else {
            None
        }
    }

    /// The label of the style.
    pub fn label(self) -> (text: &'static str)
        ensures
            text@ == self.spec_label(),
    {
        match self {
            Style::Standard => "Standard",
            Style::Exponential => "Exponential",
            Style::Shift => "Shift",
            Style::Correct => "Correct",
        }
    }

    /// Reads a style from its label. Any other text is refused with a
    /// message that quotes it.
    pub fn parse(text: &str) -> (parsed: Result<Style, String>)
        ensures
            match parsed {
                Ok(style) => Style::spec_parse(text@) == Some(style),
                Err(message) => Style::spec_parse(text@).is_none() && message@ == unknown_style(
                    text@,
                ),
            },
    {
        if same_text(text, "Standard") {
            Ok(Style::Standard)
        } else if same_text(text, "Exponential") {
            Ok(Style::Exponential)
        } else if same_text(text, "Shift") {
            Ok(Style::Shift)
        } else if same_text(text, "Correct") {
            Ok(Style::Correct)
        } else {
            let mut message: String = "unknown style: \"".to_owned();
            message.append(text);
            message.append("\"");
            Err(message)
        }
    }
}

impl FromStr for Style {
    type Err = String;

    /// Reads a style from its label, as [`Style::parse`] does.
    fn from_str(text: &str) -> (parsed: Result<Style, String>)
        ensures
            match parsed {
                Ok(style) => Style::spec_parse(text@) == Some(style),
                Err(message) => Style::spec_parse(text@).is_none() && message@ == unknown_style(
                    text@,
                ),
            },
    {
        Style::parse(text)
    }
}

/// Reading the label of a style gives the style back.
pub proof fn lemma_label_round_trip(style: Style)
    ensures
        Style::spec_parse(style.spec_label()) == Some(style),
{
    reveal_strlit("Standard");
    reveal_strlit("Exponential");
    reveal_strlit("Shift");
    reveal_strlit("Correct");
    assert("Standard"@.len() == 8);
    assert("Exponential"@.len() == 11);
    assert("Shift"@.len() == 5);
    assert("Correct"@.len() == 7);
}

} // verus!
