use vstd::prelude::*;

use crate::text::{str_eq, string_from_chars, str_chars};

verus! {

/// State of an INDI property.
#[derive(Debug, Copy, Clone, PartialEq, Eq, Structural)]
pub enum PropState {
    Idle,
    Okay,
    Busy,
    Alert,
}

/// Who may read and write an INDI property.
#[derive(Debug, Copy, Clone, PartialEq, Eq, Structural)]
pub enum PropPermition {
    RO,
    WO,
    RW,
}

/// How many switches of a switch property may be on.
#[derive(Debug, Copy, Clone, PartialEq, Eq, Structural)]
pub enum SwitchRule {
    OneOfMany,
    AtMostOne,
    AnyOfMany,
}

/// Kind of an INDI property.
#[derive(Debug, Copy, Clone, PartialEq, Eq, Structural)]
pub enum PropType {
    Text,
    Num,
    Switch(SwitchRule),
    Light,
    Blob,
}

/// Sensor of a camera with two of them.
#[derive(Debug, Copy, Clone, PartialEq, Eq, Structural)]
pub enum CamCcd {
    Primary,
    Secondary,
}

/// A word of an INDI message that names nothing known; it holds the word.
#[derive(Debug, Clone, PartialEq, Eq)]
pub enum PropParseError {
    UnknownState(String),
    UnknownPermission(String),
    UnknownSwitchRule(String),
}

pub open spec fn state_of(text: Seq<char>) -> Option<PropState> {
    if text == "Idle"@ {
        Some(PropState::Idle)
    } else if text == "Ok"@ {
        Some(PropState::Okay)
    } else if text == "Busy"@ {
        Some(PropState::Busy)
    } else if text == "Alert"@ {
        Some(PropState::Alert)
    } else {
        None
    }
}

pub open spec fn permission_of(text: Seq<char>) -> Option<PropPermition> {
    if text == "ro"@ {
        Some(PropPermition::RO)
    } else if text == "wo"@ {
        Some(PropPermition::WO)
    } else if text == "rw"@ {
        Some(PropPermition::RW)
    } else {
        None
    }
}

pub open spec fn switch_rule_of(text: Seq<char>) -> Option<SwitchRule> {
    if text == "OneOfMany"@ {
        Some(SwitchRule::OneOfMany)
    } else if text == "AtMostOne"@ {
        Some(SwitchRule::AtMostOne)
    } else if text == "AnyOfMany"@ {
        Some(SwitchRule::AnyOfMany)
    } else {
        None
    }
}

fn owned(text: &str) -> (r: String)
    ensures
        r@ == text@,
{
    let cs = str_chars(text);
    string_from_chars(cs.as_slice())
}

impl PropState {
    /// The state named `text` (`Idle`, `Ok`, `Busy`, `Alert`).
    pub fn from_str(text: &str) -> (r: Result<Self, PropParseError>)
        ensures
            match state_of(text@) {
                Some(s) => r == Ok::<PropState, PropParseError>(s),
                None => r matches Err(PropParseError::UnknownState(t)) && t@ == text@,
            },
    {
        if str_eq(text, "Idle") {
            Ok(PropState::Idle)
        } else if str_eq(text, "Ok") {
            Ok(PropState::Okay)
        } else if str_eq(text, "Busy") {
            Ok(PropState::Busy)
        } else if str_eq(text, "Alert") {
            Ok(PropState::Alert)
        } else {
            Err(PropParseError::UnknownState(owned(text)))
        }
    }
}

impl PropPermition {
    /// The permission named `text` (`ro`, `wo`, `rw`); read only where none is given.
    pub fn from_str(text: Option<&str>) -> (r: Result<Self, PropParseError>)
        ensures
            match text {
                None => r == Ok::<PropPermition, PropParseError>(PropPermition::RO),
                Some(t) => match permission_of(t@) {
                    Some(p) => r == Ok::<PropPermition, PropParseError>(p),
                    None => r matches Err(PropParseError::UnknownPermission(e)) && e@ == t@,
                },
            },
    {
        match text {
            Some(t) => {
                if str_eq(t, "ro") {
                    Ok(PropPermition::RO)
                } else if str_eq(t, "wo") {
                    Ok(PropPermition::WO)
                } else if str_eq(t, "rw") {
                    Ok(PropPermition::RW)
                } else {
                    Err(PropParseError::UnknownPermission(owned(t)))
                }
            },
            None => Ok(PropPermition::RO),
        }
    }
}

impl SwitchRule {
    /// The rule named `text` (`OneOfMany`, `AtMostOne`, `AnyOfMany`).
    pub fn from_str(text: &str) -> (r: Result<Self, PropParseError>)
        ensures
            match switch_rule_of(text@) {
                Some(s) => r == Ok::<SwitchRule, PropParseError>(s),
                None => r matches Err(PropParseError::UnknownSwitchRule(t)) && t@ == text@,
            },
    {
        if str_eq(text, "OneOfMany") {
            Ok(SwitchRule::OneOfMany)
        } else if str_eq(text, "AtMostOne") {
            Ok(SwitchRule::AtMostOne)
        } else if str_eq(text, "AnyOfMany") {
            Ok(SwitchRule::AnyOfMany)
        } else {
            Err(PropParseError::UnknownSwitchRule(owned(text)))
        }
    }
}

pub open spec fn prop_type_name(t: PropType) -> Seq<char> {
    match t {
        PropType::Text => "Text"@,
        PropType::Num => "Num"@,
        PropType::Switch(_) => "Switch"@,
        PropType::Light => "Light"@,
        PropType::Blob => "Blob"@,
    }
}

impl PropType {
    pub fn to_str(&self) -> (r: &'static str)
        ensures
            r@ == prop_type_name(*self),
    {
        match self {
            PropType::Text => "Text",
            PropType::Num => "Num",
            PropType::Switch(_) => "Switch",
            PropType::Light => "Light",
            PropType::Blob => "Blob",
        }
    }
}

impl CamCcd {
    /// The sensor of a property name: `CCD1` or empty for the first, `CCD2` for the second.
    pub fn from_ccd_prop_name(name: &str) -> (r: Self)
        requires
            name@ == "CCD1"@ || name@ == ""@ || name@ == "CCD2"@,
        ensures
            name@ == "CCD2"@ ==> r == CamCcd::Secondary,
            name@ != "CCD2"@ ==> r == CamCcd::Primary,
    {
        if str_eq(name, "CCD2") {
            CamCcd::Secondary
        } else {
            CamCcd::Primary
        }
    }
}

} // verus!
