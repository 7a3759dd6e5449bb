//! The on/off state a relay device reports.

use vstd::prelude::*;
use crate::strutil::{spec_eq_ignore_ascii_case, str_eq_ignore_ascii_case};

verus! {

#[derive(Clone, Copy, Debug, PartialEq, Eq, Structural)]
pub enum PowerState {
    On,
    Off,
}

/// The error for a power-state literal that is neither "on" nor "off"
/// in any ASCII case; it carries the rejected literal.
#[derive(Debug)]
pub struct UnknownPowerStateLiteral(pub String);

impl PowerState {
    /// Parses a device-reported literal, ignoring ASCII case. Returns
    /// `Ok` exactly for the literals "on" and "off" (in any case mix),
    /// and hands any other literal back in the error.
    pub fn try_from_str(value: &str) -> (r: Result<PowerState, UnknownPowerStateLiteral>)
        ensures
            spec_eq_ignore_ascii_case(value@, "on"@) ==> r == Result::<
                PowerState,
                UnknownPowerStateLiteral,
            >::Ok(PowerState::On),
            spec_eq_ignore_ascii_case(value@, "off"@) ==> r == Result::<
                PowerState,
                UnknownPowerStateLiteral,
            >::Ok(PowerState::Off),
            (!spec_eq_ignore_ascii_case(value@, "on"@) && !spec_eq_ignore_ascii_case(
                value@,
                "off"@,
            )) ==> (r matches Result::Err(e) && e.0@ == value@),
    {
        proof {
            reveal_strlit("on");
            reveal_strlit("off");
        }
        if str_eq_ignore_ascii_case(value, "on") {
            Ok(PowerState::On)
        } else if str_eq_ignore_ascii_case(value, "off") {
            Ok(PowerState::Off)
        } else {
            Err(UnknownPowerStateLiteral(value.to_owned()))
        }
    }

    /// The lowercase literal for this state, as it is written into the
    /// encoded record.
    pub fn as_str(&self) -> (r: &'static str)
        ensures
            self is On ==> r@ == "on"@,
            self is Off ==> r@ == "off"@,
    {
        match self {
            PowerState::On => "on",
            PowerState::Off => "off",
        }
    }

    pub open spec fn spec_is_on(self) -> bool {
        self is On
    }

    /// Whether the state is on, as a plain boolean.
    pub fn is_on(&self) -> (r: bool)
        ensures
            r == self.spec_is_on(),
    {
        matches!(self, PowerState::On)
    }
}

impl From<bool> for PowerState {
    /// `true` is on, `false` is off.
    fn from(value: bool) -> (r: PowerState) {
        if value {
            PowerState::On
        } else {
            PowerState::Off
        }
    }
}

impl vstd::std_specs::convert::FromSpecImpl<bool> for PowerState {
    open spec fn obeys_from_spec() -> bool {
        true
    }

    open spec fn from_spec(value: bool) -> PowerState {
        if value {
            PowerState::On
        } else {
            PowerState::Off
        }
    }
}

} // verus!
