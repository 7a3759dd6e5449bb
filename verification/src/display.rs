//! Readings shown on the auxiliary character display.

use vstd::prelude::*;

verus! {

/// One decoded meter reading for the display: momentary power and the
/// running energy totals in watt-hours.
#[derive(Clone, Copy, Debug)]
pub struct MeterReading {
    pub power: u16,
    pub energy_today: u32,
    pub energy_yesterday: u32,
    pub energy_lifetime: u64,
}

} // verus!
