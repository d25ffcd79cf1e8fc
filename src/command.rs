//! The command buffers that the fan controller takes.
use vstd::prelude::*;

use crate::curve::FanCurveTable;

verus! {

/// The control code under which every command is sent.
pub const CONTROL_CODE: u32 = 2237452;

/// The size of the buffer that receives the device's response.
pub const RESPONSE_BUFFER_SIZE: usize = 1024;

/// A coarse operating mode of the machine.
#[derive(Debug, Clone, Copy, PartialEq, Eq, Structural)]
pub enum PowerPlan {
    PerformanceWindows,
    TurboManual,
    Silent,
}

impl PowerPlan {
    /// The byte that selects this plan in a power-plan command.
    pub open spec fn byte(self) -> u8 {
        match self {
            PowerPlan::PerformanceWindows => 0x00,
            PowerPlan::TurboManual => 0x01,
            PowerPlan::Silent => 0x02,
        }
    }

    pub(crate) fn to_byte(&self) -> (r: u8)
        ensures
            r == self.byte(),
    {
        match self {
            PowerPlan::PerformanceWindows => 0x00,
            PowerPlan::TurboManual => 0x01,
            PowerPlan::Silent => 0x02,
        }
    }
}

/// The power-plan command: `DEVS`, a fixed header, and the plan's byte at offset 12.
pub open spec fn power_plan_bytes(plan: PowerPlan) -> Seq<u8> {
    seq![
        0x44u8, 0x45, 0x56, 0x53, 0x08, 0x00, 0x00, 0x00, 0x75, 0x00, 0x12, 0x00,
        plan.byte(), 0x00, 0x00, 0x00,
    ]
}

/// The header of the fan-curve command: `DEVS`, a fixed header, and the
/// device's byte at offset 8; the table's sixteen bytes follow it.
pub open spec fn fan_curve_header(device_byte: u8) -> Seq<u8> {
    seq![0x44u8, 0x45, 0x56, 0x53, 0x14, 0x00, 0x00, 0x00, device_byte, 0x00, 0x11, 0x00]
}

/// The command that selects `plan`.
pub fn power_plan_command(plan: PowerPlan) -> (r: [u8; 16])
    ensures
        r@ == power_plan_bytes(plan),
{
    let mut buffer: [u8; 16] = [
        0x44, 0x45, 0x56, 0x53, 0x08, 0x00, 0x00, 0x00, 0x75, 0x00, 0x12, 0x00, 0x00, 0x00,
        0x00, 0x00,
    ];
    buffer[12] = plan.to_byte();
    assert(buffer@ =~= power_plan_bytes(plan));
    buffer
}

/// The command that sets the curve of the table's device to the table.
pub fn fan_curve_command(table: &FanCurveTable) -> (r: [u8; 28])
    ensures
        r@ == fan_curve_header(table@.device.byte()) + table@.raw,
{
    let mut buffer: [u8; 28] = [
        0x44, 0x45, 0x56, 0x53, 0x14, 0x00, 0x00, 0x00, 0xFF, 0x00, 0x11, 0x00, 0xFF, 0xFF,
        0xFF, 0xFF, 0xFF, 0xFF, 0xFF, 0xFF, 0xFF, 0xFF, 0xFF, 0xFF, 0xFF, 0xFF, 0xFF, 0xFF,
    ];
    buffer[8] = table.device().to_byte();
    let raw = table.raw_bytes();
    let mut k: usize = 0;
    while k < 16
        invariant
            k <= 16,
            raw@ == table@.raw,
            raw@.len() == 16,
            forall|j: int| 0 <= j < 12 ==> #[trigger] buffer@[j] == fan_curve_header(
                table@.device.byte(),
            )[j],
            forall|j: int| 12 <= j < 12 + k ==> #[trigger] buffer@[j] == raw@[j - 12],
        decreases 16 - k,
    {
        buffer[12 + k] = raw[k];
        k += 1;
    }
    assert(buffer@ =~= fan_curve_header(table@.device.byte()) + table@.raw);
    buffer
}

} // verus!
