//! Fan curves and power plans for a laptop's embedded fan controller: the
//! curve model with its safety rules, the text format, the repair of unsafe
//! curves, and the command buffers that the controller takes.
pub mod command;
pub mod curve;
pub mod error;
pub mod text;

pub use command::{fan_curve_command, power_plan_command, PowerPlan, CONTROL_CODE};
pub use curve::{
    convert_to_curve, FanCurveDevice, FanCurveTable, FanCurveTableBuilder, TableEntry, TableIndex,
};
pub use error::{AfErr, ControlResult};
