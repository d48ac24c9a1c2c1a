//! Where a program is split, and what goes into which module.
pub mod analysis;
pub mod coloring;
pub mod identifier;
pub mod laws;
pub mod order_laws;
pub mod output;
pub mod painter;
pub mod part_laws;
pub mod point_laws;
pub mod points;
pub mod print;
pub mod program;
pub mod roots;
pub mod trace_laws;

pub use crate::split_point::identifier::SplitModuleIdentifier;
pub use crate::split_point::output::{OutputModuleInfo, ReachabilityGraph};
pub use crate::split_point::points::{get_split_points, SplitError};
pub use crate::split_point::print::trace_enabled;
pub use crate::split_point::program::{
    compute_split_modules, get_split_points_by_module, SplitProgramInfo,
};
pub use crate::split_point::roots::SplitPoint;
