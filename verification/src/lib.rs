pub mod ir;
pub mod target;
pub mod translator;

pub use ir::CtonModule;
pub use target::TargetModule;
