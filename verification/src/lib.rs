//! Integer bookkeeping of a strain-based difficulty model: how raw strain
//! peaks are grouped into local sections, how runs of similar minutes are
//! counted for the marathon decay, and which earlier hit objects a sliding
//! window looks at.

pub mod sections;
pub mod marathon;
pub mod window;
