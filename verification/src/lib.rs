//! Combinatorial core of parametric-domain boolean operations on B-rep
//! solids: choosing an intersection method for a pair of surfaces, linking
//! intersection points into chains, and assembling the regions of a split face.

pub mod chains;
pub mod dispatch;
pub mod regions;
