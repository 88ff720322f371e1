//! Query-by-humming: the discrete decisions of the pitch, note and melody
//! pipeline, proved against their contracts.

pub mod binary32;
pub mod sorting;
pub mod smoothing;
pub mod notes;
pub mod pitch;
pub mod contour;
pub mod chunks;
pub mod midi;
pub mod naming;
pub mod devices;
pub mod hums;
pub mod selection;
