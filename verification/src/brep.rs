//! Boundary-representation bookkeeping: extrusion profiles, how loose
//! boundary pieces chain into loops, and parameter-space samples.

pub mod presspull;
pub mod chain;
pub mod pcurve;
