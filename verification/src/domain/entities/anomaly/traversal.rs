//! Gates of the encounter reducer.

use vstd::prelude::*;

use crate::domain::entities::anomaly::{
    crossing_of, plane_crossing, AnomalyId, AnomalyKind, Axis2, AxisDirection, SegmentMeasures,
    WorldBounds,
};
use crate::domain::float_bits::FloatBits;

verus! {

#[derive(Debug, Clone, Copy, PartialEq, Eq, Hash, Structural)]
pub enum TraversalGateKind {
    Remap,
    RedThreshold,
    RedLoop,
    RedEscape,
}

/// A semantic plane crossing. `span_*` lies on the perpendicular world axis.
#[derive(Debug, Clone, Copy, PartialEq, Eq, Structural)]
pub struct TraversalGate {
    pub id: u64,
    pub instance_id: AnomalyId,
    pub anomaly_kind: AnomalyKind,
    pub kind: TraversalGateKind,
    pub axis: Axis2,
    pub plane: FloatBits,
    pub span_min: FloatBits,
    pub span_max: FloatBits,
    /// The authored inward direction of a directional threshold.
    pub forward: AxisDirection,
    pub affected_bounds: WorldBounds,
}

impl TraversalGate {
    /// The direction in which a movement crosses the plane inside its span. A
    /// movement that starts or ends on the plane is no crossing.
    pub fn crossing(&self, s: &SegmentMeasures) -> (direction: Option<AxisDirection>)
        ensures
            direction == crossing_of(self.plane, self.span_min, self.span_max, *s),
    {
        plane_crossing(self.plane, self.span_min, self.span_max, s)
    }
}

} // verus!
