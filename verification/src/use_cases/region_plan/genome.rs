//! Architect genomes: the designers a region inherits.

use vstd::prelude::*;

use crate::domain::entities::architecture::{
    ArchitectGenome, CeilingLanguage, CirculationStyle, LightingLanguage, ProportionRules,
    RenovationStyle, StructuralSystem, ThresholdLanguage,
};
use crate::domain::float_bits::{bits_less, less, FloatBits};

verus! {

/// An index into a list of `len` entries, from a roll scaled to its length.
pub open spec fn picked_index(scaled: usize, len: usize) -> usize {
    if scaled < len {
        scaled
    } else {
        (len - 1) as usize
    }
}

pub fn pick_index(scaled: usize, len: usize) -> (index: usize)
    requires
        0 < len,
    ensures
        index == picked_index(scaled, len),
        index < len,
{
    if scaled < len {
        scaled
    } else {
        len - 1
    }
}

/// Whether a third designer intrudes: the roll stays below the limit that the
/// blend of styles sets.
pub fn intruder_joins(roll: FloatBits, limit: FloatBits) -> (joins: bool)
    ensures
        joins == less(roll, limit),
{
    bits_less(roll, limit)
}

/// Everything rolled for one designer.
#[derive(Clone, Copy, Debug, PartialEq, Eq, Structural)]
pub struct GenomeRolls {
    /// The noise of the surroundings as a quarter: neighbouring regions tend to
    /// share it.
    pub culture: u32,
    /// Rolls scaled to the number of choices.
    pub structure: usize,
    pub ceiling: usize,
    pub lighting: usize,
    pub renovation: usize,
    pub threshold: FloatBits,
    pub proportions: ProportionRules,
    pub furnishing_density: FloatBits,
    pub tolerance_for_symmetry: FloatBits,
}

/// Rolls below this, 0.10, favour doors with lintels,
pub const DOOR_CULTURE: FloatBits = 0x3DCC_CCCD;

/// and rolls below this, 0.55, open portals.
pub const PORTAL_CULTURE: FloatBits = 0x3F0C_CCCD;

pub open spec fn circulation_culture(quarter: u32) -> CirculationStyle {
    if quarter == 0 {
        CirculationStyle::StraightSpine
    } else if quarter == 1 {
        CirculationStyle::MeanderingSpine
    } else if quarter == 2 {
        CirculationStyle::PairedBranches
    } else {
        CirculationStyle::TreeWithCulDeSacs
    }
}

pub open spec fn structure_choice(i: usize) -> StructuralSystem {
    if i == 0 {
        StructuralSystem::RegularGrid
    } else if i == 1 {
        StructuralSystem::DeepSpansWithBeams
    } else if i == 2 {
        StructuralSystem::OffsetGrid
    } else {
        StructuralSystem::CoreAndShell
    }
}

pub open spec fn threshold_culture(roll: u32) -> ThresholdLanguage {
    if less(roll, DOOR_CULTURE) {
        ThresholdLanguage::DoorWithLintel
    } else if less(roll, PORTAL_CULTURE) {
        ThresholdLanguage::OpenPortal
    } else {
        ThresholdLanguage::WidePortal
    }
}

pub open spec fn ceiling_choice(i: usize) -> CeilingLanguage {
    if i == 0 {
        CeilingLanguage::FlatTiles
    } else if i == 1 {
        CeilingLanguage::Coffered
    } else {
        CeilingLanguage::ExposedSoffit
    }
}

/// Panels fill half of the palette.
pub open spec fn lighting_choice(i: usize) -> LightingLanguage {
    if i <= 1 {
        LightingLanguage::GridPanels
    } else if i == 2 {
        LightingLanguage::StripsAlongCirculation
    } else {
        LightingLanguage::SparsePendants
    }
}

pub open spec fn renovation_choice(i: usize) -> RenovationStyle {
    if i == 0 {
        RenovationStyle::Untouched
    } else if i == 1 {
        RenovationStyle::PartialRefit
    } else {
        RenovationStyle::LayeredRefits
    }
}

pub open spec fn genome_of(r: GenomeRolls) -> ArchitectGenome {
    ArchitectGenome {
        circulation: circulation_culture(r.culture),
        structural_system: structure_choice(picked_index(r.structure, 4)),
        room_proportions: r.proportions,
        threshold_language: threshold_culture(r.threshold),
        ceiling_language: ceiling_choice(picked_index(r.ceiling, 3)),
        lighting_language: lighting_choice(picked_index(r.lighting, 4)),
        furnishing_density: r.furnishing_density,
        renovation_history: renovation_choice(picked_index(r.renovation, 3)),
        tolerance_for_symmetry: r.tolerance_for_symmetry,
    }
}

/// Derives one designer for a region.
pub fn derive_genome(r: &GenomeRolls) -> (genome: ArchitectGenome)
    ensures
        genome == genome_of(*r),
{
    ArchitectGenome {
        circulation: match r.culture {
            0 => CirculationStyle::StraightSpine,
            1 => CirculationStyle::MeanderingSpine,
            2 => CirculationStyle::PairedBranches,
            _ => CirculationStyle::TreeWithCulDeSacs,
        },
        structural_system: match pick_index(r.structure, 4) {
            0 => StructuralSystem::RegularGrid,
            1 => StructuralSystem::DeepSpansWithBeams,
            2 => StructuralSystem::OffsetGrid,
            _ => StructuralSystem::CoreAndShell,
        },
        room_proportions: r.proportions,
        threshold_language: if bits_less(r.threshold, DOOR_CULTURE) {
            ThresholdLanguage::DoorWithLintel
        } else if bits_less(r.threshold, PORTAL_CULTURE) {
            ThresholdLanguage::OpenPortal
        } else {
            ThresholdLanguage::WidePortal
        },
        ceiling_language: match pick_index(r.ceiling, 3) {
            0 => CeilingLanguage::FlatTiles,
            1 => CeilingLanguage::Coffered,
            _ => CeilingLanguage::ExposedSoffit,
        },
        lighting_language: match pick_index(r.lighting, 4) {
            0 => LightingLanguage::GridPanels,
            1 => LightingLanguage::GridPanels,
            2 => LightingLanguage::StripsAlongCirculation,
            _ => LightingLanguage::SparsePendants,
        },
        furnishing_density: r.furnishing_density,
        renovation_history: match pick_index(r.renovation, 3) {
            0 => RenovationStyle::Untouched,
            1 => RenovationStyle::PartialRefit,
            _ => RenovationStyle::LayeredRefits,
        },
        tolerance_for_symmetry: r.tolerance_for_symmetry,
    }
}

/// What a designer builds follows from one roll each: quarters of the culture pick
/// the circulation, four structures and three ceilings are equally likely, panels
/// take half of the lighting rolls, and a third of the designers leaves everything
/// untouched. Rolls past the last choice take the last choice.
pub proof fn law_rolls_pick_the_designer(r: GenomeRolls)
    ensures
        ({
            let g = genome_of(r);
            &&& g.circulation is StraightSpine <==> r.culture == 0
            &&& g.circulation is MeanderingSpine <==> r.culture == 1
            &&& g.circulation is PairedBranches <==> r.culture == 2
            &&& g.circulation is TreeWithCulDeSacs <==> r.culture >= 3
            &&& g.structural_system is RegularGrid <==> r.structure == 0
            &&& g.structural_system is DeepSpansWithBeams <==> r.structure == 1
            &&& g.structural_system is OffsetGrid <==> r.structure == 2
            &&& g.structural_system is CoreAndShell <==> r.structure >= 3
            &&& g.ceiling_language is FlatTiles <==> r.ceiling == 0
            &&& g.ceiling_language is Coffered <==> r.ceiling == 1
            &&& g.ceiling_language is ExposedSoffit <==> r.ceiling >= 2
            &&& g.lighting_language is GridPanels <==> r.lighting < 2
            &&& g.lighting_language is StripsAlongCirculation <==> r.lighting == 2
            &&& g.lighting_language is SparsePendants <==> r.lighting >= 3
            &&& g.renovation_history is Untouched <==> r.renovation == 0
            &&& g.renovation_history is PartialRefit <==> r.renovation == 1
            &&& g.renovation_history is LayeredRefits <==> r.renovation >= 2
            &&& g.threshold_language is DoorWithLintel <==> less(r.threshold, 0x3DCC_CCCD)
            &&& g.threshold_language is WidePortal <==> !less(r.threshold, 0x3F0C_CCCD)
            &&& g.room_proportions == r.proportions && g.furnishing_density == r.furnishing_density
                && g.tolerance_for_symmetry == r.tolerance_for_symmetry
        }),
{
}

} // verus!
