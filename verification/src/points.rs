//! The point-cloud model: immutable point records addressed by a stable
//! ordinal, the selectable interpolation attribute, and the inclusion
//! filter that decides which points enter the spatial index.
//!
//! Coordinates and elevations are fixed-point integers in units chosen by
//! the caller.

use vstd::prelude::*;

verus! {

/// Which return orders of a pulse are admitted by the filter.
#[derive(Clone, Copy, PartialEq, Eq, Structural, Debug)]
pub enum ReturnMode {
    All,
    Last,
    First,
}

/// The point scalar interpolated onto the output grid.
#[derive(Clone, Copy, PartialEq, Eq, Structural, Debug)]
pub enum AttributeKind {
    Elevation,
    Intensity,
    Classification,
    ScanAngle,
    UserData,
}

/// One point of a cloud.
#[derive(Clone, Copy, PartialEq, Eq, Structural, Debug)]
pub struct PointRecord {
    pub x: i64,
    pub y: i64,
    pub z: i64,
    pub intensity: u16,
    pub classification: u8,
    pub scan_angle: i16,
    pub user_data: u8,
    pub is_early_return: bool,
    pub is_late_return: bool,
    pub withheld: bool,
}

/// The scalar that `kind` selects from a point.
pub open spec fn spec_attribute(p: PointRecord, kind: AttributeKind) -> int {
    match kind {
        AttributeKind::Elevation => p.z as int,
        AttributeKind::Intensity => p.intensity as int,
        AttributeKind::Classification => p.classification as int,
        AttributeKind::ScanAngle => p.scan_angle as int,
        AttributeKind::UserData => p.user_data as int,
    }
}

/// Reads the selected scalar of a point.
pub fn attribute_of(p: &PointRecord, kind: AttributeKind) -> (v: i64)
    ensures
        v == spec_attribute(*p, kind),
{
    match kind {
        AttributeKind::Elevation => p.z,
        AttributeKind::Intensity => p.intensity as i64,
        AttributeKind::Classification => p.classification as i64,
        AttributeKind::ScanAngle => p.scan_angle as i64,
        AttributeKind::UserData => p.user_data as i64,
    }
}

/// The inclusion filter of the interpolator: return-order mode, excluded
/// classification codes, and the elevation band.
pub struct FilterConfig {
    pub return_mode: ReturnMode,
    /// Indexed by classification code; `true` excludes the code.
    pub excluded: Vec<bool>,
    pub min_z: i64,
    pub max_z: i64,
}

impl FilterConfig {
    /// One flag per possible classification code.
    pub open spec fn wf(self) -> bool {
        self.excluded@.len() == 256
    }
}

/// Whether the return-order mode admits a point.
pub open spec fn return_mode_admits(mode: ReturnMode, p: PointRecord) -> bool {
    match mode {
        ReturnMode::All => true,
        ReturnMode::Last => p.is_late_return,
        ReturnMode::First => p.is_early_return,
    }
}

/// The inclusion predicate: a point qualifies for the spatial index iff it
/// is not withheld, its return order is admitted, its classification is not
/// excluded, and its elevation lies within the configured band.
pub open spec fn spec_qualifies(p: PointRecord, cfg: FilterConfig) -> bool {
    &&& !p.withheld
    &&& return_mode_admits(cfg.return_mode, p)
    &&& !cfg.excluded@[p.classification as int]
    &&& cfg.min_z <= p.z <= cfg.max_z
}

/// Decides the inclusion predicate.
pub fn qualifies(p: &PointRecord, cfg: &FilterConfig) -> (b: bool)
    requires
        cfg.wf(),
    ensures
        b == spec_qualifies(*p, *cfg),
{
    let admitted = match cfg.return_mode {
        ReturnMode::All => true,
        ReturnMode::Last => p.is_late_return,
        ReturnMode::First => p.is_early_return,
    };
    !p.withheld && admitted && !cfg.excluded[p.classification as usize] && cfg.min_z <= p.z && p.z
        <= cfg.max_z
}

} // verus!
