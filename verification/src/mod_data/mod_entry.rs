//! Immutable metadata of an installed mod (what About.xml says).

use vstd::prelude::*;
use super::mod_id::ModId;

verus! {

/// Metadata of an installed mod.
///
/// There is deliberately no "active" flag here: being enabled, and the load
/// order, belong to a build ([`super::profile::Profile`]), not to the mod.
#[derive(Debug, Clone)]
pub struct ModEntry {
    pub name: String,
    pub package_id: ModId,
    pub version: String,
    pub author: String,
    pub supported_versions: Vec<String>,
    /// Folder of the mod on disk.
    pub path: String,
    pub source: ModSource,
    pub dependencies: Vec<ModId>,
    /// Where to download a missing dependency from: (packageId, Workshop ID).
    pub dependency_sources: Vec<(ModId, u64)>,
    pub load_after: Vec<ModId>,
    pub load_before: Vec<ModId>,
    pub incompatible_with: Vec<ModId>,
    pub description: String,
    pub preview_path: Option<String>,
}

/// Where a mod comes from.
#[derive(Debug, Clone, PartialEq)]
pub enum ModSource {
    /// Data/Core
    Core,
    /// Data/Royalty and the like.
    DLC(String),
    /// Mods/
    Local,
    /// Steam Workshop item.
    Workshop(u64),
}

impl ModEntry {
    pub fn id(&self) -> (r: &ModId)
        ensures
            r@ == self.package_id@,
    {
        &self.package_id
    }

    pub fn is_core(&self) -> (r: bool)
        ensures
            r == (self.source is Core),
    {
        matches!(self.source, ModSource::Core)
    }

    /// Core or DLC: vanilla content that cannot be disabled or removed.
    pub fn is_vanilla(&self) -> (r: bool)
        ensures
            r == (self.source is Core || self.source is DLC),
    {
        matches!(self.source, ModSource::Core | ModSource::DLC(_))
    }
}

} // verus!
