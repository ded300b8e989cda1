//! The registry's data model: packages, their newest release, a listing
//! page, the metadata file of an extracted package, and install states.
use vstd::prelude::*;

verus! {

/// The newest release of a package, as the registry lists it.
#[derive(Clone, Debug)]
pub struct Latest {
    pub name: String,
    pub full_name: String,
    pub description: String,
    pub icon: String,
    /// `major.minor.rev`
    pub version_number: String,
    /// Dependency identifiers; each starts with the `full_name` of a package.
    pub dependencies: Vec<String>,
    pub download_url: String,
    pub downloads: u64,
    pub date_created: String,
    pub website_url: String,
    pub is_active: bool,
}

/// One package of the registry.
#[derive(Clone, Debug)]
pub struct Package {
    pub name: String,
    /// Owner-qualified name, unique within a catalog.
    pub full_name: String,
    pub owner: String,
    pub package_url: String,
    pub date_created: String,
    pub date_updated: String,
    pub rating_score: u8,
    pub is_pinned: bool,
    pub is_deprecated: bool,
    pub total_downloads: u64,
    pub latest: Latest,
}

/// One page of the registry's package listing.
#[derive(Clone, Debug)]
pub struct Resp {
    pub count: u16,
    pub next: Option<String>,
    pub previous: Option<String>,
    pub results: Vec<Package>,
}

/// The metadata file at the root of an extracted package.
#[derive(Clone, Debug)]
pub struct Manifest {
    pub name: String,
    /// `major.minor.rev`
    pub version_number: String,
    pub website_url: String,
    pub description: String,
    pub dependencies: Vec<String>,
}

/// What a package looks like from the mod root.
#[derive(PartialEq, Eq, Structural, Clone, Copy, Debug)]
pub enum InstallState {
    Undownloaded,
    Downloading,
    Downloaded,
}

} // verus!
