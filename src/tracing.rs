//! Observing fetch and build progress, for output, progress bars or
//! analytics. Observers have no say in what is done.
use vstd::prelude::*;

use crate::descriptor::Descriptor;
use crate::manifest::Manifest;

verus! {

/// A manifest fetch in progress.
pub trait ManifestProgress: Sized {
    type Tr;

    fn start(tr: &Self::Tr, desc: &Descriptor) -> Self;

    fn success(self, manifest: &Manifest) {
    }
}

/// How a package's source is obtained.
#[derive(Clone, Debug, PartialEq, Eq)]
pub enum SourceProgressMethod {
    /// The source is on disk already.
    AlreadyDownloaded,
    /// The source is cloned from a git repository.
    Git { url: String },
}

/// A source fetch in progress.
pub trait SourceProgress: Sized {
    type Tr;

    fn start(tr: &Self::Tr, desc: &Descriptor, method: &SourceProgressMethod) -> Self;

    fn success(self, source_path: &str) {
    }
}

/// A build in progress.
pub trait BuildProgress: Sized {
    type Tr;

    fn start(tr: &Self::Tr, desc: &Descriptor) -> Self;

    fn command(&self, command: &str) {
    }

    fn success(self, ttc_path: &str) {
    }
}

/// An observer of the whole resolution: it hands out one progress handle per
/// fetch or build.
pub trait Tracer: Sized {
    type Manifest: ManifestProgress<Tr = Self>;
    type Source: SourceProgress<Tr = Self>;
    type Build: BuildProgress<Tr = Self>;

    /// Exploring the dependency graph, a new descriptor was found.
    fn new_descriptor(&self, desc: &Descriptor) {
    }

    fn fetching_manifest(&self, desc: &Descriptor) -> Self::Manifest {
        Self::Manifest::start(self, desc)
    }

    fn fetching_repo(&self, desc: &Descriptor, method: &SourceProgressMethod) -> Self::Source {
        Self::Source::start(self, desc, method)
    }

    fn building(&self, desc: &Descriptor) -> Self::Build {
        Self::Build::start(self, desc)
    }
}

/// The progress handle that ignores everything.
#[derive(Debug, Clone, Copy)]
pub struct Ignore;

impl ManifestProgress for Ignore {
    type Tr = ();

    fn start(tr: &(), desc: &Descriptor) -> Self {
        Ignore
    }
}

impl SourceProgress for Ignore {
    type Tr = ();

    fn start(tr: &(), desc: &Descriptor, method: &SourceProgressMethod) -> Self {
        Ignore
    }
}

impl BuildProgress for Ignore {
    type Tr = ();

    fn start(tr: &(), desc: &Descriptor) -> Self {
        Ignore
    }
}

/// The unit observer ignores everything.
impl Tracer for () {
    type Manifest = Ignore;
    type Source = Ignore;
    type Build = Ignore;
}

} // verus!
