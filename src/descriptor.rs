//! Package identities.
use vstd::prelude::*;

verus! {

/// A git repository alone does not determine which source version to use:
/// a branch, a commit or a tag picks it.
#[derive(Clone, Debug, Eq, Hash)]
pub enum GitVersion {
    /// For example `main`.
    Branch(String),
    /// Full commit hash.
    Rev(String),
    /// Some git tag.
    Tag(String),
}

/// The mathematical value of a [`GitVersion`].
pub enum GitVersionView {
    Branch(Seq<char>),
    Rev(Seq<char>),
    Tag(Seq<char>),
}

/// Dependency descriptor: a package name together with where its source lives
/// and which version of it is meant. Two equal descriptors denote the same
/// package outcome.
#[derive(Clone, Debug, Eq, Hash)]
pub enum Descriptor {
    /// The package being built; there is one per run.
    Root { name: String },
    /// A package fetched from a git repository.
    Git {
        /// Package name, for example `CoolCollections`.
        name: String,
        url: String,
        version: GitVersion,
    },
    /// A package whose source is somewhere on the local machine.
    Local { name: String, path: String },
}

/// The mathematical value of a [`Descriptor`].
pub enum DescriptorView {
    Root { name: Seq<char> },
    Git { name: Seq<char>, url: Seq<char>, version: GitVersionView },
    Local { name: Seq<char>, path: Seq<char> },
}

impl DescriptorView {
    /// The package name of every variant.
    pub open spec fn name(self) -> Seq<char> {
        match self {
            DescriptorView::Root { name } => name,
            DescriptorView::Git { name, .. } => name,
            DescriptorView::Local { name, .. } => name,
        }
    }
}

impl View for GitVersion {
    type V = GitVersionView;

    open spec fn view(&self) -> GitVersionView {
        match self {
            GitVersion::Branch(s) => GitVersionView::Branch(s@),
            GitVersion::Rev(s) => GitVersionView::Rev(s@),
            GitVersion::Tag(s) => GitVersionView::Tag(s@),
        }
    }
}

impl View for Descriptor {
    type V = DescriptorView;

    open spec fn view(&self) -> DescriptorView {
        match self {
            Descriptor::Root { name } => DescriptorView::Root { name: name@ },
            Descriptor::Git { name, url, version } => DescriptorView::Git {
                name: name@,
                url: url@,
                version: version@,
            },
            Descriptor::Local { name, path } => DescriptorView::Local { name: name@, path: path@ },
        }
    }
}

impl GitVersion {
    /// A copy that is equal to `self`.
    pub fn duplicate(&self) -> (r: GitVersion)
        ensures
            r == *self,
    {
        match self {
            GitVersion::Branch(s) => GitVersion::Branch(s.clone()),
            GitVersion::Rev(s) => GitVersion::Rev(s.clone()),
            GitVersion::Tag(s) => GitVersion::Tag(s.clone()),
        }
    }
}

impl PartialEq for GitVersion {
    fn eq(&self, other: &GitVersion) -> (r: bool) {
        match (self, other) {
            (GitVersion::Branch(a), GitVersion::Branch(b)) => *a == *b,
            (GitVersion::Rev(a), GitVersion::Rev(b)) => *a == *b,
            (GitVersion::Tag(a), GitVersion::Tag(b)) => *a == *b,
            _ => false,
        }
    }
}

impl vstd::std_specs::cmp::PartialEqSpecImpl for GitVersion {
    open spec fn obeys_eq_spec() -> bool {
        true
    }

    open spec fn eq_spec(&self, other: &GitVersion) -> bool {
        self@ == other@
    }
}

impl Descriptor {
    /// The package name, for example `CoolCollections`.
    pub fn name(&self) -> (r: &str)
        ensures
            r@ == self@.name(),
    {
        match self {
            Descriptor::Git { name, .. } => name.as_str(),
            Descriptor::Local { name, .. } => name.as_str(),
            Descriptor::Root { name } => name.as_str(),
        }
    }

    /// A copy that is equal to `self`.
    pub fn duplicate(&self) -> (r: Descriptor)
        ensures
            r == *self,
    {
        match self {
            Descriptor::Root { name } => Descriptor::Root { name: name.clone() },
            Descriptor::Git { name, url, version } => Descriptor::Git {
                name: name.clone(),
                url: url.clone(),
                version: version.duplicate(),
            },
            Descriptor::Local { name, path } => Descriptor::Local {
                name: name.clone(),
                path: path.clone(),
            },
        }
    }
}

impl PartialEq for Descriptor {
    fn eq(&self, other: &Descriptor) -> (r: bool) {
        match (self, other) {
            (Descriptor::Root { name: a }, Descriptor::Root { name: b }) => *a == *b,
            (
                Descriptor::Git { name: a, url: u, version: v },
                Descriptor::Git { name: b, url: w, version: x },
            ) => *a == *b && *u == *w && v.eq(x),
            (Descriptor::Local { name: a, path: p }, Descriptor::Local { name: b, path: q }) => {
                *a == *b && *p == *q
            },
            _ => false,
        }
    }
}

impl vstd::std_specs::cmp::PartialEqSpecImpl for Descriptor {
    open spec fn obeys_eq_spec() -> bool {
        true
    }

    open spec fn eq_spec(&self, other: &Descriptor) -> bool {
        self@ == other@
    }
}

} // verus!
