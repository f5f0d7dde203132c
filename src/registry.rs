//! The registry of packages and the decisions of a build.
//!
//! A [`Lair`] holds one [`Node`] per descriptor. Each node has three memo
//! cells: its manifest, the path of its source and the path of its compiled
//! artifacts. The caller asks the registry for the work that is due
//! ([`Lair::pump`]), carries it out in any order and concurrently, and hands
//! each outcome back ([`Lair::handle`]). Every recipe of every descriptor is
//! issued at most once, and every outcome, a failure too, is remembered.
use vstd::prelude::*;

use crate::descriptor::{Descriptor, DescriptorView};
use crate::error::{BuildTtcError, ManifestFetchError, SourceFetchError};
use crate::lazy::{Claim, Lazy, LazyState};
use crate::manifest::Manifest;
use crate::paths::{
    join_path, join_paths, joined, main_file, main_path, manifest_file, path_join, source_dir,
    staging_path, string_views, ttc_dir, ttc_path,
};
use crate::tracing::SourceProgressMethod;

verus! {

/// The per-descriptor unit of resolution.
#[derive(Debug)]
pub struct Node {
    pub descriptor: Descriptor,
    /// The parsed manifest of the package.
    pub manifest: Lazy<Result<Manifest, ManifestFetchError>>,
    /// The directory that holds the package's source, so that
    /// `{base_path}/Egg.toml` exists.
    pub base_path: Lazy<Result<String, SourceFetchError>>,
    /// The directory of the compiled artifacts, `{base_path}/build/ttc`.
    pub ttc: Lazy<Result<String, BuildTtcError>>,
    /// The nodes of the declared dependencies, once they are linked.
    pub deps: Vec<usize>,
    /// Whether `deps` has been filled from the manifest.
    pub linked: bool,
    /// Whether the clone of the source has been issued.
    pub cloning: bool,
    /// Whether the reading of the manifest file has been issued.
    pub reading: bool,
    /// Whether the toolchain run has been issued.
    pub compiling: bool,
}

/// Work for the caller to carry out, and to answer with an [`Event`].
#[derive(Debug, Clone, PartialEq, Eq)]
pub enum Action {
    /// Check whether `path` exists; answer with [`Event::Probed`].
    Probe { node: usize, path: String },
    /// Clone the repository at `url` into `path`; answer with [`Event::Cloned`].
    Clone { node: usize, url: String, path: String },
    /// Read and parse the manifest file at `path`; answer with
    /// [`Event::ManifestRead`].
    ReadManifest { node: usize, path: String },
    /// Run the toolchain in check mode on `main_file`, with the given build and
    /// source directories and `search_path` as the package search path;
    /// answer with [`Event::Compiled`].
    Compile {
        node: usize,
        build_dir: String,
        source_dir: String,
        main_file: String,
        search_path: String,
    },
}

/// The outcome of an [`Action`].
#[derive(Debug, PartialEq, Eq)]
pub enum Event {
    Probed { node: usize, exists: bool },
    Cloned { node: usize, result: Result<(), SourceFetchError> },
    ManifestRead { node: usize, result: Result<Manifest, ManifestFetchError> },
    Compiled { node: usize, result: Result<(), BuildTtcError> },
}

/// A progress notification for an observer.
#[derive(Debug, Clone, PartialEq, Eq)]
pub enum Note {
    /// A descriptor was met for the first time.
    NewDescriptor { node: usize },
    FetchingManifest { node: usize },
    ManifestFetched { node: usize },
    FetchingRepo { node: usize, method: SourceProgressMethod },
    SourceFetched { node: usize, path: String },
    Building { node: usize },
    Built { node: usize, path: String },
}

/// The registry: one node per descriptor, the root node first.
pub struct Lair {
    nodes: Vec<Node>,
    notes: Vec<Note>,
    sep: String,
    history: Ghost<Seq<Action>>,
}

/// The node that an action is for.
pub open spec fn action_node(a: Action) -> usize {
    match a {
        Action::Probe { node, .. } => node,
        Action::Clone { node, .. } => node,
        Action::ReadManifest { node, .. } => node,
        Action::Compile { node, .. } => node,
    }
}

/// The recipe that an action carries out: its kind, and its node.
pub open spec fn recipe(a: Action) -> (int, usize) {
    match a {
        Action::Probe { node, .. } => (0, node),
        Action::Clone { node, .. } => (1, node),
        Action::ReadManifest { node, .. } => (2, node),
        Action::Compile { node, .. } => (3, node),
    }
}

/// Whether the recipe of kind `k` has been started on `n`.
pub open spec fn started(n: Node, k: int) -> bool {
    if k == 0 {
        !n.base_path.is_pending()
    } else if k == 1 {
        n.cloning
    } else if k == 2 {
        n.reading
    } else {
        n.compiling
    }
}

/// Whether the source path of `n` is known.
pub open spec fn base_known(n: Node) -> bool {
    n.base_path.state is Ready && n.base_path.state->Ready_0 is Ok
}

/// The invariant of a registry with nodes `nodes` and issued actions `h`.
pub open spec fn wf_parts(nodes: Seq<Node>, h: Seq<Action>) -> bool {
    &&& nodes.len() >= 1
    &&& nodes[0].descriptor@ is Root
    &&& nodes[0].base_path.state is Ready
    &&& forall|i: int| 0 <= i < nodes.len() && (#[trigger] nodes[i].descriptor@) is Root ==> i == 0
    &&& forall|i: int| 0 <= i < nodes.len() && #[trigger] nodes[i].linked ==> linked_ok(nodes, i)
    &&& forall|i: int| 0 <= i < nodes.len() && #[trigger] nodes[i].compiling ==> built_ok(nodes, i)
    &&& forall|i: int, j: int|
        0 <= i < nodes.len() && 0 <= j < nodes.len() && #[trigger] nodes[i].descriptor@
            == #[trigger] nodes[j].descriptor@ ==> i == j
    &&& forall|i: int, k: int|
        0 <= i < nodes.len() && 0 <= k < nodes[i].deps@.len() ==> #[trigger] nodes[i].deps@[k]
            < nodes.len()
    &&& forall|i: int| 0 <= i < nodes.len() ==> flags_ok(#[trigger] nodes[i])
    &&& forall|a: int| 0 <= a < h.len() ==> (#[trigger] action_node(h[a])) < nodes.len()
    &&& forall|a: int|
        0 <= a < h.len() ==> started(nodes[action_node(h[a]) as int], #[trigger] recipe(h[a]).0)
    &&& forall|a: int, b: int| 0 <= a < b < h.len() ==> #[trigger] recipe(h[a]) != #[trigger] recipe(h[b])
}

/// Whether `x` may replace `n` in a well-formed registry of `len` nodes.
pub open spec fn good_successor(n: Node, x: Node, len: int) -> bool {
    &&& node_stable(n, x)
    &&& forall|k: int| 0 <= k < x.deps@.len() ==> #[trigger] x.deps@[k] < len
    &&& flags_ok(x)
}

/// A recipe is marked as issued only on a cell that has been started, and a
/// build only once the source is there.
pub open spec fn flags_ok(n: Node) -> bool {
    &&& n.compiling ==> base_known(n) && !n.ttc.is_pending()
    &&& (n.ttc.state is Ready && ttc_of(n) is Ok) ==> n.compiling
    &&& n.reading ==> !n.manifest.is_pending()
    &&& n.cloning ==> !n.base_path.is_pending()
    &&& (n.manifest.state is Ready && n.manifest.state->Ready_0 is Ok) ==> n.manifest.state->Ready_0->Ok_0.wf()
}

/// Node `i` is linked to the nodes of the dependencies its fetched manifest
/// declares, in the manifest's order.
pub open spec fn linked_ok(nodes: Seq<Node>, i: int) -> bool {
    let n = nodes[i];
    let m = n.manifest.state->Ready_0->Ok_0;
    &&& n.manifest.state is Ready && n.manifest.state->Ready_0 is Ok
    &&& n.deps@.len() == m.deps().len()
    &&& forall|k: int|
        0 <= k < n.deps@.len() ==> (#[trigger] nodes[n.deps@[k] as int]).descriptor@ == m.deps()[k]
}

/// Every dependency of node `i` is built, and none failed.
pub open spec fn built_ok(nodes: Seq<Node>, i: int) -> bool {
    let n = nodes[i];
    &&& n.linked
    &&& all_built(nodes, n.deps@)
    &&& collect(nodes, n.deps@) is Ok
}

/// The outcomes of the nodes of `deps` are the same in two node sequences.
proof fn lemma_collect_same(nodes: Seq<Node>, other: Seq<Node>, deps: Seq<usize>)
    requires
        forall|k: int| 0 <= k < deps.len() ==> ttc_of(#[trigger] other[deps[k] as int]) == ttc_of(nodes[deps[k] as int]),
    ensures
        collect(other, deps) == collect(nodes, deps),
    decreases deps.len(),
{
    if deps.len() > 0 {
        let init = deps.drop_last();
        assert forall|k: int| 0 <= k < init.len() implies ttc_of(#[trigger] other[init[k] as int]) == ttc_of(nodes[init[k] as int]) by {
            assert(init[k] == deps[k]);
        }
        lemma_collect_same(nodes, other, init);
        assert(ttc_of(other[deps[deps.len() - 1] as int]) == ttc_of(nodes[deps[deps.len() - 1] as int]));
    }
}

/// Whether the source path of `n` is known and equal to `p`.
pub open spec fn base_is(n: Node, p: Seq<char>) -> bool {
    base_known(n) && n.base_path.state->Ready_0->Ok_0@ == p
}

/// Whether the cell of `n` named by `kind` (0 source, 1 manifest, 2
/// artifacts) holds a failure.
pub open spec fn failed(n: Node, kind: int) -> bool {
    if kind == 0 {
        n.base_path.state is Ready && n.base_path.state->Ready_0 is Err
    } else if kind == 1 {
        n.manifest.state is Ready && n.manifest.state->Ready_0 is Err
    } else {
        n.ttc.state is Ready && n.ttc.state->Ready_0 is Err
    }
}

/// The registry is left as it was, and nothing is issued.
pub open spec fn unchanged(old: &Lair, new: &Lair, r: Seq<Action>) -> bool {
    &&& new.nodes() == old.nodes()
    &&& new.notes() == old.notes()
    &&& new.history() == old.history()
    &&& r.len() == 0
}

/// Whether a probe of node `i` is in flight.
pub open spec fn probing(l: &Lair, i: usize) -> bool {
    i < l.nodes().len() && l.nodes()[i as int].base_path.state is Running && !l.nodes()[i as int].cloning
}

/// What the answer to a probe of node `i` does: a source that is there
/// already is taken as it is, with no clone; a missing git source is cloned; a
/// missing local source is a failure.
pub open spec fn probed_post(old: &Lair, new: &Lair, i: usize, exists: bool, r: Seq<Action>) -> bool {
    if !probing(old, i) {
        unchanged(old, new, r)
    } else {
        let n = old.nodes()[i as int];
        let d = n.descriptor@;
        let x = new.nodes()[i as int];
        &&& new.nodes() == old.nodes().update(i as int, x)
        &&& if exists {
            &&& x == Node { base_path: x.base_path, ..n }
            &&& base_is(x, source_dir(d))
            &&& r.len() == 0
            &&& new.history() == old.history()
            &&& new.notes().len() == old.notes().len() + 2
            &&& new.notes().take(old.notes().len() as int) == old.notes()
            &&& new.notes()[old.notes().len() as int] == Note::FetchingRepo {
                node: i,
                method: SourceProgressMethod::AlreadyDownloaded,
            }
            &&& new.notes().last() matches Note::SourceFetched { node, path } && node == i && path@
                == source_dir(d)
        } else if d is Git {
            &&& x == Node { cloning: true, ..n }
            &&& r.len() == 1
            &&& r[0] matches Action::Clone { node, url, path } && node == i && url@ == d->Git_url
                && path@ == source_dir(d)
            &&& new.history() == old.history().push(r[0])
            &&& new.notes().len() == old.notes().len() + 1
            &&& new.notes().take(old.notes().len() as int) == old.notes()
            &&& new.notes().last() matches Note::FetchingRepo { node, method } && node == i
                && (method matches SourceProgressMethod::Git { url } && url@ == d->Git_url)
        } else {
            &&& x == Node { base_path: x.base_path, ..n }
            &&& failed(x, 0)
            &&& r.len() == 0
            &&& new.history() == old.history()
            &&& new.notes() == old.notes()
        }
    }
}

/// What the answer to a clone of node `i` does: the source path, or the
/// failure, is remembered.
pub open spec fn cloned_post(
    old: &Lair,
    new: &Lair,
    i: usize,
    result: Result<(), SourceFetchError>,
    r: Seq<Action>,
) -> bool {
    if !(i < old.nodes().len() && old.nodes()[i as int].base_path.state is Running
        && old.nodes()[i as int].cloning) {
        unchanged(old, new, r)
    } else {
        let n = old.nodes()[i as int];
        let x = new.nodes()[i as int];
        &&& new.nodes() == old.nodes().update(i as int, x)
        &&& x == Node { base_path: x.base_path, ..n }
        &&& r.len() == 0
        &&& new.history() == old.history()
        &&& match result {
            Ok(_) => {
                &&& base_is(x, source_dir(n.descriptor@))
                &&& new.notes().len() == old.notes().len() + 1
                &&& new.notes().take(old.notes().len() as int) == old.notes()
                &&& new.notes().last() matches Note::SourceFetched { node, path } && node == i
                    && path@ == source_dir(n.descriptor@)
            },
            Err(e) => {
                &&& x.base_path.state == LazyState::Ready(Err::<String, SourceFetchError>(e))
                &&& new.notes() == old.notes()
            },
        }
    }
}

/// What the answer to the reading of node `i`'s manifest does: the manifest,
/// or the failure, is remembered.
pub open spec fn read_post(
    old: &Lair,
    new: &Lair,
    i: usize,
    result: Result<Manifest, ManifestFetchError>,
    r: Seq<Action>,
) -> bool {
    if !(i < old.nodes().len() && old.nodes()[i as int].manifest.state is Running
        && old.nodes()[i as int].reading) {
        unchanged(old, new, r)
    } else {
        let n = old.nodes()[i as int];
        &&& new.nodes() == old.nodes().update(
            i as int,
            Node { manifest: Lazy { state: LazyState::Ready(result) }, ..n },
        )
        &&& r.len() == 0
        &&& new.history() == old.history()
        &&& new.notes() == if result is Ok {
            old.notes().push(Note::ManifestFetched { node: i })
        } else {
            old.notes()
        }
    }
}

/// What the answer to the toolchain run of node `i` does: the artifact
/// directory `{base_path}/build/ttc`, or the failure, is remembered.
pub open spec fn compiled_post(
    old: &Lair,
    new: &Lair,
    i: usize,
    result: Result<(), BuildTtcError>,
    r: Seq<Action>,
) -> bool {
    if !(i < old.nodes().len() && old.nodes()[i as int].ttc.state is Running
        && old.nodes()[i as int].compiling) {
        unchanged(old, new, r)
    } else {
        let n = old.nodes()[i as int];
        let x = new.nodes()[i as int];
        let base = n.base_path.state->Ready_0->Ok_0@;
        &&& new.nodes() == old.nodes().update(i as int, x)
        &&& x == Node { ttc: x.ttc, ..n }
        &&& r.len() == 0
        &&& new.history() == old.history()
        &&& match result {
            Ok(_) => {
                &&& x.ttc.state is Ready && x.ttc.state->Ready_0 is Ok
                &&& x.ttc.state->Ready_0->Ok_0@ == ttc_dir(base)
                &&& new.notes().len() == old.notes().len() + 1
                &&& new.notes().take(old.notes().len() as int) == old.notes()
                &&& new.notes().last() matches Note::Built { node, path } && node == i && path@
                    == ttc_dir(base)
            },
            Err(e) => {
                &&& x.ttc.state == LazyState::Ready(Err::<String, BuildTtcError>(e))
                &&& new.notes() == old.notes()
            },
        }
    }
}

/// A node that nothing has been asked of yet.
pub open spec fn fresh(n: Node, d: DescriptorView) -> bool {
    &&& n.descriptor@ == d
    &&& n.manifest.is_pending()
    &&& n.base_path.is_pending()
    &&& n.ttc.is_pending()
    &&& n.deps@.len() == 0
    &&& !n.linked
    &&& !n.cloning
    &&& !n.reading
    &&& !n.compiling
}

/// What a memo cell may become: a value once there stays, and a started
/// computation stays started.
pub open spec fn cell_stable<T>(a: Lazy<T>, b: Lazy<T>) -> bool {
    &&& a.state is Ready ==> b.state == a.state
    &&& a.state is Running ==> !(b.state is Pending)
}

/// What a node may become.
pub open spec fn node_stable(a: Node, b: Node) -> bool {
    &&& b.descriptor == a.descriptor
    &&& cell_stable(a.manifest, b.manifest)
    &&& cell_stable(a.base_path, b.base_path)
    &&& cell_stable(a.ttc, b.ttc)
    &&& a.linked ==> b.linked && b.deps == a.deps
    &&& !b.linked ==> b.deps == a.deps
    &&& a.cloning ==> b.cloning
    &&& a.reading ==> b.reading
    &&& a.compiling ==> b.compiling
}

impl Lair {
    /// The nodes, the root first.
    pub closed spec fn nodes(&self) -> Seq<Node> {
        self.nodes@
    }

    /// Every action issued so far, in order.
    pub closed spec fn history(&self) -> Seq<Action> {
        self.history@
    }

    /// The notes not yet taken.
    pub closed spec fn notes(&self) -> Seq<Note> {
        self.notes@
    }

    /// The separator of search paths.
    pub closed spec fn sep(&self) -> Seq<char> {
        self.sep@
    }

    /// One node per descriptor, the root first; dependency links in range; a
    /// build only once the source is there; each recipe issued at most once,
    /// and only on a node that records it as started.
    pub open spec fn wf(&self) -> bool {
        wf_parts(self.nodes(), self.history())
    }

    /// What the registry may become: nodes are only added, each node only
    /// moves forward, and issued actions and notes are only added.
    pub open spec fn stable(&self, next: &Lair) -> bool {
        &&& next.nodes().len() >= self.nodes().len()
        &&& forall|i: int|
            0 <= i < self.nodes().len() ==> node_stable(#[trigger] self.nodes()[i], next.nodes()[i])
        &&& self.history().is_prefix_of(next.history())
        &&& next.sep() == self.sep()
    }

    /// The index of the node of `d`, if there is one.
    pub open spec fn find(&self, d: DescriptorView) -> Option<int> {
        if exists|i: int| 0 <= i < self.nodes().len() && self.nodes()[i].descriptor@ == d {
            Some(choose|i: int| 0 <= i < self.nodes().len() && self.nodes()[i].descriptor@ == d)
        } else {
            None
        }
    }
}

/// Replacing a node by a successor keeps the registry well formed.
proof fn lemma_update_node(nodes: Seq<Node>, h: Seq<Action>, i: int, x: Node)
    requires
        wf_parts(nodes, h),
        0 <= i < nodes.len(),
        good_successor(nodes[i], x, nodes.len() as int),
        x.linked && !nodes[i].linked ==> linked_ok(nodes.update(i, x), i),
        x.compiling && !nodes[i].compiling ==> built_ok(nodes.update(i, x), i),
    ensures
        wf_parts(nodes.update(i, x), h),
        forall|j: int| 0 <= j < nodes.len() ==> node_stable(#[trigger] nodes[j], nodes.update(i, x)[j]),
{
    let n2 = nodes.update(i, x);
    assert forall|a: int| 0 <= a < h.len() implies started(
        n2[action_node(h[a]) as int],
        #[trigger] recipe(h[a]).0,
    ) by {
        let j = action_node(h[a]) as int;
        assert(started(nodes[j], recipe(h[a]).0));
    }
    assert forall|j: int, k: int| 0 <= j < n2.len() && 0 <= k < n2[j].deps@.len() implies #[trigger] n2[j].deps@[k]
        < n2.len() by {
        if j != i {
            assert(nodes[j].deps@[k] < nodes.len());
        }
    }
    assert forall|j: int, k: int|
        0 <= j < n2.len() && 0 <= k < n2.len() && #[trigger] n2[j].descriptor@
            == #[trigger] n2[k].descriptor@ implies j == k by {
        assert(nodes[j].descriptor@ == nodes[k].descriptor@);
    }
    assert forall|j: int| 0 <= j < n2.len() && (#[trigger] n2[j].descriptor@) is Root implies j == 0 by {
        assert(nodes[j].descriptor@ is Root);
    }
    assert forall|j: int| 0 <= j < n2.len() && #[trigger] n2[j].linked implies linked_ok(n2, j) by {
        if j != i || nodes[i].linked {
            assert(linked_ok(nodes, j));
            assert forall|k: int| 0 <= k < n2[j].deps@.len() implies (#[trigger] n2[n2[j].deps@[k] as int]).descriptor@
                == n2[j].manifest.state->Ready_0->Ok_0.deps()[k] by {
                let d = nodes[j].deps@[k] as int;
                assert(d < nodes.len());
                assert(nodes[d].descriptor@ == nodes[j].manifest.state->Ready_0->Ok_0.deps()[k]);
                assert(node_stable(nodes[d], n2[d]));
            }
        }
    }
    assert forall|j: int| 0 <= j < n2.len() && #[trigger] n2[j].compiling implies built_ok(n2, j) by {
        if j != i || nodes[i].compiling {
            assert(built_ok(nodes, j));
            let deps = nodes[j].deps@;
            assert(n2[j].deps@ == deps);
            assert forall|k: int| 0 <= k < deps.len() implies ttc_of(#[trigger] n2[deps[k] as int]) == ttc_of(nodes[deps[k] as int]) && n2[deps[k] as int].ttc.state is Ready by {
                let d = deps[k] as int;
                assert(nodes[d].ttc.state is Ready);
                assert(d < nodes.len());
                assert(node_stable(nodes[d], n2[d]));
            }
            lemma_collect_same(nodes, n2, deps);
        }
    }
}

impl Node {
    fn fresh_node(d: Descriptor) -> (r: Node)
        ensures
            fresh(r, d@),
    {
        Node {
            descriptor: d,
            manifest: Lazy::new(),
            base_path: Lazy::new(),
            ttc: Lazy::new(),
            deps: Vec::new(),
            linked: false,
            cloning: false,
            reading: false,
            compiling: false,
        }
    }
}

impl Lair {
    /// A registry that holds the root package only. Its manifest and source
    /// path are known from the start; its artifacts are yet to be built.
    /// `sep` separates the entries of a search path (`:` or `;`).
    pub fn new(root_manifest: Manifest, root_path: String, sep: String) -> (r: Lair)
        requires
            root_manifest.wf(),
        ensures
            r.wf(),
            r.nodes().len() == 1,
            r.nodes()[0].descriptor@ == (DescriptorView::Root { name: root_manifest.name@ }),
            r.nodes()[0].manifest.state == LazyState::Ready(
                Ok::<Manifest, ManifestFetchError>(root_manifest),
            ),
            r.nodes()[0].base_path.state == LazyState::Ready(
                Ok::<String, SourceFetchError>(root_path),
            ),
            r.nodes()[0].ttc.is_pending(),
            !r.nodes()[0].linked,
            !r.nodes()[0].compiling,
            r.history().len() == 0,
            r.notes() == seq![Note::NewDescriptor { node: 0 }],
            r.sep() == sep@,
    {
        let root = Node {
            descriptor: Descriptor::Root { name: root_manifest.name.clone() },
            manifest: Lazy::new_immediate(Ok(root_manifest)),
            base_path: Lazy::new_immediate(Ok(root_path)),
            ttc: Lazy::new(),
            deps: Vec::new(),
            linked: false,
            cloning: false,
            reading: false,
            compiling: false,
        };
        let mut nodes: Vec<Node> = Vec::new();
        nodes.push(root);
        let mut notes: Vec<Note> = Vec::new();
        notes.push(Note::NewDescriptor { node: 0 });
        let r = Lair { nodes, notes, sep, history: Ghost(Seq::empty()) };
        assert(r.notes() =~= seq![Note::NewDescriptor { node: 0 }]);
        r
    }

    /// The number of nodes.
    pub fn len(&self) -> (r: usize)
        ensures
            r == self.nodes().len(),
    {
        self.nodes.len()
    }

    /// The node at index `i`.
    pub fn get_node(&self, i: usize) -> (r: &Node)
        requires
            i < self.nodes().len(),
        ensures
            *r == self.nodes()[i as int],
    {
        &self.nodes[i]
    }

    /// The root node.
    pub fn root(&self) -> (r: &Node)
        requires
            self.wf(),
        ensures
            *r == self.nodes()[0],
    {
        &self.nodes[0]
    }

    /// The index of the node of `desc`, created if there is none yet. A new
    /// node has nothing started, and its creation is noted.
    pub fn node(&mut self, desc: &Descriptor) -> (r: usize)
        requires
            old(self).wf(),
            desc@ is Root ==> desc@ == old(self).nodes()[0].descriptor@,
        ensures
            final(self).wf(),
            old(self).stable(final(self)),
            r < final(self).nodes().len(),
            final(self).nodes()[r as int].descriptor@ == desc@,
            final(self).history() == old(self).history(),
            forall|j: int| 0 <= j < old(self).nodes().len() ==> final(self).nodes()[j] == old(self).nodes()[j],
            forall|j: int|
                old(self).nodes().len() <= j < final(self).nodes().len() ==> fresh(
                    #[trigger] final(self).nodes()[j],
                    final(self).nodes()[j].descriptor@,
                ),
            old(self).find(desc@) is Some ==> {
                &&& r == old(self).find(desc@)->Some_0
                &&& final(self).nodes() == old(self).nodes()
                &&& final(self).notes() == old(self).notes()
            },
            old(self).find(desc@) is None ==> {
                &&& r == old(self).nodes().len()
                &&& final(self).nodes().len() == r + 1
                &&& final(self).nodes().take(r as int) == old(self).nodes()
                &&& fresh(final(self).nodes()[r as int], desc@)
                &&& final(self).notes() == old(self).notes().push(Note::NewDescriptor { node: r })
            },
    {
        let mut i: usize = 0;
        while i < self.nodes.len()
            invariant
                *self == *old(self),
                self.wf(),
                i <= self.nodes().len(),
                forall|k: int| 0 <= k < i ==> self.nodes()[k].descriptor@ != desc@,
            decreases self.nodes().len() - i,
        {
            if self.nodes[i].descriptor.eq(desc) {
                proof {
                    let f = self.find(desc@);
                    assert(f is Some);
                    let j = f->Some_0;
                    assert(self.nodes()[j].descriptor@ == self.nodes()[i as int].descriptor@);
                }
                return i;
            }
            i = i + 1;
        }
        let ghost prev = self.nodes();
        let n = Node::fresh_node(desc.duplicate());
        self.nodes.push(n);
        self.notes.push(Note::NewDescriptor { node: i });
        proof {
            assert(self.nodes().take(i as int) =~= prev);
            assert forall|k: int| 0 <= k < prev.len() implies node_stable(
                #[trigger] prev[k],
                self.nodes()[k],
            ) by {
                assert(self.nodes()[k] == prev[k]);
            }
            let h = self.history();
            assert(h == old(self).history());
            assert(prev == old(self).nodes());
            assert forall|a: int| 0 <= a < h.len() implies started(
                self.nodes()[action_node(h[a]) as int],
                #[trigger] recipe(h[a]).0,
            ) by {
                assert(action_node(h[a]) < prev.len());
                assert(self.nodes()[action_node(h[a]) as int] == prev[action_node(h[a]) as int]);
            }
            let nodes = self.nodes();
            assert forall|x: int, y: int|
                0 <= x < nodes.len() && 0 <= y < nodes.len() && #[trigger] nodes[x].descriptor@
                    == #[trigger] nodes[y].descriptor@ implies x == y by {
                if x < prev.len() && y < prev.len() {
                    assert(prev[x].descriptor@ == prev[y].descriptor@);
                }
            }
            assert forall|x: int, k: int| 0 <= x < nodes.len() && 0 <= k < nodes[x].deps@.len() implies #[trigger] nodes[x].deps@[k]
                < nodes.len() by {
                if x < prev.len() {
                    assert(prev[x].deps@[k] < prev.len());
                }
            }
            assert forall|x: int| 0 <= x < nodes.len() implies flags_ok(#[trigger] nodes[x]) by {
                if x < prev.len() {
                    assert(flags_ok(prev[x]));
                }
            }
            assert forall|x: int| 0 <= x < nodes.len() && (#[trigger] nodes[x].descriptor@) is Root implies x == 0 by {
                if x < prev.len() {
                    assert(prev[x].descriptor@ is Root);
                } else {
                    assert(desc@ == prev[0].descriptor@);
                    assert(nodes[0].descriptor@ == nodes[x].descriptor@);
                }
            }
            assert forall|x: int| 0 <= x < nodes.len() && #[trigger] nodes[x].linked implies linked_ok(nodes, x) by {
                assert(x < prev.len());
                assert(linked_ok(prev, x));
                assert forall|k: int| 0 <= k < nodes[x].deps@.len() implies (#[trigger] nodes[nodes[x].deps@[k] as int]).descriptor@
                    == nodes[x].manifest.state->Ready_0->Ok_0.deps()[k] by {
                    let d = prev[x].deps@[k] as int;
                    assert(d < prev.len());
                    assert(nodes[d] == prev[d]);
                }
            }
            assert forall|x: int| 0 <= x < nodes.len() && #[trigger] nodes[x].compiling implies built_ok(nodes, x) by {
                assert(x < prev.len());
                assert(built_ok(prev, x));
                let deps = prev[x].deps@;
                assert forall|k: int| 0 <= k < deps.len() implies ttc_of(#[trigger] nodes[deps[k] as int]) == ttc_of(prev[deps[k] as int]) && nodes[deps[k] as int].ttc.state is Ready by {
                    let d = deps[k] as int;
                    assert(d < prev.len());
                    assert(nodes[d] == prev[d]);
                    assert(prev[d].ttc.state is Ready);
                }
                lemma_collect_same(prev, nodes, deps);
            }
            assert(wf_parts(nodes, h));
        }
        i
    }

    /// Requests the artifacts of node `i`: a pending build is started, and the
    /// next [`Lair::pump`] takes it up.
    pub fn request_ttc(&mut self, i: usize) -> (r: Claim)
        requires
            old(self).wf(),
            i < old(self).nodes().len(),
        ensures
            final(self).wf(),
            old(self).stable(final(self)),
            final(self).nodes() == old(self).nodes().update(
                i as int,
                Node { ttc: Lazy { state: crate::lazy::get_step(old(self).nodes()[i as int].ttc.state).0 }, ..old(self).nodes()[i as int] },
            ),
            final(self).history() == old(self).history(),
            final(self).notes() == old(self).notes(),
            r == (match old(self).nodes()[i as int].ttc.state {
                LazyState::Pending => Claim::Evaluate,
                LazyState::Running => Claim::Wait,
                LazyState::Ready(_) => Claim::Ready,
            }),
    {
        let r = self.nodes[i].ttc.get();
        proof {
            let prev = old(self).nodes();
            let x = self.nodes()[i as int];
            lemma_update_node(prev, self.history(), i as int, x);
            assert(self.nodes() =~= prev.update(i as int, x));
        }
        r
    }

    /// Takes the notes gathered so far, oldest first.
    pub fn take_notes(&mut self) -> (r: Vec<Note>)
        requires
            old(self).wf(),
        ensures
            final(self).wf(),
            old(self).stable(final(self)),
            r@ == old(self).notes(),
            final(self).notes().len() == 0,
            final(self).nodes() == old(self).nodes(),
            final(self).history() == old(self).history(),
    {
        let mut taken: Vec<Note> = Vec::new();
        std::mem::swap(&mut taken, &mut self.notes);
        assert(self.nodes() == old(self).nodes());
        assert(self.history() == old(self).history());
        taken
    }
}

impl Lair {
    /// Records `a` as issued and hands it out.
    fn issue(&mut self, a: Action, out: &mut Vec<Action>)
        requires
            old(self).wf(),
            action_node(a) < old(self).nodes().len(),
            started(old(self).nodes()[action_node(a) as int], recipe(a).0),
            forall|x: int|
                0 <= x < old(self).history().len() ==> recipe(#[trigger] old(self).history()[x])
                    != recipe(a),
        ensures
            final(self).wf(),
            final(self).nodes() == old(self).nodes(),
            final(self).notes() == old(self).notes(),
            final(self).sep() == old(self).sep(),
            final(self).history() == old(self).history().push(a),
            final(out)@ == old(out)@.push(a),
    {
        self.history = Ghost(self.history@.push(a));
        out.push(a);
        proof {
            let h = self.history();
            let nodes = self.nodes();
            assert forall|x: int, y: int| 0 <= x < y < h.len() implies #[trigger] recipe(h[x])
                != #[trigger] recipe(h[y]) by {
                if y < h.len() - 1 {
                    assert(h[x] == old(self).history()[x]);
                    assert(h[y] == old(self).history()[y]);
                } else {
                    assert(h[x] == old(self).history()[x]);
                }
            }
            assert forall|x: int| 0 <= x < h.len() implies started(
                nodes[action_node(h[x]) as int],
                #[trigger] recipe(h[x]).0,
            ) by {
                if x < h.len() - 1 {
                    assert(h[x] == old(self).history()[x]);
                }
            }
            assert forall|x: int| 0 <= x < h.len() implies (#[trigger] action_node(h[x]))
                < nodes.len() by {
                if x < h.len() - 1 {
                    assert(h[x] == old(self).history()[x]);
                }
            }
        }
    }

    /// Answers a probe of node `i`.
    fn on_probed(&mut self, i: usize, exists: bool) -> (r: Vec<Action>)
        requires
            old(self).wf(),
        ensures
            final(self).wf(),
            old(self).stable(final(self)),
            probed_post(old(self), final(self), i, exists, r@),
    {
        let mut out: Vec<Action> = Vec::new();
        if i >= self.nodes.len() || !matches!(self.nodes[i].base_path.state, LazyState::Running)
            || self.nodes[i].cloning {
            return out;
        }
        let ghost n = self.nodes()[i as int];
        let path = staging_path(&self.nodes[i].descriptor);
        if exists {
            let shown = path.clone();
            self.nodes[i].base_path.resolve(Ok(path));
            self.notes.push(
                Note::FetchingRepo { node: i, method: SourceProgressMethod::AlreadyDownloaded },
            );
            self.notes.push(Note::SourceFetched { node: i, path: shown });
            proof {
                let x = self.nodes()[i as int];
                lemma_update_node(old(self).nodes(), self.history(), i as int, x);
                assert(self.nodes() =~= old(self).nodes().update(i as int, x));
                assert(self.notes().take(old(self).notes().len() as int) =~= old(self).notes());
            }
            return out;
        }
        let url_opt: Option<String> = match &self.nodes[i].descriptor {
            Descriptor::Git { url, .. } => Some(url.clone()),
            _ => None,
        };
        match url_opt {
            Some(url) => {
                self.nodes[i].cloning = true;
                let ghost mid = self.nodes();
                proof {
                    let x = self.nodes()[i as int];
                    lemma_update_node(old(self).nodes(), self.history(), i as int, x);
                    assert(self.nodes() =~= old(self).nodes().update(i as int, x));
                    assert forall|k: int| 0 <= k < self.history().len() implies recipe(
                        #[trigger] self.history()[k],
                    ) != (1int, i) by {
                        let a = self.history()[k];
                        if recipe(a) == (1int, i) {
                            assert(started(old(self).nodes()[action_node(a) as int], recipe(a).0));
                        }
                    }
                }
                self.notes.push(
                    Note::FetchingRepo {
                        node: i,
                        method: SourceProgressMethod::Git { url: url.clone() },
                    },
                );
                self.issue(Action::Clone { node: i, url, path }, &mut out);
                proof {
                    assert(self.notes().take(old(self).notes().len() as int) =~= old(self).notes());
                }
            },
            None => {
                self.nodes[i].base_path.resolve(
                    Err(SourceFetchError::Dummy(String::from_str("no source at the package path"))),
                );
                proof {
                    let x = self.nodes()[i as int];
                    lemma_update_node(old(self).nodes(), self.history(), i as int, x);
                    assert(self.nodes() =~= old(self).nodes().update(i as int, x));
                }
            },
        }
        out
    }
}

impl Lair {
    /// Answers a clone of node `i`.
    fn on_cloned(&mut self, i: usize, result: Result<(), SourceFetchError>) -> (r: Vec<Action>)
        requires
            old(self).wf(),
        ensures
            final(self).wf(),
            old(self).stable(final(self)),
            cloned_post(old(self), final(self), i, result, r@),
    {
        let out: Vec<Action> = Vec::new();
        if i >= self.nodes.len() || !matches!(self.nodes[i].base_path.state, LazyState::Running)
            || !self.nodes[i].cloning {
            return out;
        }
        match result {
            Ok(()) => {
                let path = staging_path(&self.nodes[i].descriptor);
                let shown = path.clone();
                self.nodes[i].base_path.resolve(Ok(path));
                self.notes.push(Note::SourceFetched { node: i, path: shown });
                proof {
                    assert(self.notes().take(old(self).notes().len() as int) =~= old(self).notes());
                }
            },
            Err(e) => {
                self.nodes[i].base_path.resolve(Err(e));
            },
        }
        proof {
            let x = self.nodes()[i as int];
            lemma_update_node(old(self).nodes(), self.history(), i as int, x);
            assert(self.nodes() =~= old(self).nodes().update(i as int, x));
        }
        out
    }

    /// Answers the reading of node `i`'s manifest.
    fn on_read(&mut self, i: usize, result: Result<Manifest, ManifestFetchError>) -> (r: Vec<
        Action,
    >)
        requires
            old(self).wf(),
            result is Ok ==> result->Ok_0.wf(),
        ensures
            final(self).wf(),
            old(self).stable(final(self)),
            read_post(old(self), final(self), i, result, r@),
    {
        let out: Vec<Action> = Vec::new();
        if i >= self.nodes.len() || !matches!(self.nodes[i].manifest.state, LazyState::Running)
            || !self.nodes[i].reading {
            return out;
        }
        let ok = result.is_ok();
        self.nodes[i].manifest.resolve(result);
        if ok {
            self.notes.push(Note::ManifestFetched { node: i });
        }
        proof {
            let x = self.nodes()[i as int];
            lemma_update_node(old(self).nodes(), self.history(), i as int, x);
            assert(self.nodes() =~= old(self).nodes().update(i as int, x));
        }
        out
    }

    /// Answers the toolchain run of node `i`.
    fn on_compiled(&mut self, i: usize, result: Result<(), BuildTtcError>) -> (r: Vec<Action>)
        requires
            old(self).wf(),
        ensures
            final(self).wf(),
            old(self).stable(final(self)),
            compiled_post(old(self), final(self), i, result, r@),
    {
        let out: Vec<Action> = Vec::new();
        if i >= self.nodes.len() || !matches!(self.nodes[i].ttc.state, LazyState::Running)
            || !self.nodes[i].compiling {
            return out;
        }
        match result {
            Ok(()) => {
                let ttc = match &self.nodes[i].base_path.state {
                    LazyState::Ready(Ok(base)) => ttc_path(base.as_str()),
                    _ => String::new(),
                };
                let shown = ttc.clone();
                self.nodes[i].ttc.resolve(Ok(ttc));
                self.notes.push(Note::Built { node: i, path: shown });
                proof {
                    assert(self.notes().take(old(self).notes().len() as int) =~= old(self).notes());
                }
            },
            Err(e) => {
                self.nodes[i].ttc.resolve(Err(e));
            },
        }
        proof {
            let x = self.nodes()[i as int];
            lemma_update_node(old(self).nodes(), self.history(), i as int, x);
            assert(self.nodes() =~= old(self).nodes().update(i as int, x));
        }
        out
    }

    /// Takes in the outcome of an issued action, and returns the work that
    /// follows from it at once. An event that answers nothing in flight
    /// changes nothing.
    pub fn handle(&mut self, ev: Event) -> (r: Vec<Action>)
        requires
            old(self).wf(),
            ev matches Event::ManifestRead { result: Ok(m), .. } ==> m.wf(),
        ensures
            final(self).wf(),
            old(self).stable(final(self)),
            match ev {
                Event::Probed { node, exists } => probed_post(old(self), final(self), node, exists, r@),
                Event::Cloned { node, result } => cloned_post(old(self), final(self), node, result, r@),
                Event::ManifestRead { node, result } => read_post(
                    old(self),
                    final(self),
                    node,
                    result,
                    r@,
                ),
                Event::Compiled { node, result } => compiled_post(
                    old(self),
                    final(self),
                    node,
                    result,
                    r@,
                ),
            },
    {
        match ev {
            Event::Probed { node, exists } => self.on_probed(node, exists),
            Event::Cloned { node, result } => self.on_cloned(node, result),
            Event::ManifestRead { node, result } => self.on_read(node, result),
            Event::Compiled { node, result } => self.on_compiled(node, result),
        }
    }
}

impl Lair {
    /// Starts fetching the source of node `i`, if nobody has: a git or local
    /// source is probed on disk first. The root package is never fetched: its
    /// source path is known from the start, and no other node is a root.
    fn start_source(&mut self, i: usize, out: &mut Vec<Action>) -> (changed: bool)
        requires
            old(self).wf(),
            i < old(self).nodes().len(),
        ensures
            final(self).wf(),
            source_post(old(self), final(self), i, old(out)@, final(out)@, changed),
    {
        proof {
            lemma_appended_none(self.history(), out@);
        }
        if !matches!(self.nodes[i].base_path.state, LazyState::Pending) {
            assert(self.nodes() =~= old(self).nodes().update(i as int, self.nodes()[i as int]));
            return false;
        }
        proof {
            assert(i != 0);
            assert(!(self.nodes()[i as int].descriptor@ is Root));
        }
        let path = staging_path(&self.nodes[i].descriptor);
        self.nodes[i].base_path.get();
        proof {
            let x = self.nodes()[i as int];
            lemma_update_node(old(self).nodes(), self.history(), i as int, x);
            assert(self.nodes() =~= old(self).nodes().update(i as int, x));
            assert forall|k: int| 0 <= k < self.history().len() implies recipe(
                #[trigger] self.history()[k],
            ) != (0int, i) by {
                let a = self.history()[k];
                if recipe(a) == (0int, i) {
                    assert(started(old(self).nodes()[action_node(a) as int], recipe(a).0));
                }
            }
        }
        let ghost before = out@;
        self.issue(Action::Probe { node: i, path }, out);
        proof {
            assert(out@.take(before.len() as int) =~= before);
            lemma_appended_one(old(self).history(), before, out@);
        }
        true
    }

    /// Starts fetching the manifest of node `i`, if nobody has, and reads the
    /// manifest file once the source is there; a failed source fails the
    /// manifest.
    fn start_manifest(&mut self, i: usize, out: &mut Vec<Action>) -> (changed: bool)
        requires
            old(self).wf(),
            i < old(self).nodes().len(),
        ensures
            final(self).wf(),
            manifest_post(old(self), final(self), i, old(out)@, final(out)@, changed),
    {
        proof {
            lemma_appended_none(self.history(), out@);
        }
        let mut changed = false;
        if matches!(self.nodes[i].manifest.state, LazyState::Pending) {
            self.nodes[i].manifest.get();
            self.notes.push(Note::FetchingManifest { node: i });
            changed = true;
        }
        let ghost mid = self.nodes();
        proof {
            let x = self.nodes()[i as int];
            lemma_update_node(old(self).nodes(), self.history(), i as int, x);
            assert(self.nodes() =~= old(self).nodes().update(i as int, x));
        }
        if !matches!(self.nodes[i].manifest.state, LazyState::Running) || self.nodes[i].reading {
            assert(self.nodes() =~= old(self).nodes().update(i as int, self.nodes()[i as int]));
            return changed;
        }
        let base: Option<Result<String, SourceFetchError>> = match &self.nodes[i].base_path.state {
            LazyState::Ready(Ok(b)) => Some(Ok(join_path(b.as_str(), "Egg.toml"))),
            LazyState::Ready(Err(e)) => Some(Err(e.duplicate())),
            _ => None,
        };
        match base {
            Some(Ok(path)) => {
                self.nodes[i].reading = true;
                proof {
                    let x = self.nodes()[i as int];
                    lemma_update_node(mid, self.history(), i as int, x);
                    assert(self.nodes() =~= mid.update(i as int, x));
                    assert(self.nodes() =~= old(self).nodes().update(i as int, x));
                    assert forall|k: int| 0 <= k < self.history().len() implies recipe(
                        #[trigger] self.history()[k],
                    ) != (2int, i) by {
                        let a = self.history()[k];
                        if recipe(a) == (2int, i) {
                            assert(started(mid[action_node(a) as int], recipe(a).0));
                        }
                    }
                }
                let ghost before = out@;
                self.issue(Action::ReadManifest { node: i, path }, out);
                proof {
                    assert(out@.take(before.len() as int) =~= before);
                    lemma_appended_one(old(self).history(), before, out@);
                }
                true
            },
            Some(Err(e)) => {
                self.nodes[i].manifest.resolve(Err(ManifestFetchError::SourceFetch(e)));
                proof {
                    let x = self.nodes()[i as int];
                    lemma_update_node(mid, self.history(), i as int, x);
                    assert(self.nodes() =~= mid.update(i as int, x));
                    assert(self.nodes() =~= old(self).nodes().update(i as int, x));
                }
                true
            },
            None => {
                assert(self.nodes() =~= old(self).nodes().update(i as int, self.nodes()[i as int]));
                changed
            },
        }
    }
}

/// A copy of a list of descriptors.
fn copy_descriptors(v: &Vec<Descriptor>) -> (r: Vec<Descriptor>)
    ensures
        r@ == v@,
{
    let mut r: Vec<Descriptor> = Vec::new();
    let mut k: usize = 0;
    while k < v.len()
        invariant
            k <= v@.len(),
            r@ == v@.take(k as int),
        decreases v@.len() - k,
    {
        r.push(v[k].duplicate());
        k = k + 1;
        assert(r@ =~= v@.take(k as int));
    }
    assert(v@.take(v@.len() as int) =~= v@);
    r
}

/// The node `n` with its artifacts requested, if they were not.
pub open spec fn requested(n: Node) -> Node {
    if n.ttc.is_pending() {
        Node { ttc: Lazy { state: LazyState::Running }, ..n }
    } else {
        n
    }
}

/// What a registry may become is closed under succession: every method
/// that changes a registry keeps its successor stable, so along any sequence
/// of calls a value once remembered stays remembered.
pub proof fn lemma_stable_trans(a: &Lair, b: &Lair, c: &Lair)
    requires
        a.stable(b),
        b.stable(c),
    ensures
        a.stable(c),
{
    assert forall|i: int| 0 <= i < a.nodes().len() implies node_stable(
        #[trigger] a.nodes()[i],
        c.nodes()[i],
    ) by {
        assert(node_stable(a.nodes()[i], b.nodes()[i]));
        assert(node_stable(b.nodes()[i], c.nodes()[i]));
    }
}

impl Lair {
    /// Links node `i` to the nodes of the dependencies its manifest declares,
    /// creating the nodes not known yet, once the manifest is there.
    fn link(&mut self, i: usize) -> (changed: bool)
        requires
            old(self).wf(),
            i < old(self).nodes().len(),
        ensures
            final(self).wf(),
            link_post(old(self), final(self), i, changed),
    {
        if self.nodes[i].linked {
            return false;
        }
        let wanted = match &self.nodes[i].manifest.state {
            LazyState::Ready(Ok(m)) => copy_descriptors(&m.dependencies),
            _ => {
                return false;
            },
        };
        let ghost m = self.nodes()[i as int].manifest.state->Ready_0->Ok_0;
        assert(flags_ok(self.nodes()[i as int]));
        assert forall|q: int| 0 <= q < wanted@.len() implies !((#[trigger] wanted@[q])@ is Root) by {
            assert(m.deps()[q] == wanted@[q]@);
        }
        let mut idx: Vec<usize> = Vec::new();
        let mut k: usize = 0;
        while k < wanted.len()
            invariant
                self.wf(),
                old(self).stable(self),
                i < old(self).nodes().len(),
                self.history() == old(self).history(),
                wanted@ == m.dependencies@,
                forall|q: int| 0 <= q < wanted@.len() ==> !((#[trigger] wanted@[q])@ is Root),
                k <= wanted@.len(),
                idx@.len() == k,
                forall|j: int| 0 <= j < old(self).nodes().len() ==> self.nodes()[j] == old(self).nodes()[j],
                forall|j: int|
                    old(self).nodes().len() <= j < self.nodes().len() ==> fresh(
                        #[trigger] self.nodes()[j],
                        self.nodes()[j].descriptor@,
                    ),
                forall|q: int|
                    0 <= q < k ==> #[trigger] idx@[q] < self.nodes().len() && self.nodes()[idx@[q] as int].descriptor@
                        == wanted@[q]@,
            decreases wanted@.len() - k,
        {
            let ghost before = *self;
            let j = self.node(&wanted[k]);
            proof {
                lemma_stable_trans(old(self), &before, self);
            }
            idx.push(j);
            k = k + 1;
        }
        let ghost mid = self.nodes();
        self.nodes[i].deps = idx;
        self.nodes[i].linked = true;
        proof {
            let x = self.nodes()[i as int];
            assert(node_stable(mid[i as int], x));
            let n2 = mid.update(i as int, x);
            assert forall|q: int| 0 <= q < x.deps@.len() implies (#[trigger] n2[x.deps@[q] as int]).descriptor@
                == m.deps()[q] by {
                assert(mid[idx@[q] as int].descriptor@ == wanted@[q]@);
                assert(n2[x.deps@[q] as int].descriptor == mid[x.deps@[q] as int].descriptor);
            }
            assert(linked_ok(n2, i as int));
            lemma_update_node(mid, self.history(), i as int, x);
            assert(self.nodes() =~= mid.update(i as int, x));
            assert forall|q: int| 0 <= q < x.deps@.len() implies self.nodes()[#[trigger] x.deps@[q] as int].descriptor@
                == m.deps()[q] by {
                assert(mid[idx@[q] as int].descriptor@ == wanted@[q]@);
            }
            assert forall|j: int| 0 <= j < old(self).nodes().len() implies node_stable(
                #[trigger] old(self).nodes()[j],
                self.nodes()[j],
            ) by {
                assert(node_stable(mid[j], self.nodes()[j]));
            }
        }
        true
    }

    /// Requests the artifacts of every dependency of node `i`.
    fn demand_deps(&mut self, i: usize) -> (changed: bool)
        requires
            old(self).wf(),
            i < old(self).nodes().len(),
        ensures
            final(self).wf(),
            demand_post(old(self), final(self), i, changed),
    {
        let mut changed = false;
        let ghost deps = self.nodes()[i as int].deps@;
        let count = self.nodes.len();
        let mut k: usize = 0;
        while k < self.nodes[i].deps.len()
            invariant
                count == self.nodes().len(),
                self.wf(),
                old(self).stable(self),
                i < old(self).nodes().len(),
                self.history() == old(self).history(),
                self.notes() == old(self).notes(),
                self.nodes().len() == old(self).nodes().len(),
                self.nodes()[i as int].deps@ == deps,
                deps == old(self).nodes()[i as int].deps@,
                k <= deps.len(),
                forall|j: int|
                    0 <= j < old(self).nodes().len() ==> #[trigger] self.nodes()[j] == if deps.take(
                        k as int,
                    ).contains(j as usize) {
                        requested(old(self).nodes()[j])
                    } else {
                        old(self).nodes()[j]
                    },
                !changed ==> self.nodes() == old(self).nodes(),
                changed ==> self.nodes() != old(self).nodes(),
            decreases deps.len() - k,
        {
            let j = self.nodes[i].deps[k];
            proof {
                assert(j < self.nodes().len());
            }
            let ghost before = self.nodes();
            if matches!(self.nodes[j].ttc.state, LazyState::Pending) {
                self.nodes[j].ttc.get();
                changed = true;
                proof {
                    assert(before[j as int].ttc.is_pending());
                    assert(old(self).nodes()[j as int].ttc.is_pending());
                    assert(self.nodes()[j as int] != old(self).nodes()[j as int]);
                    let x = self.nodes()[j as int];
                    lemma_update_node(before, self.history(), j as int, x);
                    assert(self.nodes() =~= before.update(j as int, x));
                }
            }
            proof {
                assert forall|q: int| 0 <= q < old(self).nodes().len() implies #[trigger] self.nodes()[q]
                    == if deps.take(k + 1).contains(q as usize) {
                    requested(old(self).nodes()[q])
                } else {
                    old(self).nodes()[q]
                } by {
                    let t0 = deps.take(k as int);
                    let t1 = deps.take(k + 1);
                    assert(t1 =~= t0.push(j));
                    assert(t1[k as int] == j);
                    if q == j {
                        assert(t1.contains(j));
                        assert(self.nodes()[q] == requested(old(self).nodes()[q]));
                    } else {
                        if t1.contains(q as usize) {
                            let w = choose|w: int| 0 <= w < t1.len() && t1[w] == q as usize;
                            assert(q as usize != j);
                            assert(t1[k as int] == j);
                            assert(w != k);
                            assert(t0[w] == q as usize);
                        }
                        if t0.contains(q as usize) {
                            let w = choose|w: int| 0 <= w < t0.len() && t0[w] == q as usize;
                            assert(t1[w] == q as usize);
                        }
                    }
                }
                assert forall|q: int| 0 <= q < old(self).nodes().len() implies node_stable(
                    #[trigger] old(self).nodes()[q],
                    self.nodes()[q],
                ) by {
                    assert(node_stable(old(self).nodes()[q], before[q]));
                }
            }
            k = k + 1;
        }
        assert(deps.take(deps.len() as int) =~= deps);
        changed
    }
}

/// The outcome of the artifact cell of `n`, once it is there.
pub open spec fn ttc_of(n: Node) -> Result<String, BuildTtcError> {
    n.ttc.state->Ready_0
}

/// Whether the artifacts of every node of `deps` are there, built or failed.
pub open spec fn all_built(nodes: Seq<Node>, deps: Seq<usize>) -> bool {
    forall|k: int| 0 <= k < deps.len() ==> (#[trigger] nodes[deps[k] as int]).ttc.state is Ready
}

/// The artifact directories of the nodes of `deps` in order, or the first
/// failure among them in that order.
pub open spec fn collect(nodes: Seq<Node>, deps: Seq<usize>) -> Result<Seq<Seq<char>>, BuildTtcError>
    decreases deps.len(),
{
    if deps.len() == 0 {
        Ok(Seq::empty())
    } else {
        match collect(nodes, deps.drop_last()) {
            Err(e) => Err(e),
            Ok(ps) => match ttc_of(nodes[deps.last() as int]) {
                Err(e) => Err(e),
                Ok(p) => Ok(ps.push(p@)),
            },
        }
    }
}

/// Whether everything that node `i` needs from its dependencies is known:
/// its manifest failed, or every dependency's artifacts are there.
pub open spec fn deps_settled(nodes: Seq<Node>, i: int) -> bool {
    let n = nodes[i];
    failed(n, 1) || (n.linked && all_built(nodes, n.deps@))
}

/// What node `i` gets from its dependencies once that is settled: their
/// artifact directories, or the first failure in the order of the manifest.
pub open spec fn deps_result(nodes: Seq<Node>, i: int) -> Result<Seq<Seq<char>>, BuildTtcError> {
    let n = nodes[i];
    if failed(n, 1) {
        Err(BuildTtcError::ManifestFetch(n.manifest.state->Ready_0->Err_0))
    } else {
        collect(nodes, n.deps@)
    }
}

/// A failure among the first `k` dependencies is the failure of them all.
proof fn lemma_collect_err(nodes: Seq<Node>, deps: Seq<usize>, k: int)
    requires
        0 <= k <= deps.len(),
        collect(nodes, deps.take(k)) is Err,
    ensures
        collect(nodes, deps) == collect(nodes, deps.take(k)),
    decreases deps.len(),
{
    if k == deps.len() {
        assert(deps.take(k) =~= deps);
    } else {
        assert(deps.drop_last().take(k) =~= deps.take(k));
        lemma_collect_err(nodes, deps.drop_last(), k);
    }
}

/// What the dependencies of a node give it.
#[derive(Debug)]
pub enum DepsOutcome {
    /// Some dependency is not settled yet.
    Waiting,
    /// The manifest or some dependency failed; the first failure.
    Failed(BuildTtcError),
    /// The artifact directories of all dependencies, in manifest order.
    Done(Vec<String>),
}

/// Where the build of a node's dependencies stands.
pub open spec fn outcome_matches(nodes: Seq<Node>, i: int, r: DepsOutcome) -> bool {
    match r {
        DepsOutcome::Waiting => !deps_settled(nodes, i),
        DepsOutcome::Failed(e) => deps_settled(nodes, i) && deps_result(nodes, i) == Err::<
            Seq<Seq<char>>,
            BuildTtcError,
        >(e),
        DepsOutcome::Done(ps) => deps_settled(nodes, i) && deps_result(nodes, i) == Ok::<
            Seq<Seq<char>>,
            BuildTtcError,
        >(string_views(ps@)),
    }
}

/// A copy of a memoized outcome.
fn copy_result(r: &Result<String, BuildTtcError>) -> (c: Result<String, BuildTtcError>)
    ensures
        c == *r,
{
    match r {
        Ok(p) => Ok(p.clone()),
        Err(e) => Err(e.duplicate()),
    }
}

impl Lair {
    /// What the dependencies of node `i` give it, as far as that is known.
    pub fn dependencies_ttc_paths(&self, i: usize) -> (r: DepsOutcome)
        requires
            self.wf(),
            i < self.nodes().len(),
        ensures
            outcome_matches(self.nodes(), i as int, r),
    {
        let n = &self.nodes[i];
        if let LazyState::Ready(Err(e)) = &n.manifest.state {
            return DepsOutcome::Failed(BuildTtcError::ManifestFetch(e.duplicate()));
        }
        if !n.linked {
            return DepsOutcome::Waiting;
        }
        let ghost deps = n.deps@;
        let mut k: usize = 0;
        while k < n.deps.len()
            invariant
                self.wf(),
                i < self.nodes().len(),
                *n == self.nodes()[i as int],
                deps == n.deps@,
                !failed(*n, 1),
                n.linked,
                k <= deps.len(),
                forall|q: int| 0 <= q < k ==> (#[trigger] self.nodes()[deps[q] as int]).ttc.state is Ready,
            decreases deps.len() - k,
        {
            let j = n.deps[k];
            if !matches!(self.nodes[j].ttc.state, LazyState::Ready(_)) {
                assert(!all_built(self.nodes(), deps)) by {
                    assert(!(self.nodes()[deps[k as int] as int].ttc.state is Ready));
                }
                return DepsOutcome::Waiting;
            }
            k = k + 1;
        }
        let mut paths: Vec<String> = Vec::new();
        proof {
            assert(deps.take(0) =~= Seq::<usize>::empty());
            assert(string_views(paths@) =~= Seq::<Seq<char>>::empty());
            assert(all_built(self.nodes(), deps));
        }
        let mut k: usize = 0;
        while k < n.deps.len()
            invariant
                self.wf(),
                i < self.nodes().len(),
                *n == self.nodes()[i as int],
                deps == n.deps@,
                all_built(self.nodes(), deps),
                !failed(*n, 1),
                n.linked,
                k <= deps.len(),
                collect(self.nodes(), deps.take(k as int)) == Ok::<Seq<Seq<char>>, BuildTtcError>(
                    string_views(paths@),
                ),
            decreases deps.len() - k,
        {
            let j = n.deps[k];
            proof {
                assert(deps.take(k + 1).drop_last() =~= deps.take(k as int));
                assert(self.nodes()[deps[k as int] as int].ttc.state is Ready);
            }
            match &self.nodes[j].ttc.state {
                LazyState::Ready(Ok(p)) => {
                    let ghost before = paths@;
                    paths.push(p.clone());
                    assert(string_views(paths@) =~= string_views(before).push(p@));
                },
                LazyState::Ready(Err(e)) => {
                    proof {
                        lemma_collect_err(self.nodes(), deps, k + 1);
                    }
                    return DepsOutcome::Failed(e.duplicate());
                },
                _ => {
                    return DepsOutcome::Waiting;
                },
            }
            k = k + 1;
        }
        assert(deps.take(deps.len() as int) =~= deps);
        DepsOutcome::Done(paths)
    }

    /// The outcome of the artifacts of node `i`, once it is there.
    pub fn ttc_outcome(&self, i: usize) -> (r: Option<Result<String, BuildTtcError>>)
        requires
            i < self.nodes().len(),
        ensures
            r == match self.nodes()[i as int].ttc.state {
                LazyState::Ready(v) => Some(v),
                _ => None,
            },
    {
        match &self.nodes[i].ttc.state {
            LazyState::Ready(v) => Some(copy_result(v)),
            _ => None,
        }
    }
}

/// A node moves only forward: a node that may become another, and back,
/// is that other node.
proof fn lemma_node_antisym(a: Node, b: Node)
    requires
        node_stable(a, b),
        node_stable(b, a),
    ensures
        a == b,
{
    assert(a.manifest == b.manifest);
    assert(a.base_path == b.base_path);
    assert(a.ttc == b.ttc);
}

/// A registry that has moved stays moved.
proof fn lemma_moved(a: &Lair, b: &Lair, c: &Lair)
    requires
        a.stable(b),
        b.stable(c),
        a.nodes() != b.nodes(),
    ensures
        a.nodes() != c.nodes(),
{
    if a.nodes().len() == b.nodes().len() && a.nodes() == c.nodes() {
        assert(exists|i: int| 0 <= i < a.nodes().len() && a.nodes()[i] != b.nodes()[i]) by {
            if !(exists|i: int| 0 <= i < a.nodes().len() && a.nodes()[i] != b.nodes()[i]) {
                assert(a.nodes() =~= b.nodes());
            }
        }
        let i = choose|i: int| 0 <= i < a.nodes().len() && a.nodes()[i] != b.nodes()[i];
        assert(node_stable(a.nodes()[i], b.nodes()[i]));
        assert(node_stable(b.nodes()[i], c.nodes()[i]));
        lemma_node_antisym(a.nodes()[i], b.nodes()[i]);
    }
}

/// No action of `o` from index `from` on is a clone.
pub open spec fn no_clone(o: Seq<Action>, from: int) -> bool {
    forall|k: int| from <= k < o.len() ==> !(#[trigger] o[k] is Clone)
}

/// Whether `o1` extends `o0`, and `h1` extends `h0` by the same actions.
pub open spec fn appended(h0: Seq<Action>, h1: Seq<Action>, o0: Seq<Action>, o1: Seq<Action>) -> bool {
    &&& o1.len() >= o0.len()
    &&& o1.take(o0.len() as int) == o0
    &&& h1 == h0 + o1.skip(o0.len() as int)
}

proof fn lemma_appended_trans(
    h0: Seq<Action>,
    h1: Seq<Action>,
    h2: Seq<Action>,
    o0: Seq<Action>,
    o1: Seq<Action>,
    o2: Seq<Action>,
)
    requires
        appended(h0, h1, o0, o1),
        appended(h1, h2, o1, o2),
    ensures
        appended(h0, h2, o0, o2),
{
    assert(o2.take(o0.len() as int) =~= o1.take(o0.len() as int));
    assert(o2.skip(o0.len() as int) =~= o1.skip(o0.len() as int) + o2.skip(o1.len() as int));
    assert(h2 =~= h0 + o2.skip(o0.len() as int));
}

proof fn lemma_appended_one(h0: Seq<Action>, o0: Seq<Action>, o1: Seq<Action>)
    requires
        o1.len() == o0.len() + 1,
        o1.take(o0.len() as int) == o0,
    ensures
        appended(h0, h0.push(o1.last()), o0, o1),
{
    assert(o1.skip(o0.len() as int) =~= seq![o1.last()]);
    assert(h0.push(o1.last()) =~= h0 + seq![o1.last()]);
}

proof fn lemma_appended_none(h0: Seq<Action>, o0: Seq<Action>)
    ensures
        appended(h0, h0, o0, o0),
{
    assert(o0.skip(o0.len() as int) =~= Seq::<Action>::empty());
    assert(h0 + Seq::<Action>::empty() =~= h0);
    assert(o0.take(o0.len() as int) =~= o0);
}

/// The toolchain run of node `i`: build directory `{base}/build`, source
/// directory `{base}/src`, entry file `{base}/src/{name}.idr`, and the
/// dependencies' artifact directories `ps` joined with `sep` as search path.
pub open spec fn compile_matches(a: Action, i: usize, n: Node, ps: Seq<Seq<char>>, sep: Seq<char>) -> bool {
    let b = n.base_path.state->Ready_0->Ok_0@;
    a matches Action::Compile { node, build_dir, source_dir, main_file: m, search_path } && node == i
        && build_dir@ == path_join(b, "build"@) && source_dir@ == path_join(b, "src"@) && m@
        == main_file(b, n.descriptor@.name()) && search_path@ == joined(ps, sep)
}

impl Lair {
    /// Settles the artifacts of node `i` once its source and its
    /// dependencies are settled: a failed dependency or manifest fails it
    /// first, a failed source next; otherwise the toolchain is run.
    fn finish(&mut self, i: usize, out: &mut Vec<Action>) -> (changed: bool)
        requires
            old(self).wf(),
            i < old(self).nodes().len(),
            old(self).nodes()[i as int].ttc.state is Running,
            !old(self).nodes()[i as int].compiling,
        ensures
            final(self).wf(),
            finish_post(old(self), final(self), i, old(out)@, final(out)@, changed),
    {
        proof {
            lemma_appended_none(self.history(), out@);
        }
        let outcome = self.dependencies_ttc_paths(i);
        if matches!(outcome, DepsOutcome::Waiting) || !matches!(self.nodes[i].base_path.state, LazyState::Ready(_)) {
            return false;
        }
        let base: Result<String, SourceFetchError> = match &self.nodes[i].base_path.state {
            LazyState::Ready(Ok(b)) => Ok(b.clone()),
            LazyState::Ready(Err(e)) => Err(e.duplicate()),
            _ => Ok(String::new()),
        };
        match outcome {
            DepsOutcome::Failed(e) => {
                self.nodes[i].ttc.resolve(Err(e));
            },
            DepsOutcome::Done(ps) => {
                match base {
                    Err(e) => {
                        self.nodes[i].ttc.resolve(Err(BuildTtcError::SourceFetch(e)));
                    },
                    Ok(b) => {
                        let build_dir = join_path(b.as_str(), "build");
                        let source_dir = join_path(b.as_str(), "src");
                        let main_file = main_path(b.as_str(), self.nodes[i].descriptor.name());
                        let search_path = join_paths(&ps, self.sep.as_str());
                        self.nodes[i].compiling = true;
                        proof {
                            let x = self.nodes()[i as int];
                            let prev = old(self).nodes();
                            let n2 = prev.update(i as int, x);
                            let deps = prev[i as int].deps@;
                            assert(!failed(prev[i as int], 1));
                            assert forall|k: int| 0 <= k < deps.len() implies ttc_of(#[trigger] n2[deps[k] as int]) == ttc_of(prev[deps[k] as int]) && n2[deps[k] as int].ttc.state is Ready by {
                                assert(prev[deps[k] as int].ttc.state is Ready);
                            }
                            lemma_collect_same(prev, n2, deps);
                            assert(built_ok(n2, i as int));
                            lemma_update_node(old(self).nodes(), self.history(), i as int, x);
                            assert(self.nodes() =~= old(self).nodes().update(i as int, x));
                            assert forall|k: int| 0 <= k < self.history().len() implies recipe(
                                #[trigger] self.history()[k],
                            ) != (3int, i) by {
                                let a = self.history()[k];
                                if recipe(a) == (3int, i) {
                                    assert(started(old(self).nodes()[action_node(a) as int], recipe(a).0));
                                }
                            }
                        }
                        let ghost before = out@;
                        self.issue(
                            Action::Compile { node: i, build_dir, source_dir, main_file, search_path },
                            out,
                        );
                        self.notes.push(Note::Building { node: i });
                        proof {
                            assert(out@.take(before.len() as int) =~= before);
                            lemma_appended_one(old(self).history(), before, out@);
                        }
                        return true;
                    },
                }
            },
            DepsOutcome::Waiting => {},
        }
        proof {
            let x = self.nodes()[i as int];
            lemma_update_node(old(self).nodes(), self.history(), i as int, x);
            assert(self.nodes() =~= old(self).nodes().update(i as int, x));
        }
        true
    }
}

/// What starting the source of node `i` does, from `a` to `b`, with the
/// actions handed out growing from `o0` to `o1`.
pub open spec fn source_post(a: &Lair, b: &Lair, i: usize, o0: Seq<Action>, o1: Seq<Action>, changed: bool) -> bool {
    &&& no_clone(o1, o0.len() as int)
    &&& changed ==> b.nodes() != a.nodes()
    &&& a.stable(b)
    &&& b.notes() == a.notes()
    &&& appended(a.history(), b.history(), o0, o1)
    &&& !changed ==> b.nodes() == a.nodes() && b.history()
        == a.history() && o1 == o0
    &&& ({
        let n = a.nodes()[i as int];
        let x = b.nodes()[i as int];
        &&& b.nodes() == a.nodes().update(i as int, x)
        &&& x == Node { base_path: x.base_path, ..n }
        &&& if !n.base_path.is_pending() {
            !changed
        } else {
            &&& !(n.descriptor@ is Root)
            &&& x.base_path.state is Running
            &&& o1.len() == o0.len() + 1
            &&& o1.take(o0.len() as int) == o0
            &&& o1.last() matches Action::Probe { node, path } && node == i && path@
                == source_dir(n.descriptor@)
            &&& b.history() == a.history().push(o1.last())
        }
    })
}

/// What starting the manifest of node `i` does.
pub open spec fn manifest_post(a: &Lair, b: &Lair, i: usize, o0: Seq<Action>, o1: Seq<Action>, changed: bool) -> bool {
    &&& no_clone(o1, o0.len() as int)
    &&& changed ==> b.nodes() != a.nodes()
    &&& a.stable(b)
    &&& appended(a.history(), b.history(), o0, o1)
    &&& !changed ==> b.nodes() == a.nodes() && b.history()
        == a.history() && o1 == o0 && b.notes()
        == a.notes()
    &&& ({
        let n = a.nodes()[i as int];
        let x = b.nodes()[i as int];
        let notes0 = if n.manifest.is_pending() {
            a.notes().push(Note::FetchingManifest { node: i })
        } else {
            a.notes()
        };
        let running = n.manifest.is_pending() || (n.manifest.state is Running
            && !n.reading);
        &&& b.nodes() == a.nodes().update(i as int, x)
        &&& x == Node { manifest: x.manifest, reading: x.reading, ..n }
        &&& b.notes() == notes0
        &&& if !running {
            !changed
        } else if base_known(n) {
            &&& x.manifest.state is Running
            &&& x.reading
            &&& o1.len() == o0.len() + 1
            &&& o1.take(o0.len() as int) == o0
            &&& o1.last() matches Action::ReadManifest { node, path } && node == i
                && path@ == manifest_file(n.base_path.state->Ready_0->Ok_0@)
            &&& b.history() == a.history().push(o1.last())
        } else if failed(n, 0) {
            &&& x.manifest.state == LazyState::Ready(
                Err::<Manifest, ManifestFetchError>(
                    ManifestFetchError::SourceFetch(n.base_path.state->Ready_0->Err_0),
                ),
            )
            &&& x.reading == n.reading
            &&& b.history() == a.history()
            &&& o1 == o0
        } else {
            &&& x.manifest.state is Running
            &&& x.reading == n.reading
            &&& b.history() == a.history()
            &&& o1 == o0
        }
    })
}

/// What linking node `i` to its dependencies does.
pub open spec fn link_post(a: &Lair, b: &Lair, i: usize, changed: bool) -> bool {
    &&& changed ==> b.nodes() != a.nodes()
    &&& a.stable(b)
    &&& b.history() == a.history()
    &&& !changed ==> b.nodes() == a.nodes() && b.notes()
        == a.notes()
    &&& ({
        let n = a.nodes()[i as int];
        let x = b.nodes()[i as int];
        if n.linked || !(n.manifest.state is Ready && n.manifest.state->Ready_0 is Ok) {
            !changed
        } else {
            let m = n.manifest.state->Ready_0->Ok_0;
            &&& x == Node { deps: x.deps, linked: true, ..n }
            &&& x.deps@.len() == m.deps().len()
            &&& forall|k: int|
                0 <= k < x.deps@.len() ==> b.nodes()[#[trigger] x.deps@[k] as int].descriptor@
                    == m.deps()[k]
            &&& forall|j: int|
                0 <= j < a.nodes().len() && j != i ==> b.nodes()[j]
                    == a.nodes()[j]
            &&& forall|j: int|
                a.nodes().len() <= j < b.nodes().len() ==> fresh(
                    #[trigger] b.nodes()[j],
                    b.nodes()[j].descriptor@,
                )
        }
    })
}

/// What requesting the dependencies of node `i` does.
pub open spec fn demand_post(a: &Lair, b: &Lair, i: usize, changed: bool) -> bool {
    &&& changed ==> b.nodes() != a.nodes()
    &&& a.stable(b)
    &&& b.history() == a.history()
    &&& b.notes() == a.notes()
    &&& b.nodes().len() == a.nodes().len()
    &&& forall|j: int|
        0 <= j < a.nodes().len() ==> #[trigger] b.nodes()[j] == if a.nodes()[i as int].deps@.contains(
            j as usize,
        ) {
            requested(a.nodes()[j])
        } else {
            a.nodes()[j]
        }
    &&& !changed ==> b.nodes() == a.nodes()
}

/// What settling the artifacts of node `i` does.
pub open spec fn finish_post(a: &Lair, b: &Lair, i: usize, o0: Seq<Action>, o1: Seq<Action>, changed: bool) -> bool {
    &&& no_clone(o1, o0.len() as int)
    &&& changed ==> b.nodes() != a.nodes()
    &&& a.stable(b)
    &&& appended(a.history(), b.history(), o0, o1)
    &&& !changed ==> b.nodes() == a.nodes() && o1 == o0
        && b.notes() == a.notes()
    &&& ({
        let nodes = a.nodes();
        let n = nodes[i as int];
        let x = b.nodes()[i as int];
        if !(deps_settled(nodes, i as int) && n.base_path.state is Ready) {
            !changed
        } else {
            &&& b.nodes() == nodes.update(i as int, x)
            &&& match deps_result(nodes, i as int) {
                Err(e) => {
                    &&& x == Node {
                        ttc: Lazy { state: LazyState::Ready(Err::<String, BuildTtcError>(e)) },
                        ..n
                    }
                    &&& o1 == o0
                    &&& b.notes() == a.notes()
                },
                Ok(ps) => if failed(n, 0) {
                    &&& x == Node {
                        ttc: Lazy {
                            state: LazyState::Ready(
                                Err::<String, BuildTtcError>(
                                    BuildTtcError::SourceFetch(n.base_path.state->Ready_0->Err_0),
                                ),
                            ),
                        },
                        ..n
                    }
                    &&& o1 == o0
                    &&& b.notes() == a.notes()
                } else {
                    &&& x == Node { compiling: true, ..n }
                    &&& o1.len() == o0.len() + 1
                    &&& compile_matches(o1.last(), i, n, ps, a.sep())
                    &&& b.notes() == a.notes().push(Note::Building { node: i })
                },
            }
        }
    })
}

/// Whether node `n` has its artifacts requested and its build not issued,
/// so that a round of [`Lair::pump`] looks at it.
pub open spec fn movable(n: Node) -> bool {
    n.ttc.state is Running && !n.compiling
}

/// Whether node `i` can move no further until an event comes in: its source
/// and manifest are started, a known source has its manifest read or failed,
/// a fetched manifest is linked, linked dependencies are requested, and its
/// own outcome still waits on its source or dependencies.
pub open spec fn idle(nodes: Seq<Node>, i: int) -> bool {
    let n = nodes[i];
    &&& !n.base_path.is_pending()
    &&& !n.manifest.is_pending()
    &&& (n.manifest.state is Running && n.base_path.state is Ready) ==> n.reading
    &&& (n.manifest.state is Ready && n.manifest.state->Ready_0 is Ok) ==> n.linked
    &&& n.linked ==> forall|k: int|
        0 <= k < n.deps@.len() ==> !(#[trigger] nodes[n.deps@[k] as int]).ttc.is_pending()
    &&& !(deps_settled(nodes, i) && n.base_path.state is Ready)
}

/// The registries and hand-outs between the steps of one node's move, and
/// whether each step changed anything.
pub struct Moves {
    pub s1: Lair,
    pub s2: Lair,
    pub s3: Lair,
    pub s4: Lair,
    pub o1: Seq<Action>,
    pub o2: Seq<Action>,
    pub c1: bool,
    pub c2: bool,
    pub c3: bool,
    pub c4: bool,
    pub c5: bool,
}

/// Node `i` moves from `a` to `b` through the steps `m`: its source is
/// started, then its manifest, then it is linked, its dependencies are
/// requested, and its artifacts are settled or built.
pub open spec fn moved_by(
    a: &Lair,
    b: &Lair,
    i: usize,
    o0: Seq<Action>,
    o3: Seq<Action>,
    changed: bool,
    m: Moves,
) -> bool {
    &&& source_post(a, &m.s1, i, o0, m.o1, m.c1)
    &&& manifest_post(&m.s1, &m.s2, i, m.o1, m.o2, m.c2)
    &&& link_post(&m.s2, &m.s3, i, m.c3)
    &&& demand_post(&m.s3, &m.s4, i, m.c4)
    &&& finish_post(&m.s4, b, i, m.o2, o3, m.c5)
    &&& changed == (m.c1 || m.c2 || m.c3 || m.c4 || m.c5)
}

/// What moving node `i` forward does: nothing to a node that is not
/// movable, and the steps of [`moved_by`] to one that is.
pub open spec fn advance_post(
    a: &Lair,
    b: &Lair,
    i: usize,
    o0: Seq<Action>,
    o1: Seq<Action>,
    changed: bool,
) -> bool {
    if movable(a.nodes()[i as int]) {
        exists|m: Moves| #[trigger] moved_by(a, b, i, o0, o1, changed, m)
    } else {
        *b == *a && o1 == o0 && !changed
    }
}

/// The registries, hand-outs and change flags along one round.
pub struct Round {
    pub states: Seq<Lair>,
    pub outs: Seq<Seq<Action>>,
    pub flags: Seq<bool>,
}

/// A round from `a` to `b`: the nodes `0..n` known at its start are moved
/// forward in turn, and together they hand out `actions`.
pub open spec fn round_by(a: &Lair, b: &Lair, n: int, actions: Seq<Action>, w: Round) -> bool {
    &&& n == a.nodes().len()
    &&& w.states.len() == n + 1
    &&& w.outs.len() == n + 1
    &&& w.flags.len() == n
    &&& w.states[0] == *a
    &&& w.states[n] == *b
    &&& w.outs[0] == Seq::<Action>::empty()
    &&& w.outs[n] == actions
    &&& forall|k: int|
        0 <= k < n ==> advance_post(
            &w.states[k],
            &w.states[k + 1],
            k as usize,
            w.outs[k],
            w.outs[k + 1],
            #[trigger] w.flags[k],
        )
}

/// What one round of [`Lair::pump`] hands out.
#[derive(Debug)]
pub struct Pumped {
    /// The work that became due, each a recipe never issued before.
    pub actions: Vec<Action>,
    /// Whether the round changed the registry at all; a round that changed
    /// nothing leaves nothing more to do until an event comes in.
    pub changed: bool,
}

impl Lair {
    /// Moves node `i` forward, if its artifacts are requested and not being
    /// built yet: its source and manifest are started, its dependencies
    /// linked and requested, and its artifacts settled or built once all of
    /// that is there.
    fn advance(&mut self, i: usize, out: &mut Vec<Action>) -> (changed: bool)
        requires
            old(self).wf(),
            i < old(self).nodes().len(),
        ensures
            no_clone(final(out)@, old(out)@.len() as int),
            final(self).wf(),
            old(self).stable(final(self)),
            appended(old(self).history(), final(self).history(), old(out)@, final(out)@),
            !changed ==> final(self).nodes() == old(self).nodes() && final(out)@ == old(out)@
                && final(self).notes() == old(self).notes(),
            advance_post(old(self), final(self), i, old(out)@, final(out)@, changed),
            !movable(old(self).nodes()[i as int]) ==> !changed,
            changed ==> final(self).nodes() != old(self).nodes(),
            !changed && movable(old(self).nodes()[i as int]) ==> idle(final(self).nodes(), i as int),
    {
        proof {
            lemma_appended_none(self.history(), out@);
        }
        if !matches!(self.nodes[i].ttc.state, LazyState::Running) || self.nodes[i].compiling {
            return false;
        }
        let ghost s0 = *self;
        let ghost o0 = out@;
        let c1 = self.start_source(i, out);
        let ghost s1 = *self;
        let ghost o1 = out@;
        let c2 = self.start_manifest(i, out);
        let ghost s2 = *self;
        let ghost o2 = out@;
        let c3 = self.link(i);
        let ghost s3 = *self;
        let c4 = self.demand_deps(i);
        let ghost s4 = *self;
        proof {
            lemma_stable_trans(&s0, &s1, &s2);
            lemma_stable_trans(&s0, &s2, &s3);
            lemma_stable_trans(&s0, &s3, &s4);
            lemma_appended_trans(s0.history(), s1.history(), s2.history(), o0, o1, o2);
            lemma_appended_none(s2.history(), o2);
            assert(s4.nodes()[i as int].ttc.state is Running);
        }
        let c5 = self.finish(i, out);
        proof {
            lemma_stable_trans(&s0, &s4, self);
            lemma_appended_trans(s0.history(), s4.history(), self.history(), o0, o2, out@);
            assert(no_clone(out@, o0.len() as int)) by {
                assert forall|k: int| o0.len() <= k < out@.len() implies !(#[trigger] out@[k] is Clone) by {
                    if k < o1.len() {
                        assert(o1.take(o0.len() as int) == o0);
                        assert(o2.take(o1.len() as int) == o1);
                        assert(out@.take(o2.len() as int) == o2);
                        assert(out@[k] == o2[k]);
                        assert(o2[k] == o1[k]);
                    } else if k < o2.len() {
                        assert(out@.take(o2.len() as int) == o2);
                        assert(out@[k] == o2[k]);
                    }
                }
            }
            if c1 {
                lemma_moved(&s0, &s1, &s2);
                lemma_moved(&s0, &s2, &s3);
                lemma_moved(&s0, &s3, &s4);
                lemma_moved(&s0, &s4, self);
            } else if c2 {
                lemma_moved(&s0, &s2, &s3);
                lemma_moved(&s0, &s3, &s4);
                lemma_moved(&s0, &s4, self);
            } else if c3 {
                lemma_moved(&s0, &s3, &s4);
                lemma_moved(&s0, &s4, self);
            } else if c4 {
                lemma_moved(&s0, &s4, self);
            }
            let m = Moves { s1, s2, s3, s4, o1, o2, c1, c2, c3, c4, c5 };
            assert(moved_by(&s0, self, i, o0, out@, c1 || c2 || c3 || c4 || c5, m));
            if !(c1 || c2 || c3 || c4 || c5) {
                let nodes = self.nodes();
                let n = nodes[i as int];
                if n.linked {
                    assert forall|k: int| 0 <= k < n.deps@.len() implies !(#[trigger] nodes[n.deps@[k] as int]).ttc.is_pending() by {
                        let j = n.deps@[k];
                        assert(n.deps@.contains(j));
                        assert(nodes[j as int] == requested(nodes[j as int]));
                    }
                }
            }
        }
        c1 || c2 || c3 || c4 || c5
    }

    /// One round over the nodes known at its start: each node whose
    /// artifacts are requested is moved forward. Returns the work that became
    /// due; every action in it is a recipe issued for the first time.
    pub fn pump(&mut self) -> (r: Pumped)
        requires
            old(self).wf(),
        ensures
            final(self).wf(),
            old(self).stable(final(self)),
            final(self).history() == old(self).history() + r.actions@,
            exists|w: Round|
                #[trigger] round_by(old(self), final(self), old(self).nodes().len() as int, r.actions@, w),
            r.changed == (final(self).nodes() != old(self).nodes()),
            no_clone(r.actions@, 0),
            !r.changed ==> r.actions@.len() == 0 && final(self).notes() == old(self).notes(),
            !r.changed ==> forall|i: int|
                0 <= i < final(self).nodes().len() && movable(#[trigger] final(self).nodes()[i])
                    ==> idle(final(self).nodes(), i),
    {
        let mut out: Vec<Action> = Vec::new();
        let mut changed = false;
        let n = self.nodes.len();
        let mut i: usize = 0;
        let ghost mut states: Seq<Lair> = seq![*self];
        let ghost mut outs: Seq<Seq<Action>> = seq![out@];
        let ghost mut flags: Seq<bool> = Seq::empty();
        proof {
            lemma_appended_none(self.history(), out@);
            assert(self.history() + out@ =~= self.history());
        }
        while i < n
            invariant
                self.wf(),
                old(self).stable(self),
                n <= self.nodes().len(),
                i <= n,
                self.history() == old(self).history() + out@,
                !changed ==> self.nodes() == old(self).nodes() && out@.len() == 0 && self.notes()
                    == old(self).notes(),
                changed == (self.nodes() != old(self).nodes()),
                no_clone(out@, 0),
                n == old(self).nodes().len(),
                states.len() == i + 1,
                outs.len() == i + 1,
                flags.len() == i,
                states[0] == *old(self),
                states[i as int] == *self,
                outs[0] == Seq::<Action>::empty(),
                outs[i as int] == out@,
                forall|k: int|
                    0 <= k < i ==> #[trigger] advance_post(
                        &states[k],
                        &states[k + 1],
                        k as usize,
                        outs[k],
                        outs[k + 1],
                        flags[k],
                    ),
                !changed ==> forall|j: int|
                    0 <= j < i && movable(#[trigger] self.nodes()[j]) ==> idle(self.nodes(), j),
            decreases n - i,
        {
            let ghost before = *self;
            let ghost o0 = out@;
            let c = self.advance(i, &mut out);
            proof {
                lemma_stable_trans(old(self), &before, self);
                assert(out@.skip(o0.len() as int) + Seq::<Action>::empty() =~= out@.skip(o0.len() as int));
                assert(out@ =~= o0 + out@.skip(o0.len() as int));
                assert(self.history() =~= old(self).history() + out@);
                if c && changed {
                    lemma_moved(old(self), &before, self);
                }
                assert forall|k: int| 0 <= k < out@.len() implies !(#[trigger] out@[k] is Clone) by {
                    if k < o0.len() {
                        assert(out@.take(o0.len() as int) == o0);
                        assert(out@[k] == o0[k]);
                    }
                }
            }
            proof {
                let ghost prev_states = states;
                let ghost prev_outs = outs;
                let ghost prev_flags = flags;
                states = states.push(*self);
                outs = outs.push(out@);
                flags = flags.push(c);
                assert forall|k: int| 0 <= k < i + 1 implies #[trigger] advance_post(
                    &states[k],
                    &states[k + 1],
                    k as usize,
                    outs[k],
                    outs[k + 1],
                    flags[k],
                ) by {
                    if k < i {
                        assert(states[k] == prev_states[k]);
                        assert(states[k + 1] == prev_states[k + 1]);
                        assert(outs[k] == prev_outs[k]);
                        assert(outs[k + 1] == prev_outs[k + 1]);
                        assert(flags[k] == prev_flags[k]);
                        assert(advance_post(
                            &prev_states[k],
                            &prev_states[k + 1],
                            k as usize,
                            prev_outs[k],
                            prev_outs[k + 1],
                            prev_flags[k],
                        ));
                    }
                }
            }
            changed = changed || c;
            i = i + 1;
        }
        proof {
            let w = Round { states, outs, flags };
            assert(round_by(old(self), self, old(self).nodes().len() as int, out@, w));
        }
        Pumped { actions: out, changed }
    }
}

/// Whether node `n` waits for the answer to an issued action: a probe or
/// clone of its source, a read of its manifest, or a toolchain run.
pub open spec fn awaiting(n: Node) -> bool {
    ||| n.base_path.state is Running
    ||| (n.manifest.state is Running && n.reading)
    ||| (n.ttc.state is Running && n.compiling)
}

impl Lair {
    /// Whether some issued action is still unanswered. With a round of
    /// [`Lair::pump`] that changed nothing, this tells a build that waits for
    /// answers from one that has nothing left to wait for.
    pub fn awaits_answer(&self) -> (r: bool)
        ensures
            r == exists|i: int| 0 <= i < self.nodes().len() && awaiting(#[trigger] self.nodes()[i]),
    {
        let mut i: usize = 0;
        while i < self.nodes.len()
            invariant
                i <= self.nodes().len(),
                forall|k: int| 0 <= k < i ==> !awaiting(#[trigger] self.nodes()[k]),
            decreases self.nodes().len() - i,
        {
            let n = &self.nodes[i];
            let base_running = matches!(n.base_path.state, LazyState::Running);
            let reading = matches!(n.manifest.state, LazyState::Running) && n.reading;
            let compiling = matches!(n.ttc.state, LazyState::Running) && n.compiling;
            if base_running || reading || compiling {
                assert(awaiting(self.nodes()[i as int]));
                return true;
            }
            i = i + 1;
        }
        false
    }
}

/// How to run the root package once it is built.
#[derive(Debug, Clone, PartialEq, Eq)]
pub struct RunCommand {
    /// The dependencies' artifact directories, joined as a search path.
    pub search_path: String,
    /// The source directory, relative to the root package.
    pub source_dir: String,
    /// The root package's entry file, `{base}/src/{name}.idr`.
    pub main_file: String,
}

impl Lair {
    /// How to run the root package: with the artifact directories of its
    /// dependencies as search path, on its entry file. A built root always
    /// has its dependencies built. Fails with the root's own failure if its
    /// build failed, and with an unclassified failure if it is not built yet.
    pub fn run(&self) -> (r: Result<RunCommand, BuildTtcError>)
        requires
            self.wf(),
        ensures
            ({
                let nodes = self.nodes();
                let root = nodes[0];
                match root.ttc.state {
                    LazyState::Ready(Err(e)) => r == Err::<RunCommand, BuildTtcError>(e),
                    LazyState::Ready(Ok(_)) => {
                        let b = root.base_path.state->Ready_0->Ok_0@;
                        &&& deps_settled(nodes, 0)
                        &&& deps_result(nodes, 0) is Ok
                        &&& r is Ok
                        &&& r->Ok_0.search_path@ == joined(deps_result(nodes, 0)->Ok_0, self.sep())
                        &&& r->Ok_0.source_dir@ == "src"@
                        &&& r->Ok_0.main_file@ == main_file(b, root.descriptor@.name())
                    },
                    _ => r is Err && r->Err_0 is Dummy,
                }
            }),
    {
        match &self.nodes[0].ttc.state {
            LazyState::Ready(Ok(_)) => {},
            LazyState::Ready(Err(e)) => {
                return Err(e.duplicate());
            },
            _ => {
                return Err(BuildTtcError::Dummy(String::from_str("the root package is not built")));
            },
        }
        let base = match &self.nodes[0].base_path.state {
            LazyState::Ready(Ok(b)) => b.clone(),
            _ => String::new(),
        };
        match self.dependencies_ttc_paths(0) {
            DepsOutcome::Done(ps) => {
                let search_path = join_paths(&ps, self.sep.as_str());
                let main_file = main_path(base.as_str(), self.nodes[0].descriptor.name());
                Ok(RunCommand { search_path, source_dir: String::from_str("src"), main_file })
            },
            DepsOutcome::Failed(e) => Err(e),
            DepsOutcome::Waiting => Err(
                BuildTtcError::Dummy(String::from_str("the dependencies are not built")),
            ),
        }
    }
}

/// Failures are remembered: once the source, manifest or artifacts of a
/// node hold an outcome, a failure too, every later registry holds the same
/// outcome for it, and so answers every later request with it.
pub proof fn lemma_outcome_kept(a: &Lair, b: &Lair, i: int)
    requires
        a.stable(b),
        0 <= i < a.nodes().len(),
    ensures
        a.nodes()[i].base_path.is_ready() ==> b.nodes()[i].base_path == a.nodes()[i].base_path,
        a.nodes()[i].manifest.is_ready() ==> b.nodes()[i].manifest == a.nodes()[i].manifest,
        a.nodes()[i].ttc.is_ready() ==> b.nodes()[i].ttc == a.nodes()[i].ttc,
        b.nodes()[i].descriptor == a.nodes()[i].descriptor,
{
    assert(node_stable(a.nodes()[i], b.nodes()[i]));
}

impl Node {
    /// The package name, for example `AmazingTool`.
    pub fn name(&self) -> (r: &str)
        ensures
            r@ == self.descriptor@.name(),
    {
        self.descriptor.name()
    }

    /// The entry file `{base_path}/src/{name}.idr`, once the source path is
    /// known; the failure to fetch the source otherwise.
    pub fn main(&self) -> (r: Option<Result<String, SourceFetchError>>)
        ensures
            match self.base_path.state {
                LazyState::Ready(Ok(b)) => r is Some && r->Some_0 is Ok && r->Some_0->Ok_0@ == main_file(
                    b@,
                    self.descriptor@.name(),
                ),
                LazyState::Ready(Err(e)) => r == Some(Err::<String, SourceFetchError>(e)),
                _ => r is None,
            },
    {
        match &self.base_path.state {
            LazyState::Ready(Ok(b)) => Some(Ok(main_path(b.as_str(), self.name()))),
            LazyState::Ready(Err(e)) => Some(Err(e.duplicate())),
            _ => None,
        }
    }

    /// The manifest, once it is fetched or has failed.
    pub fn manifest(&self) -> (r: Option<&Result<Manifest, ManifestFetchError>>)
        ensures
            r == match self.manifest.state {
                LazyState::Ready(v) => Some(&v),
                _ => None,
            },
    {
        self.manifest.value()
    }

    /// The source path, once the source is fetched or has failed.
    pub fn base_path(&self) -> (r: Option<&Result<String, SourceFetchError>>)
        ensures
            r == match self.base_path.state {
                LazyState::Ready(v) => Some(&v),
                _ => None,
            },
    {
        self.base_path.value()
    }

    /// The artifact directory, once the package is built or has failed.
    pub fn ttc(&self) -> (r: Option<&Result<String, BuildTtcError>>)
        ensures
            r == match self.ttc.state {
                LazyState::Ready(v) => Some(&v),
                _ => None,
            },
    {
        self.ttc.value()
    }

    /// The indexes of the dependencies' nodes once they are linked, or the
    /// failure of the manifest that declares them.
    pub fn dependencies(&self) -> (r: Option<Result<&Vec<usize>, ManifestFetchError>>)
        ensures
            r == match self.manifest.state {
                LazyState::Ready(Err(e)) => Some(Err::<&Vec<usize>, ManifestFetchError>(e)),
                _ => if self.linked {
                    Some(Ok::<&Vec<usize>, ManifestFetchError>(&self.deps))
                } else {
                    None
                },
            },
    {
        if let LazyState::Ready(Err(e)) = &self.manifest.state {
            return Some(Err(e.duplicate()));
        }
        if self.linked {
            Some(Ok(&self.deps))
        } else {
            None
        }
    }
}

impl Lair {
    /// Requests the artifacts of the root package, which sets the whole build
    /// going at the next [`Lair::pump`].
    pub fn build(&mut self) -> (r: Claim)
        requires
            old(self).wf(),
        ensures
            final(self).wf(),
            old(self).stable(final(self)),
            final(self).nodes() == old(self).nodes().update(
                0,
                requested(old(self).nodes()[0]),
            ),
            final(self).history() == old(self).history(),
            final(self).notes() == old(self).notes(),
            r == (match old(self).nodes()[0].ttc.state {
                LazyState::Pending => Claim::Evaluate,
                LazyState::Running => Claim::Wait,
                LazyState::Ready(_) => Claim::Ready,
            }),
    {
        self.request_ttc(0)
    }
}

/// Two lookups of equal descriptors give the same node: the registry holds
/// one node per descriptor, so the node found or made for a descriptor is the
/// one that every later lookup of an equal descriptor returns.
pub proof fn lemma_one_node_per_descriptor(l: &Lair, i: int, j: int)
    requires
        l.wf(),
        0 <= i < l.nodes().len(),
        0 <= j < l.nodes().len(),
        l.nodes()[i].descriptor@ == l.nodes()[j].descriptor@,
    ensures
        i == j,
{
}

/// Each recipe runs at most once per descriptor: two issued actions of the
/// same kind (probe, clone, manifest read, toolchain run) for equal
/// descriptors are one and the same action. A package shared by several
/// dependents is fetched and built once, and a failed fetch is not retried.
pub proof fn lemma_recipe_once(l: &Lair, a: int, b: int)
    requires
        l.wf(),
        0 <= a < l.history().len(),
        0 <= b < l.history().len(),
        recipe(l.history()[a]).0 == recipe(l.history()[b]).0,
        l.nodes()[action_node(l.history()[a]) as int].descriptor@ == l.nodes()[action_node(
            l.history()[b],
        ) as int].descriptor@,
    ensures
        a == b,
{
    let h = l.history();
    assert(action_node(h[a]) < l.nodes().len());
    assert(action_node(h[b]) < l.nodes().len());
    if a < b {
        assert(recipe(h[a]) != recipe(h[b]));
    } else if b < a {
        assert(recipe(h[b]) != recipe(h[a]));
    }
}

/// A source found on disk is never cloned: the answer to a probe that finds
/// it issues nothing and leaves no clone of the node issued, and no later
/// registry probes the node again, which is the only state in which a clone
/// of it is issued.
pub proof fn lemma_present_source_not_cloned(
    a: &Lair,
    b: &Lair,
    c: &Lair,
    i: usize,
    r: Seq<Action>,
)
    requires
        a.wf(),
        probing(a, i),
        probed_post(a, b, i, true, r),
        b.stable(c),
    ensures
        r.len() == 0,
        base_is(b.nodes()[i as int], source_dir(a.nodes()[i as int].descriptor@)),
        forall|k: int|
            0 <= k < b.history().len() ==> !(#[trigger] b.history()[k] is Clone && action_node(
                b.history()[k],
            ) == i),
        !probing(c, i),
{
    assert forall|k: int|
        0 <= k < b.history().len() implies !(#[trigger] b.history()[k] is Clone && action_node(
            b.history()[k],
        ) == i) by {
        let h = a.history();
        if h[k] is Clone && action_node(h[k]) == i {
            assert(started(a.nodes()[action_node(h[k]) as int], recipe(h[k]).0));
        }
    }
    assert(node_stable(b.nodes()[i as int], c.nodes()[i as int]));
}

/// The dependencies of a linked node are the registry's nodes of the
/// descriptors its manifest declares, in the manifest's order, each once.
pub proof fn lemma_dependencies_linked(l: &Lair, i: int)
    requires
        l.wf(),
        0 <= i < l.nodes().len(),
        l.nodes()[i].linked,
    ensures
        ({
            let n = l.nodes()[i];
            let m = n.manifest.state->Ready_0->Ok_0;
            &&& n.manifest.state is Ready && n.manifest.state->Ready_0 is Ok
            &&& n.deps@.len() == m.deps().len()
            &&& forall|k: int|
                0 <= k < n.deps@.len() ==> n.deps@[k] < l.nodes().len() && (#[trigger] l.nodes()[n.deps@[k] as int]).descriptor@
                    == m.deps()[k]
            &&& n.deps@.no_duplicates()
        }),
{
    let nodes = l.nodes();
    let n = nodes[i];
    let m = n.manifest.state->Ready_0->Ok_0;
    assert(linked_ok(nodes, i));
    assert(flags_ok(n));
    assert forall|a: int, b: int| 0 <= a < n.deps@.len() && 0 <= b < n.deps@.len() && a != b implies n.deps@[a]
        != n.deps@[b] by {
        if n.deps@[a] == n.deps@[b] {
            assert(nodes[n.deps@[a] as int].descriptor@ == m.deps()[a]);
            assert(nodes[n.deps@[b] as int].descriptor@ == m.deps()[b]);
        }
    }
    assert forall|k: int| 0 <= k < n.deps@.len() implies n.deps@[k] < nodes.len() by {
        assert(n.deps@[k] < nodes.len());
    }
}

} // verus!
