//! Package manifests, in the shape that the manifest file's parser produces.
use vstd::prelude::*;

use crate::descriptor::{Descriptor, DescriptorView, GitVersion, GitVersionView};

verus! {

/// One entry of a manifest's dependency table: a package name and the URL of
/// its git repository.
#[derive(Clone, Debug, PartialEq, Eq)]
pub struct DependencyEntry {
    pub name: String,
    pub git: String,
}

/// Parsed package metadata: name, version and the set of declared
/// dependencies. A parsed manifest lists them once each, in ascending order.
#[derive(Clone, Debug, PartialEq, Eq)]
pub struct Manifest {
    pub name: String,
    pub version: String,
    pub dependencies: Vec<Descriptor>,
}

/// The views of a sequence of descriptors.
pub open spec fn views(s: Seq<Descriptor>) -> Seq<DescriptorView> {
    s.map_values(|d: Descriptor| d@)
}

/// The branch that every declared dependency tracks.
pub open spec fn default_branch() -> Seq<char> {
    "main"@
}

/// The descriptor that a dependency entry declares.
pub open spec fn git_dependency(e: (Seq<char>, Seq<char>)) -> DescriptorView {
    DescriptorView::Git { name: e.0, url: e.1, version: GitVersionView::Branch(default_branch()) }
}

/// Whether `a` comes before `b` in the lexicographic order of characters,
/// which is the order of Rust's strings.
pub open spec fn lex_lt(a: Seq<char>, b: Seq<char>) -> bool
    decreases a.len(),
{
    if a.len() == 0 {
        b.len() > 0
    } else if b.len() == 0 {
        false
    } else if a[0] != b[0] {
        a[0] < b[0]
    } else {
        lex_lt(a.drop_first(), b.drop_first())
    }
}

/// The sort key of a descriptor: its name, then its location.
pub open spec fn sort_key(d: DescriptorView) -> (Seq<char>, Seq<char>) {
    match d {
        DescriptorView::Root { name } => (name, Seq::empty()),
        DescriptorView::Git { name, url, .. } => (name, url),
        DescriptorView::Local { name, path } => (name, path),
    }
}

/// Whether `a` comes before `b`: by name, then by location. On git
/// dependencies of one branch this is the order of descriptors.
pub open spec fn key_lt(a: DescriptorView, b: DescriptorView) -> bool {
    let (n1, l1) = sort_key(a);
    let (n2, l2) = sort_key(b);
    lex_lt(n1, n2) || (n1 == n2 && lex_lt(l1, l2))
}

/// Whether `s` is strictly ascending in that order.
pub open spec fn ascending(s: Seq<DescriptorView>) -> bool {
    forall|i: int, j: int| 0 <= i < j < s.len() ==> key_lt(#[trigger] s[i], #[trigger] s[j])
}

proof fn lemma_lex_irrefl(a: Seq<char>)
    ensures
        !lex_lt(a, a),
    decreases a.len(),
{
    if a.len() > 0 {
        lemma_lex_irrefl(a.drop_first());
    }
}

proof fn lemma_lex_trans(a: Seq<char>, b: Seq<char>, c: Seq<char>)
    requires
        lex_lt(a, b),
        lex_lt(b, c),
    ensures
        lex_lt(a, c),
    decreases a.len(),
{
    if a.len() > 0 && b.len() > 0 && c.len() > 0 && a[0] == b[0] && b[0] == c[0] {
        lemma_lex_trans(a.drop_first(), b.drop_first(), c.drop_first());
    }
}

/// `a` and `b` agree on their first `i` characters: the order is decided by
/// what follows.
proof fn lemma_lex_skip(a: Seq<char>, b: Seq<char>, i: int)
    requires
        0 <= i <= a.len(),
        i <= b.len(),
        a.take(i) == b.take(i),
    ensures
        lex_lt(a, b) == lex_lt(a.skip(i), b.skip(i)),
    decreases i,
{
    if i > 0 {
        assert(a[0] == a.take(i)[0]);
        assert(b[0] == b.take(i)[0]);
        assert(a.drop_first().take(i - 1) =~= a.take(i).drop_first());
        assert(b.drop_first().take(i - 1) =~= b.take(i).drop_first());
        lemma_lex_skip(a.drop_first(), b.drop_first(), i - 1);
        assert(a.drop_first().skip(i - 1) =~= a.skip(i));
        assert(b.drop_first().skip(i - 1) =~= b.skip(i));
    } else {
        assert(a.skip(0) =~= a);
        assert(b.skip(0) =~= b);
    }
}

proof fn lemma_key_trans(a: DescriptorView, b: DescriptorView, c: DescriptorView)
    requires
        key_lt(a, b),
        key_lt(b, c),
    ensures
        key_lt(a, c),
{
    let (n1, l1) = sort_key(a);
    let (n2, l2) = sort_key(b);
    let (n3, l3) = sort_key(c);
    if lex_lt(n1, n2) && lex_lt(n2, n3) {
        lemma_lex_trans(n1, n2, n3);
    } else if lex_lt(n1, n2) {
    } else if lex_lt(n2, n3) {
    } else {
        lemma_lex_trans(l1, l2, l3);
    }
}

proof fn lemma_key_irrefl(a: DescriptorView)
    ensures
        !key_lt(a, a),
{
    lemma_lex_irrefl(sort_key(a).0);
    lemma_lex_irrefl(sort_key(a).1);
}

/// The lexicographic comparison of two strings: negative, zero or positive
/// as `a` comes before, equals or comes after `b`.
pub fn compare_str(a: &str, b: &str) -> (r: i8)
    ensures
        (r < 0) == lex_lt(a@, b@),
        (r == 0) == (a@ == b@),
        (r > 0) == lex_lt(b@, a@),
{
    let la = a.unicode_len();
    let lb = b.unicode_len();
    let mut i: usize = 0;
    while i < la && i < lb
        invariant
            la == a@.len(),
            lb == b@.len(),
            i <= la,
            i <= lb,
            a@.take(i as int) == b@.take(i as int),
        decreases la - i,
    {
        let ca = a.get_char(i);
        let cb = b.get_char(i);
        if ca != cb {
            proof {
                lemma_lex_skip(a@, b@, i as int);
                lemma_lex_skip(b@, a@, i as int);
                assert(a@.skip(i as int)[0] == ca);
                assert(b@.skip(i as int)[0] == cb);
                assert(a@ != b@) by {
                    assert(a@[i as int] != b@[i as int]);
                }
            }
            if ca < cb {
                return -1;
            } else {
                return 1;
            }
        }
        proof {
            assert(a@.take(i + 1) =~= a@.take(i as int).push(ca));
            assert(b@.take(i + 1) =~= b@.take(i as int).push(cb));
        }
        i = i + 1;
    }
    proof {
        lemma_lex_skip(a@, b@, i as int);
        lemma_lex_skip(b@, a@, i as int);
        if la == lb {
            assert(a@ =~= a@.take(i as int));
            assert(b@ =~= b@.take(i as int));
        } else {
            assert(a@.len() != b@.len());
        }
    }
    if la == lb {
        proof {
            lemma_lex_irrefl(a@);
        }
        0
    } else if la < lb {
        -1
    } else {
        1
    }
}

/// The comparison of the keys `(n1, l1)` and `(n2, l2)` in the order of
/// [`key_lt`]: negative, zero or positive.
fn compare_keys(n1: &str, l1: &str, n2: &str, l2: &str) -> (r: i8)
    ensures
        (r < 0) == (lex_lt(n1@, n2@) || (n1@ == n2@ && lex_lt(l1@, l2@))),
        (r == 0) == (n1@ == n2@ && l1@ == l2@),
        (r > 0) == (lex_lt(n2@, n1@) || (n2@ == n1@ && lex_lt(l2@, l1@))),
{
    let c = compare_str(n1, n2);
    if c != 0 {
        proof {
            lemma_lex_irrefl(n1@);
        }
        return c;
    }
    compare_str(l1, l2)
}

/// The views of a sequence of entries.
pub open spec fn entry_views(s: Seq<DependencyEntry>) -> Seq<(Seq<char>, Seq<char>)> {
    s.map_values(|e: DependencyEntry| (e.name@, e.git@))
}

impl Manifest {
    /// The dependencies, as descriptor values.
    pub open spec fn deps(&self) -> Seq<DescriptorView> {
        views(self.dependencies@)
    }

    /// No dependency is listed twice, and none is a root package.
    pub open spec fn wf(&self) -> bool {
        &&& self.deps().no_duplicates()
        &&& forall|k: int| 0 <= k < self.deps().len() ==> !(#[trigger] self.deps()[k] is Root)
    }

    /// The manifest that a parsed manifest file describes: each entry of its
    /// dependency table becomes a git dependency on the default branch, and
    /// the dependencies are kept once each, in ascending order of name, then
    /// URL, which is the order of their descriptors.
    pub fn from_raw(name: String, version: String, entries: &Vec<DependencyEntry>) -> (r: Manifest)
        ensures
            r.wf(),
            r.name@ == name@,
            r.version@ == version@,
            ascending(r.deps()),
            r.deps().to_set() == entry_views(entries@).map_values(|e| git_dependency(e)).to_set(),
    {
        let mut deps: Vec<Descriptor> = Vec::new();
        let mut i: usize = 0;
        while i < entries.len()
            invariant
                i <= entries@.len(),
                ascending(views(deps@)),
                views(deps@).to_set() == entry_views(entries@).take(i as int).map_values(
                    |e| git_dependency(e),
                ).to_set(),
                forall|k: int| 0 <= k < deps@.len() ==> #[trigger] views(deps@)[k] is Git && views(deps@)[k]->Git_version
                    == GitVersionView::Branch(default_branch()),
            decreases entries@.len() - i,
        {
            let d = Descriptor::Git {
                name: entries[i].name.clone(),
                url: entries[i].git.clone(),
                version: GitVersion::Branch(String::from_str("main")),
            };
            let ghost ev = entry_views(entries@);
            proof {
                assert(ev.take(i + 1) =~= ev.take(i as int).push(ev[i as int]));
                assert(d@ == git_dependency(ev[i as int]));
                ev.take(i as int).map_values(|e| git_dependency(e)).lemma_push_to_set_commute(d@);
                assert(ev.take(i + 1).map_values(|e| git_dependency(e)) =~= ev.take(i as int).map_values(
                    |e| git_dependency(e),
                ).push(d@));
            }
            let ghost before = views(deps@);
            let (pos, present) = insertion_point(&deps, &entries[i].name, &entries[i].git);
            if !present {
                deps.insert(pos, d);
                proof {
                    assert(views(deps@) =~= before.insert(pos as int, d@));
                    lemma_insert_sorted(before, pos as int, d@);
                    assert(views(deps@).to_set() =~= before.to_set().insert(d@)) by {
                        assert forall|x| views(deps@).contains(x) <==> (before.contains(x) || x == d@) by {
                            if views(deps@).contains(x) {
                                let k = choose|k: int| 0 <= k < views(deps@).len() && views(deps@)[k] == x;
                                if k < pos {
                                    assert(before[k] == x);
                                } else if k > pos {
                                    assert(before[k - 1] == x);
                                }
                            }
                            if before.contains(x) {
                                let k = choose|k: int| 0 <= k < before.len() && before[k] == x;
                                if k < pos {
                                    assert(views(deps@)[k] == x);
                                } else {
                                    assert(views(deps@)[k + 1] == x);
                                }
                            }
                            if x == d@ {
                                assert(views(deps@)[pos as int] == x);
                            }
                        }
                        assert forall|x| views(deps@).to_set().contains(x) <==> before.to_set().insert(d@).contains(x) by {
                            assert(views(deps@).to_set().contains(x) == views(deps@).contains(x));
                            assert(before.to_set().contains(x) == before.contains(x));
                        }
                    }
                }
            } else {
                proof {
                    assert(before.to_set().insert(d@) =~= before.to_set());
                }
            }
            i = i + 1;
        }
        proof {
            assert(entry_views(entries@).take(entries@.len() as int) == entry_views(entries@));
            assert forall|x: int, y: int| 0 <= x < y < views(deps@).len() implies views(deps@)[x] != views(deps@)[y] by {
                lemma_key_irrefl(views(deps@)[x]);
            }
        }
        Manifest { name, version, dependencies: deps }
    }

    /// Whether the manifest lists no dependency twice and no root package.
    pub fn is_wf(&self) -> (r: bool)
        ensures
            r == self.wf(),
    {
        let n = self.dependencies.len();
        let mut i: usize = 0;
        while i < n
            invariant
                n == self.dependencies@.len(),
                i <= n,
                forall|k: int| 0 <= k < i ==> !(#[trigger] self.deps()[k] is Root),
                forall|a: int, b: int| 0 <= a < b < n && a < i ==> self.deps()[a] != self.deps()[b],
            decreases n - i,
        {
            if matches!(self.dependencies[i], Descriptor::Root { .. }) {
                assert(self.deps()[i as int] is Root);
                return false;
            }
            let mut j: usize = i + 1;
            while j < n
                invariant
                    n == self.dependencies@.len(),
                    i < n,
                    i < j <= n,
                    forall|b: int| i < b < j ==> self.deps()[i as int] != self.deps()[b],
                decreases n - j,
            {
                if self.dependencies[i].eq(&self.dependencies[j]) {
                    assert(self.deps()[i as int] == self.deps()[j as int]);
                    return false;
                }
                j = j + 1;
            }
            i = i + 1;
        }
        assert forall|a: int, b: int| 0 <= a < n && 0 <= b < n && a != b implies self.deps()[a] != self.deps()[b] by {
            if b < a {
                assert(self.deps()[b] != self.deps()[a]);
            }
        }
        true
    }
}

/// Where `name`, `url` goes into the ascending list `v`, and whether a
/// dependency with that key is there already.
fn insertion_point(v: &Vec<Descriptor>, name: &String, url: &String) -> (r: (usize, bool))
    requires
        ascending(views(v@)),
    ensures
        r.0 <= v@.len(),
        r.1 ==> r.0 < v@.len() && sort_key(views(v@)[r.0 as int]) == (name@, url@),
        !r.1 ==> forall|k: int| 0 <= k < r.0 ==> key_lt(#[trigger] views(v@)[k], DescriptorView::Git { name: name@, url: url@, version: GitVersionView::Branch(default_branch()) }),
        !r.1 ==> forall|k: int| r.0 <= k < v@.len() ==> key_lt(DescriptorView::Git { name: name@, url: url@, version: GitVersionView::Branch(default_branch()) }, #[trigger] views(v@)[k]),
{
    let ghost d = DescriptorView::Git { name: name@, url: url@, version: GitVersionView::Branch(default_branch()) };
    let mut k: usize = 0;
    while k < v.len()
        invariant
            d == (DescriptorView::Git {
                name: name@,
                url: url@,
                version: GitVersionView::Branch(default_branch()),
            }),
            ascending(views(v@)),
            k <= v@.len(),
            forall|q: int| 0 <= q < k ==> key_lt(#[trigger] views(v@)[q], d),
        decreases v@.len() - k,
    {
        let (n2, l2) = match &v[k] {
            Descriptor::Root { name } => (name.as_str(), ""),
            Descriptor::Git { name, url, .. } => (name.as_str(), url.as_str()),
            Descriptor::Local { name, path } => (name.as_str(), path.as_str()),
        };
        proof {
            reveal_strlit("");
            assert(sort_key(views(v@)[k as int]) == (n2@, l2@));
        }
        let c = compare_keys(name.as_str(), url.as_str(), n2, l2);
        if c == 0 {
            return (k, true);
        }
        if c < 0 {
            proof {
                assert(key_lt(d, views(v@)[k as int]));
                assert forall|q: int| k <= q < v@.len() implies key_lt(d, #[trigger] views(v@)[q]) by {
                    if q > k {
                        lemma_key_trans(d, views(v@)[k as int], views(v@)[q]);
                    }
                }
            }
            return (k, false);
        }
        k = k + 1;
    }
    (k, false)
}

/// Inserting `d` where everything before is smaller and everything after is
/// larger keeps a list ascending.
proof fn lemma_insert_sorted(s: Seq<DescriptorView>, p: int, d: DescriptorView)
    requires
        0 <= p <= s.len(),
        ascending(s),
        forall|k: int| 0 <= k < p ==> key_lt(#[trigger] s[k], d),
        forall|k: int| p <= k < s.len() ==> key_lt(d, #[trigger] s[k]),
    ensures
        ascending(s.insert(p, d)),
{
    let t = s.insert(p, d);
    assert forall|i: int, j: int| 0 <= i < j < t.len() implies key_lt(#[trigger] t[i], #[trigger] t[j]) by {
        if j < p {
            assert(t[i] == s[i] && t[j] == s[j]);
        } else if j == p {
            assert(t[i] == s[i]);
        } else if i < p {
            assert(t[i] == s[i] && t[j] == s[j - 1]);
        } else if i == p {
            assert(t[j] == s[j - 1]);
        } else {
            assert(t[i] == s[i - 1] && t[j] == s[j - 1]);
        }
    }
}

} // verus!
