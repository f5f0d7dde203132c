//! Building file paths and search paths as strings.
use vstd::prelude::*;

use crate::descriptor::{Descriptor, DescriptorView};

verus! {

/// `parts` joined with `sep` between each two neighbours.
pub open spec fn joined(parts: Seq<Seq<char>>, sep: Seq<char>) -> Seq<char>
    decreases parts.len(),
{
    if parts.len() == 0 {
        Seq::empty()
    } else if parts.len() == 1 {
        parts[0]
    } else {
        joined(parts.drop_last(), sep) + sep + parts.last()
    }
}

/// The views of a sequence of strings.
pub open spec fn string_views(s: Seq<String>) -> Seq<Seq<char>> {
    s.map_values(|p: String| p@)
}

/// The relative path `part` under the directory `base`; an empty base is the
/// current directory.
pub open spec fn path_join(base: Seq<char>, part: Seq<char>) -> Seq<char> {
    if base.len() == 0 {
        part
    } else if base.last() == '/' {
        base + part
    } else {
        base + seq!['/'] + part
    }
}

/// Joins a list of paths into one search path.
pub trait Idris2Paths {
    /// The paths, as character sequences.
    spec fn paths_view(&self) -> Seq<Seq<char>>;

    /// The paths joined with `sep` (`:` on Unix, `;` on Windows), for example
    /// `build/deps/CoolCollections/build/ttc:build/deps/NotJson/build/ttc`.
    fn join_idris2(&self, sep: &str) -> (r: String)
        ensures
            r@ == joined(self.paths_view(), sep@),
    ;
}

impl Idris2Paths for Vec<String> {
    open spec fn paths_view(&self) -> Seq<Seq<char>> {
        string_views(self@)
    }

    fn join_idris2(&self, sep: &str) -> (r: String) {
        join_paths(self, sep)
    }
}

/// The paths joined with `sep` between each two neighbours.
pub fn join_paths(paths: &Vec<String>, sep: &str) -> (r: String)
    ensures
        r@ == joined(string_views(paths@), sep@),
{
    let mut out = String::new();
    let mut i: usize = 0;
    while i < paths.len()
        invariant
            i <= paths@.len(),
            out@ == joined(string_views(paths@).take(i as int), sep@),
        decreases paths@.len() - i,
    {
        proof {
            let v = string_views(paths@);
            assert(v.take(i + 1).drop_last() == v.take(i as int));
            assert(v.take(i + 1).last() == paths@[i as int]@);
        }
        if i > 0 {
            out.append(sep);
        }
        out.append(paths[i].as_str());
        i = i + 1;
    }
    proof {
        assert(string_views(paths@).take(paths@.len() as int) == string_views(paths@));
    }
    out
}

/// The relative path `part` under the directory `base`.
pub fn join_path(base: &str, part: &str) -> (r: String)
    ensures
        r@ == path_join(base@, part@),
{
    let n = base.unicode_len();
    let mut out = String::from_str(base);
    if n == 0 {
        return String::from_str(part);
    }
    if base.get_char(n - 1) != '/' {
        out.append("/");
        proof {
            reveal_strlit("/");
        }
    }
    out.append(part);
    out
}

/// Where the source of a descriptor is put: git packages under
/// `build/deps/{name}`, local ones at their own path.
pub open spec fn source_dir(d: DescriptorView) -> Seq<char> {
    match d {
        DescriptorView::Git { name, .. } => "build/deps/"@ + name,
        DescriptorView::Local { path, .. } => path,
        DescriptorView::Root { .. } => Seq::empty(),
    }
}

/// The artifact directory of a package whose source is at `base`.
pub open spec fn ttc_dir(base: Seq<char>) -> Seq<char> {
    path_join(path_join(base, "build"@), "ttc"@)
}

/// The entry file of package `name` whose source is at `base`.
pub open spec fn main_file(base: Seq<char>, name: Seq<char>) -> Seq<char> {
    path_join(path_join(base, "src"@), name + ".idr"@)
}

/// Where the source of `d` is put.
pub fn staging_path(d: &Descriptor) -> (r: String)
    ensures
        r@ == source_dir(d@),
{
    match d {
        Descriptor::Git { name, .. } => {
            let mut p = String::from_str("build/deps/");
            p.append(name.as_str());
            p
        },
        Descriptor::Local { path, .. } => path.clone(),
        Descriptor::Root { .. } => String::new(),
    }
}

/// The artifact directory of a package whose source is at `base`.
pub fn ttc_path(base: &str) -> (r: String)
    ensures
        r@ == ttc_dir(base@),
{
    let b = join_path(base, "build");
    join_path(b.as_str(), "ttc")
}

/// The entry file of package `name` whose source is at `base`.
pub fn main_path(base: &str, name: &str) -> (r: String)
    ensures
        r@ == main_file(base@, name@),
{
    let s = join_path(base, "src");
    let mut file = String::from_str(name);
    file.append(".idr");
    join_path(s.as_str(), file.as_str())
}

/// The manifest file of a package whose source is at `base`.
pub open spec fn manifest_file(base: Seq<char>) -> Seq<char> {
    path_join(base, "Egg.toml"@)
}

} // verus!
