use lair::descriptor::{Descriptor, GitVersion};
use lair::lazy::{Claim, Lazy, LazyState};
use lair::manifest::{compare_str, DependencyEntry, Manifest};
use lair::paths::{join_path, join_paths, main_path, staging_path, ttc_path, Idris2Paths};

fn git(name: &str, url: &str) -> Descriptor {
    Descriptor::Git {
        name: name.to_string(),
        url: url.to_string(),
        version: GitVersion::Branch("main".to_string()),
    }
}

#[test]
fn descriptor_name_of_each_variant() {
    assert_eq!(Descriptor::Root { name: "App".to_string() }.name(), "App");
    assert_eq!(git("CoolCollections", "https://x/CoolCollections").name(), "CoolCollections");
    let local = Descriptor::Local { name: "Near".to_string(), path: "../near".to_string() };
    assert_eq!(local.name(), "Near");
}

#[test]
fn descriptor_equality_is_structural() {
    let a = git("Foo", "https://x/Foo");
    let b = git("Foo", "https://x/Foo");
    assert!(a == b);
    assert!(a != git("Foo", "https://y/Foo"));
    let tagged = Descriptor::Git {
        name: "Foo".to_string(),
        url: "https://x/Foo".to_string(),
        version: GitVersion::Tag("main".to_string()),
    };
    assert!(a != tagged);
    assert!(Descriptor::Root { name: "Foo".to_string() } != Descriptor::Local {
        name: "Foo".to_string(),
        path: "Foo".to_string()
    });
    assert!(a.duplicate() == a);
}

#[test]
fn memo_cell_evaluates_once() {
    let mut cell: Lazy<u32> = Lazy::new();
    let mut evaluations = 0;
    let mut claims = Vec::new();
    for _ in 0..8 {
        let c = cell.get();
        if c == Claim::Evaluate {
            evaluations += 1;
        }
        claims.push(c);
    }
    assert_eq!(evaluations, 1);
    assert_eq!(claims[0], Claim::Evaluate);
    assert!(claims[1..].iter().all(|c| *c == Claim::Wait));
    assert_eq!(cell.value(), None);
    assert!(cell.resolve(42));
    for _ in 0..8 {
        assert_eq!(cell.get(), Claim::Ready);
        assert_eq!(cell.value(), Some(&42));
    }
    assert!(!cell.resolve(7));
    assert_eq!(cell.value(), Some(&42));
}

#[test]
fn memo_cell_resolve_needs_a_running_evaluation() {
    let mut cell: Lazy<u32> = Lazy::new();
    assert!(!cell.resolve(1));
    assert!(matches!(cell.state, LazyState::Pending));
    let mut ready = Lazy::new_immediate(5u32);
    assert_eq!(ready.get(), Claim::Ready);
    assert_eq!(ready.value(), Some(&5));
    assert!(!ready.resolve(6));
    assert_eq!(ready.value(), Some(&5));
}

fn entry(name: &str, git: &str) -> DependencyEntry {
    DependencyEntry { name: name.to_string(), git: git.to_string() }
}

#[test]
fn manifest_entries_become_git_dependencies_on_main() {
    let entries = vec![entry("Foo", "https://x/Foo"), entry("Bar", "https://x/Bar")];
    let m = Manifest::from_raw("App".to_string(), "0.1.0".to_string(), &entries);
    assert_eq!(m.name, "App");
    assert_eq!(m.version, "0.1.0");
    let expected = [git("Foo", "https://x/Foo"), git("Bar", "https://x/Bar")];
    assert_eq!(m.dependencies.len(), 2);
    for d in expected.iter() {
        assert!(m.dependencies.iter().any(|x| x == d));
    }
    for d in m.dependencies.iter() {
        assert!(expected.iter().any(|x| x == d));
    }
    assert!(m.is_wf());
}

#[test]
fn manifest_dependencies_ascend_by_name_then_url() {
    let entries = vec![
        entry("NotJson", "https://x/NotJson"),
        entry("CoolCollections", "https://y/CoolCollections"),
        entry("CoolCollections", "https://x/CoolCollections"),
        entry("Alpha", "https://z/Alpha"),
    ];
    let m = Manifest::from_raw("App".to_string(), "0.1.0".to_string(), &entries);
    assert_eq!(
        m.dependencies,
        vec![
            git("Alpha", "https://z/Alpha"),
            git("CoolCollections", "https://x/CoolCollections"),
            git("CoolCollections", "https://y/CoolCollections"),
            git("NotJson", "https://x/NotJson"),
        ]
    );
}

#[test]
fn manifest_well_formedness_check() {
    let mut m = Manifest::from_raw("App".to_string(), "0.1.0".to_string(), &vec![entry("Foo", "https://x/Foo")]);
    assert!(m.is_wf());
    m.dependencies.push(git("Foo", "https://x/Foo"));
    assert!(!m.is_wf());
    let mut r = Manifest::from_raw("App".to_string(), "0.1.0".to_string(), &Vec::new());
    r.dependencies.push(Descriptor::Root { name: "Other".to_string() });
    assert!(!r.is_wf());
}

#[test]
fn string_order_is_lexicographic() {
    assert!(compare_str("abc", "abd") < 0);
    assert!(compare_str("ab", "abc") < 0);
    assert!(compare_str("abc", "abc") == 0);
    assert!(compare_str("b", "abc") > 0);
    assert!(compare_str("", "") == 0);
    assert!(compare_str("Zeta", "alpha") < 0);
}

#[test]
fn manifest_lists_each_dependency_once() {
    let entries = vec![
        entry("Foo", "https://x/Foo"),
        entry("Foo", "https://x/Foo"),
        entry("Foo", "https://y/Foo"),
    ];
    let m = Manifest::from_raw("App".to_string(), "1.0.0".to_string(), &entries);
    assert_eq!(m.dependencies, vec![git("Foo", "https://x/Foo"), git("Foo", "https://y/Foo")]);
    let empty = Manifest::from_raw("App".to_string(), "1.0.0".to_string(), &Vec::new());
    assert!(empty.dependencies.is_empty());
}

#[test]
fn search_paths_are_joined_with_the_separator() {
    let paths = vec![
        "build/deps/CoolCollections/build/ttc".to_string(),
        "build/deps/NotJson/build/ttc".to_string(),
    ];
    assert_eq!(
        join_paths(&paths, ":"),
        "build/deps/CoolCollections/build/ttc:build/deps/NotJson/build/ttc"
    );
    assert_eq!(paths.join_idris2(";"), "build/deps/CoolCollections/build/ttc;build/deps/NotJson/build/ttc");
    assert_eq!(
        paths.join_idris2(":"),
        "build/deps/CoolCollections/build/ttc:build/deps/NotJson/build/ttc"
    );
    assert_eq!(Vec::<String>::new().join_idris2(":"), "");
    assert_eq!(join_paths(&Vec::new(), ":"), "");
    assert_eq!(join_paths(&vec!["one".to_string()], ":"), "one");
}

#[test]
fn paths_under_a_base_directory() {
    assert_eq!(join_path("", "src"), "src");
    assert_eq!(join_path("build/deps/Lib", "src"), "build/deps/Lib/src");
    assert_eq!(join_path("build/deps/Lib/", "src"), "build/deps/Lib/src");
    assert_eq!(ttc_path(""), "build/ttc");
    assert_eq!(ttc_path("build/deps/Lib"), "build/deps/Lib/build/ttc");
    assert_eq!(main_path("", "App"), "src/App.idr");
    assert_eq!(main_path("build/deps/Lib", "Lib"), "build/deps/Lib/src/Lib.idr");
}

#[test]
fn staging_directory_of_each_source() {
    assert_eq!(staging_path(&git("Lib", "https://x/Lib")), "build/deps/Lib");
    let local = Descriptor::Local { name: "Near".to_string(), path: "../near".to_string() };
    assert_eq!(staging_path(&local), "../near");
}
