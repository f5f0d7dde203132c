use std::collections::BTreeMap;

use lair::descriptor::{Descriptor, GitVersion};
use lair::error::{BuildTtcError, ManifestFetchError, SourceFetchError};
use lair::lazy::{Claim, LazyState};
use lair::manifest::{DependencyEntry, Manifest};
use lair::registry::{Action, Event, Lair, Note, RunCommand};
use lair::tracing::SourceProgressMethod;

fn manifest(name: &str, deps: &[&str]) -> Manifest {
    let entries: Vec<DependencyEntry> = deps
        .iter()
        .map(|d| DependencyEntry { name: d.to_string(), git: format!("https://x/{}", d) })
        .collect();
    Manifest::from_raw(name.to_string(), "0.1.0".to_string(), &entries)
}

fn git(name: &str) -> Descriptor {
    Descriptor::Git {
        name: name.to_string(),
        url: format!("https://x/{}", name),
        version: GitVersion::Branch("main".to_string()),
    }
}

/// A world in which the sources, manifests and toolchain are simulated.
struct World {
    manifests: BTreeMap<String, Manifest>,
    present: Vec<String>,
    failing_clones: Vec<String>,
    failing_builds: Vec<String>,
    log: Vec<Action>,
}

impl World {
    fn new(manifests: &[(&str, &[&str])]) -> World {
        World {
            manifests: manifests.iter().map(|(n, d)| (n.to_string(), manifest(n, d))).collect(),
            present: Vec::new(),
            failing_clones: Vec::new(),
            failing_builds: Vec::new(),
            log: Vec::new(),
        }
    }

    fn answer(&mut self, lair: &Lair, a: &Action) -> Event {
        self.log.push(a.clone());
        match a {
            Action::Probe { node, path } => {
                Event::Probed { node: *node, exists: self.present.contains(path) }
            }
            Action::Clone { node, .. } => {
                let name = lair.get_node(*node).name().to_string();
                let result = if self.failing_clones.contains(&name) {
                    Err(SourceFetchError::GitError(format!("cannot clone {}", name)))
                } else {
                    Ok(())
                };
                Event::Cloned { node: *node, result }
            }
            Action::ReadManifest { node, path } => {
                let name = lair.get_node(*node).name().to_string();
                assert!(path.ends_with("Egg.toml"));
                let result = match self.manifests.get(&name) {
                    Some(m) => Ok(m.clone()),
                    None => Err(ManifestFetchError::Io(format!("no manifest for {}", name))),
                };
                Event::ManifestRead { node: *node, result }
            }
            Action::Compile { node, .. } => {
                let name = lair.get_node(*node).name().to_string();
                let result = if self.failing_builds.contains(&name) {
                    Err(BuildTtcError::Toolchain(format!("idris2 failed on {}", name)))
                } else {
                    Ok(())
                };
                Event::Compiled { node: *node, result }
            }
        }
    }

    /// Runs the build of the root to its end, answering actions in the order
    /// they are issued.
    fn build(&mut self, lair: &mut Lair) -> Result<String, BuildTtcError> {
        lair.build();
        let mut queue: Vec<Action> = Vec::new();
        for _ in 0..10_000 {
            if let Some(r) = lair.ttc_outcome(0) {
                return r;
            }
            let pumped = lair.pump();
            queue.extend(pumped.actions);
            if queue.is_empty() {
                assert!(pumped.changed, "the build is stuck");
                continue;
            }
            let a = queue.remove(0);
            let ev = self.answer(lair, &a);
            queue.extend(lair.handle(ev));
        }
        panic!("the build does not end");
    }

    fn count(&self, lair: &Lair, kind: &str, name: &str) -> usize {
        self.log
            .iter()
            .filter(|a| {
                let (k, n) = match a {
                    Action::Probe { node, .. } => ("probe", *node),
                    Action::Clone { node, .. } => ("clone", *node),
                    Action::ReadManifest { node, .. } => ("read", *node),
                    Action::Compile { node, .. } => ("compile", *node),
                };
                k == kind && lair.get_node(n).name() == name
            })
            .count()
    }
}

fn new_lair(root: &str, deps: &[&str]) -> Lair {
    Lair::new(manifest(root, deps), String::new(), ":".to_string())
}

#[test]
fn equal_descriptors_share_one_node() {
    let mut lair = new_lair("App", &[]);
    let a = lair.node(&git("Foo"));
    let b = lair.node(&git("Foo"));
    assert_eq!(a, b);
    assert_eq!(lair.len(), 2);
    let c = lair.node(&git("Bar"));
    assert_ne!(a, c);
    assert_eq!(lair.len(), 3);
    let root = lair.node(&Descriptor::Root { name: "App".to_string() });
    assert_eq!(root, 0);
    assert_eq!(lair.len(), 3);
    let notes = lair.take_notes();
    assert_eq!(
        notes,
        vec![
            Note::NewDescriptor { node: 0 },
            Note::NewDescriptor { node: 1 },
            Note::NewDescriptor { node: 2 }
        ]
    );
    assert!(lair.take_notes().is_empty());
}

#[test]
fn end_to_end_root_with_one_dependency() {
    let mut world = World::new(&[("Lib", &[])]);
    let mut lair = new_lair("App", &["Lib"]);
    let ttc = world.build(&mut lair);
    assert_eq!(ttc, Ok("build/ttc".to_string()));
    let lib = lair.node(&git("Lib"));
    assert_eq!(
        world.log,
        vec![
            Action::Probe { node: lib, path: "build/deps/Lib".to_string() },
            Action::Clone {
                node: lib,
                url: "https://x/Lib".to_string(),
                path: "build/deps/Lib".to_string()
            },
            Action::ReadManifest { node: lib, path: "build/deps/Lib/Egg.toml".to_string() },
            Action::Compile {
                node: lib,
                build_dir: "build/deps/Lib/build".to_string(),
                source_dir: "build/deps/Lib/src".to_string(),
                main_file: "build/deps/Lib/src/Lib.idr".to_string(),
                search_path: String::new(),
            },
            Action::Compile {
                node: 0,
                build_dir: "build".to_string(),
                source_dir: "src".to_string(),
                main_file: "src/App.idr".to_string(),
                search_path: "build/deps/Lib/build/ttc".to_string(),
            },
        ]
    );
    assert_eq!(lair.root().ttc(), Some(&Ok("build/ttc".to_string())));
    let lib_node = lair.get_node(lib);
    assert_eq!(lib_node.base_path(), Some(&Ok("build/deps/Lib".to_string())));
    assert_eq!(lib_node.ttc(), Some(&Ok("build/deps/Lib/build/ttc".to_string())));
    assert!(matches!(lib_node.manifest(), Some(Ok(m)) if m.name == "Lib"));
    assert_eq!(lib_node.main(), Some(Ok("build/deps/Lib/src/Lib.idr".to_string())));
    assert_eq!(lair.root().dependencies(), Some(Ok(&vec![lib])));
    assert_eq!(
        lair.run(),
        Ok(RunCommand {
            search_path: "build/deps/Lib/build/ttc".to_string(),
            source_dir: "src".to_string(),
            main_file: "src/App.idr".to_string(),
        })
    );
}

#[test]
fn diamond_dependency_is_built_once() {
    let mut world = World::new(&[("B", &["D"]), ("C", &["D"]), ("D", &[])]);
    let mut lair = new_lair("A", &["B", "C"]);
    let ttc = world.build(&mut lair);
    assert_eq!(ttc, Ok("build/ttc".to_string()));
    assert_eq!(world.count(&lair, "compile", "D"), 1);
    assert_eq!(world.count(&lair, "clone", "D"), 1);
    assert_eq!(world.count(&lair, "read", "D"), 1);
    assert_eq!(world.count(&lair, "compile", "B"), 1);
    assert_eq!(world.count(&lair, "compile", "C"), 1);
    assert_eq!(world.count(&lair, "compile", "A"), 1);
    assert_eq!(lair.len(), 4);
    let d = lair.node(&git("D"));
    let building_d = lair
        .take_notes()
        .iter()
        .filter(|n| **n == Note::Building { node: d })
        .count();
    assert_eq!(building_d, 1);
    let last = world.log.last().unwrap().clone();
    match last {
        Action::Compile { node, search_path, .. } => {
            assert_eq!(node, 0);
            assert_eq!(search_path, "build/deps/B/build/ttc:build/deps/C/build/ttc");
        }
        other => panic!("unexpected last action {:?}", other),
    }
}

#[test]
fn present_source_is_not_fetched() {
    let mut world = World::new(&[("Lib", &[])]);
    world.present.push("build/deps/Lib".to_string());
    let mut lair = new_lair("App", &["Lib"]);
    assert_eq!(world.build(&mut lair), Ok("build/ttc".to_string()));
    assert_eq!(world.count(&lair, "probe", "Lib"), 1);
    assert_eq!(world.count(&lair, "clone", "Lib"), 0);
    let lib = lair.node(&git("Lib"));
    let notes = lair.take_notes();
    assert!(notes.contains(&Note::FetchingRepo {
        node: lib,
        method: SourceProgressMethod::AlreadyDownloaded
    }));
    assert!(notes.contains(&Note::SourceFetched { node: lib, path: "build/deps/Lib".to_string() }));
    assert!(!notes.iter().any(|n| matches!(n, Note::FetchingRepo { method: SourceProgressMethod::Git { .. }, .. })));
}

#[test]
fn probe_answer_decides_between_clone_and_present() {
    let mut lair = new_lair("App", &["Lib"]);
    lair.build();
    let mut actions = Vec::new();
    for _ in 0..3 {
        actions.extend(lair.pump().actions);
    }
    let lib = lair.node(&git("Lib"));
    assert_eq!(actions, vec![Action::Probe { node: lib, path: "build/deps/Lib".to_string() }]);
    assert!(lair.awaits_answer());
    assert_eq!(lair.get_node(lib).dependencies(), None);
    let clone = lair.handle(Event::Probed { node: lib, exists: false });
    assert_eq!(
        clone,
        vec![Action::Clone {
            node: lib,
            url: "https://x/Lib".to_string(),
            path: "build/deps/Lib".to_string()
        }]
    );
    // A second answer to the same probe is not in flight any more.
    assert!(lair.handle(Event::Probed { node: lib, exists: true }).is_empty());
    assert!(matches!(lair.get_node(lib).base_path.state, LazyState::Running));
}

#[test]
fn failed_fetch_is_remembered_by_every_dependent() {
    let mut world = World::new(&[("B", &["D"]), ("C", &["D"]), ("D", &[])]);
    world.failing_clones.push("D".to_string());
    let mut lair = new_lair("A", &["B", "C"]);
    let git_error = SourceFetchError::GitError("cannot clone D".to_string());
    let expected = BuildTtcError::ManifestFetch(ManifestFetchError::SourceFetch(git_error.clone()));
    assert_eq!(world.build(&mut lair), Err(expected.clone()));
    assert_eq!(world.count(&lair, "clone", "D"), 1);
    assert_eq!(world.count(&lair, "compile", "D"), 0);
    let b = lair.node(&git("B"));
    let c = lair.node(&git("C"));
    let d = lair.node(&git("D"));
    assert_eq!(lair.ttc_outcome(b), Some(Err(expected.clone())));
    assert_eq!(lair.ttc_outcome(c), Some(Err(expected.clone())));
    assert_eq!(lair.ttc_outcome(d), Some(Err(expected.clone())));
    assert!(matches!(&lair.get_node(d).base_path.state, LazyState::Ready(Err(e)) if *e == git_error));
    // Asking again gives the same failure and issues nothing.
    assert_eq!(lair.request_ttc(d), Claim::Ready);
    let again = lair.pump();
    assert!(again.actions.is_empty());
    assert!(!again.changed);
    assert_eq!(lair.ttc_outcome(d), Some(Err(expected.clone())));
    assert_eq!(lair.run(), Err(expected));
}

#[test]
fn toolchain_failure_fails_the_build() {
    let mut world = World::new(&[("Lib", &[])]);
    world.failing_builds.push("Lib".to_string());
    let mut lair = new_lair("App", &["Lib"]);
    let failure = BuildTtcError::Toolchain("idris2 failed on Lib".to_string());
    assert_eq!(world.build(&mut lair), Err(failure.clone()));
    assert_eq!(world.count(&lair, "compile", "App"), 0);
}

#[test]
fn missing_manifest_fails_the_dependent() {
    let mut world = World::new(&[]);
    let mut lair = new_lair("App", &["Lib"]);
    let failure = BuildTtcError::ManifestFetch(ManifestFetchError::Io("no manifest for Lib".to_string()));
    assert_eq!(world.build(&mut lair), Err(failure));
    let lib = lair.node(&git("Lib"));
    assert_eq!(
        lair.get_node(lib).dependencies(),
        Some(Err(ManifestFetchError::Io("no manifest for Lib".to_string())))
    );
    assert!(!lair.awaits_answer());
}

#[test]
fn missing_local_source_is_a_failure() {
    let local = Descriptor::Local { name: "Near".to_string(), path: "../near".to_string() };
    let mut root = manifest("App", &[]);
    root.dependencies.push(local.clone());
    let mut lair = Lair::new(root, String::new(), ":".to_string());
    let mut world = World::new(&[]);
    let r = world.build(&mut lair);
    assert!(matches!(r, Err(BuildTtcError::ManifestFetch(ManifestFetchError::SourceFetch(SourceFetchError::Dummy(_))))));
    assert_eq!(world.count(&lair, "clone", "Near"), 0);
}

#[test]
fn run_before_build_is_refused() {
    let lair = new_lair("App", &[]);
    assert!(matches!(lair.run(), Err(BuildTtcError::Dummy(_))));
    let mut world = World::new(&[]);
    let mut built = new_lair("App", &[]);
    assert_eq!(world.build(&mut built), Ok("build/ttc".to_string()));
    assert_eq!(
        built.run(),
        Ok(RunCommand {
            search_path: String::new(),
            source_dir: "src".to_string(),
            main_file: "src/App.idr".to_string()
        })
    );
    assert_eq!(built.root().main(), Some(Ok("src/App.idr".to_string())));
    assert_eq!(built.root().name(), "App");
}

#[test]
fn nothing_is_done_before_it_is_requested() {
    let mut lair = new_lair("App", &["Lib"]);
    let first = lair.pump();
    assert!(first.actions.is_empty());
    assert!(!first.changed);
    assert_eq!(lair.len(), 1);
    assert_eq!(lair.build(), Claim::Evaluate);
    assert_eq!(lair.build(), Claim::Wait);
}

#[test]
fn dependency_cycle_stalls_without_work() {
    let mut lair = new_lair("App", &["Lib"]);
    lair.build();
    let mut actions = Vec::new();
    for _ in 0..3 {
        actions.extend(lair.pump().actions);
    }
    let lib = lair.node(&git("Lib"));
    lair.handle(Event::Probed { node: lib, exists: true });
    let read = lair.pump().actions;
    assert_eq!(read, vec![Action::ReadManifest { node: lib, path: "build/deps/Lib/Egg.toml".to_string() }]);
    // Lib declares Lib itself.
    lair.handle(Event::ManifestRead { node: lib, result: Ok(manifest("Lib", &["Lib"])) });
    let mut rounds = 0;
    loop {
        let p = lair.pump();
        assert!(p.actions.is_empty());
        if !p.changed {
            break;
        }
        rounds += 1;
        assert!(rounds < 10);
    }
    assert_eq!(lair.ttc_outcome(0), None);
    assert_eq!(lair.get_node(lib).dependencies(), Some(Ok(&vec![lib])));
    assert!(!lair.awaits_answer());
}
