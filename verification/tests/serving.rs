//! Resolution, boot and exchanges, driven over a file tree held in memory.

use std::collections::BTreeMap;
use std::path::Path;

use crenel::args::parse_args;
use crenel::config::{Limits, MountSpec, StaticServerConfig};
use crenel::counters::Counters;
use crenel::io::{
    settle, stream_step, Admission, Chunks, Fill, FillStep, IoLimiter, SendOutcome, StreamEvent,
    StreamStep, WriteFailure,
};
use crenel::paths::{lies_within, shown};
use crenel::resolve::{
    rel_is_valid, EncodedOutcome, EncodedStep, Errno, FileStat, MissKind, OpenStep, Opened,
    Opening, Outcome, RootError, SidecarStep, SymlinkPolicy,
};
use crenel::root::{
    case_probe, case_verdict, push_hostile, symlink_escapes, Audit, AuditStep, PinAudited,
    PinIdentified, Pinning, Root,
};
use crenel::serve::{
    fallthrough_headers, raw_query, BootStep, BuildError, RequestHead, StaticServer, Step,
};
use crenel::sidecar::Encoding;

// ---- a tree of files ----

#[derive(Clone, Debug, PartialEq)]
enum Node {
    File(Vec<u8>),
    Dir,
    Link(String),
    Fifo,
}

/// Absolute paths and what stands there.
#[derive(Clone, Default)]
struct Tree {
    nodes: BTreeMap<String, Node>,
    ignores_case: bool,
}

const MTIME: i64 = 784_111_777;

fn parent(path: &str) -> &str {
    match path.rfind('/') {
        Some(0) | None => "/",
        Some(at) => &path[..at],
    }
}

fn join(dir: &str, name: &str) -> String {
    if dir == "/" {
        format!("/{name}")
    } else {
        format!("{dir}/{name}")
    }
}

impl Tree {
    fn put(&mut self, path: &str, node: Node) {
        let mut dir = parent(path).to_string();
        while dir != "/" && !self.nodes.contains_key(&dir) {
            self.nodes.insert(dir.clone(), Node::Dir);
            dir = parent(&dir).to_string();
        }
        self.nodes.insert(path.to_string(), node);
    }

    fn write(&mut self, path: &str, contents: &[u8]) {
        self.put(path, Node::File(contents.to_vec()));
    }

    fn link(&mut self, path: &str, target: &str) {
        self.put(path, Node::Link(target.to_string()));
    }

    fn get(&self, path: &str) -> Option<&Node> {
        if path == "/" {
            return Some(&Node::Dir);
        }
        if self.ignores_case {
            let wanted = path.to_lowercase();
            return self.nodes.iter().find(|(p, _)| p.to_lowercase() == wanted).map(|(_, n)| n);
        }
        self.nodes.get(path)
    }

    fn ino(&self, path: &str) -> u64 {
        let wanted = if self.ignores_case { path.to_lowercase() } else { path.to_string() };
        self.nodes
            .keys()
            .position(|p| {
                let p = if self.ignores_case { p.to_lowercase() } else { p.clone() };
                p == wanted
            })
            .map_or(0, |at| at as u64 + 1)
    }

    fn children(&self, dir: &str) -> Vec<String> {
        self.nodes.keys().filter(|p| parent(p) == dir && p.as_str() != dir).cloned().collect()
    }

    /// Walks a path from `start`. Under `confine`, links are subject to the policy and nothing
    /// leaves `start`.
    fn walk(&self, start: &str, path: &str, confine: Option<SymlinkPolicy>) -> Result<String, Errno> {
        let mut at = start.to_string();
        let mut rest: Vec<String> = path.split('/').rev().map(str::to_string).collect();
        let mut budget = 40;
        while let Some(name) = rest.pop() {
            if name.is_empty() || name == "." {
                continue;
            }
            if name == ".." {
                if confine.is_some() && at == start {
                    return Err(Errno::XDev);
                }
                at = parent(&at).to_string();
                continue;
            }
            if self.get(&at) != Some(&Node::Dir) {
                return Err(Errno::NotDir);
            }
            let next = join(&at, &name);
            match self.get(&next) {
                None => return Err(Errno::NoEnt),
                Some(Node::Link(target)) => {
                    budget -= 1;
                    if budget == 0 || confine == Some(SymlinkPolicy::Deny) {
                        return Err(Errno::Loop);
                    }
                    if target.starts_with('/') {
                        if confine.is_some() {
                            return Err(Errno::XDev);
                        }
                        at = "/".to_string();
                    }
                    rest.extend(target.split('/').rev().map(str::to_string));
                }
                Some(_) => at = next,
            }
        }
        Ok(at)
    }

    fn open(&self, root: &Root, opening: &Opening) -> Result<Opened<Vec<u8>>, Errno> {
        let policy = if opening.no_symlinks {
            SymlinkPolicy::Deny
        } else {
            SymlinkPolicy::AllowWithinRoot
        };
        let path = self.walk(root.canonical(), &opening.target, Some(policy))?;
        let (mode, contents) = match self.get(&path) {
            Some(Node::File(bytes)) => (0o100644, bytes.clone()),
            Some(Node::Dir) => (0o040755, Vec::new()),
            Some(Node::Fifo) => (0o010600, Vec::new()),
            other => panic!("walked to {other:?}"),
        };
        let size = contents.len() as i64;
        Ok(Opened {
            fd: contents,
            generation: root.generation(),
            stat: Ok(FileStat { mode, size, mtime_sec: MTIME, mtime_nsec: 5 }),
        })
    }

    fn audit(&self, root: &str, mut audit: Audit<String>) -> Result<PinAudited, RootError> {
        loop {
            let dir;
            (dir, audit) = match audit.next() {
                AuditStep::Read(dir, audit) => (dir, audit),
                AuditStep::Done(result) => return result,
            };
            for path in self.children(&dir) {
                audit = audit.found()?;
                audit = match self.get(&path) {
                    Some(Node::Link(target)) => {
                        let escapes = audit.follows_links() && {
                            let resolved = self.walk(parent(&path), target, None).ok();
                            symlink_escapes(root, Some(target), resolved.as_deref())
                        };
                        audit.symlink(&path, escapes)
                    }
                    Some(Node::Dir) => audit.directory(path),
                    _ => audit,
                };
            }
        }
    }

    fn check_case(&self, root: &str) -> Option<(Option<(u64, u64)>, Option<(u64, u64)>)> {
        let paths = self.children(root);
        let names: Vec<Option<String>> =
            paths.iter().map(|p| p.rsplit('/').next().map(str::to_string)).collect();
        match case_probe(&names) {
            None => None,
            Some((at, swapped)) => {
                let identity = |p: &str| self.get(p).map(|_| (1, self.ino(p)));
                let variant = join(root, &swapped);
                Some((identity(&paths[at]), identity(&variant)))
            }
        }
    }

    fn pin_with(&self, configured: &str, pinning: Pinning) -> Result<Root, RootError> {
        let found = self.walk("/", configured, None).map_err(|e| format!("{e:?}"));
        let pin = pinning.canonicalized(found)?;
        let canonical = pin.canonical().to_string();
        let is_dir = self.get(&canonical) == Some(&Node::Dir);
        let pin = pin
            .inspected(Ok(is_dir))?
            .opened(Ok(()))?
            .probed(Ok(()))?
            .identified(Ok((1, self.ino(&canonical))))?;
        self.audit(&canonical, pin.audit(canonical.clone()))?
            .case_checked(self.check_case(&canonical))
    }

    fn pin(&self, configured: &str, policy: SymlinkPolicy) -> Result<Root, RootError> {
        self.pin_with(configured, Root::pin(policy))
    }

    /// What a repin check does: `Some` with the new root where the docroot was replaced.
    fn repin(&self, configured: &str, root: &Root) -> Result<Option<Root>, RootError> {
        let current = self
            .walk("/", configured, None)
            .map(|p| (1, self.ino(&p)))
            .map_err(|e| format!("{e:?}"));
        match root.check_repin(current)? {
            None => Ok(None),
            Some(pinning) => self.pin_with(configured, pinning).map(Some),
        }
    }

    fn open_rel(&self, root: &Root, rel: &str) -> Outcome<Vec<u8>> {
        let mut opening = match root.open_rel(rel) {
            Ok(opening) => opening,
            Err(e) => return Outcome::Fault(e),
        };
        loop {
            let result = self.open(root, &opening);
            match opening.opened(result) {
                OpenStep::Retry(next) => opening = next,
                OpenStep::Done(outcome) => return outcome,
            }
        }
    }

    fn open_encoded_with_identity(
        &self,
        root: &Root,
        rel: &str,
        preference: &[Encoding],
        identity: Outcome<Vec<u8>>,
    ) -> EncodedOutcome<Vec<u8>> {
        let step = root.open_encoded_with_identity(rel, preference.to_vec(), identity);
        self.probe_sidecars(root, step)
    }

    fn probe_sidecars(
        &self,
        root: &Root,
        mut step: SidecarStep<Vec<u8>>,
    ) -> EncodedOutcome<Vec<u8>> {
        loop {
            match step {
                SidecarStep::Done(outcome) => return outcome,
                SidecarStep::Probe(search) => {
                    let result = self.open(root, search.opening());
                    step = search.opened(result);
                }
            }
        }
    }

    fn open_encoded(
        &self,
        root: &Root,
        rel: &str,
        preference: &[Encoding],
    ) -> EncodedOutcome<Vec<u8>> {
        let mut step = root.open_encoded(rel, preference.to_vec());
        loop {
            match step {
                EncodedStep::Sidecars(step) => return self.probe_sidecars(root, step),
                EncodedStep::Identity(encoded) => {
                    let result = self.open(root, encoded.opening());
                    step = encoded.opened(result);
                }
            }
        }
    }
}

fn served_bytes(outcome: Outcome<Vec<u8>>) -> (String, u64, u64) {
    match outcome {
        Outcome::File(served) => (
            String::from_utf8(served.fd).unwrap(),
            served.len,
            served.generation,
        ),
        other => panic!("expected File, got {other:?}"),
    }
}

// ---- resolution ----

#[test]
fn serves_regular_file_from_fd_with_snapshot() {
    let mut tmp = Tree::default();
    tmp.write("/tmp/x/assets/app.js", b"console.log(1);\n");
    let root = tmp.pin("/tmp/x", SymlinkPolicy::Deny).unwrap();
    let (contents, len, generation) = served_bytes(tmp.open_rel(&root, "assets/app.js"));
    assert_eq!(contents, "console.log(1);\n");
    assert_eq!(len, 16);
    assert_eq!(generation, 0);
}

#[test]
fn errno_taxonomy_maps_to_misses() {
    let mut tmp = Tree::default();
    tmp.write("/tmp/x/file.txt", b"x");
    let root = tmp.pin("/tmp/x", SymlinkPolicy::Deny).unwrap();
    assert!(matches!(
        tmp.open_rel(&root, "absent.txt"),
        Outcome::Miss(MissKind::NotFound)
    ));
    assert!(matches!(
        tmp.open_rel(&root, "file.txt/deeper"),
        Outcome::Miss(MissKind::NotDir)
    ));
    assert!(matches!(tmp.open_rel(&root, ""), Outcome::Directory));
    tmp.put("/tmp/x/dir", Node::Dir);
    assert!(matches!(tmp.open_rel(&root, "dir"), Outcome::Directory));
}

#[test]
fn contract_violations_are_faults_not_opens() {
    let mut tmp = Tree::default();
    tmp.put("/tmp/x", Node::Dir);
    let root = tmp.pin("/tmp/x", SymlinkPolicy::Deny).unwrap();
    for hostile in ["/etc/passwd", "a/../b", "a//b", ".", "a/./b", "a\0b"] {
        assert!(
            matches!(tmp.open_rel(&root, hostile), Outcome::Fault(_)),
            "rel {hostile:?} must be rejected by the contract check"
        );
    }
}

#[test]
fn relative_paths_are_checked_again() {
    for fine in ["", "a", "a/b", "..a/b..", "...", "a b", "\u{e9}", "\u{80}"] {
        assert!(rel_is_valid(fine), "rel {fine:?}");
    }
    for hostile in [
        "/", "/a", "a/", "a//b", ".", "..", "./a", "a/..", "a\0b", "a\nb", "\u{1}", "a/b\u{1f}",
        "\u{7f}",
    ] {
        assert!(!rel_is_valid(hostile), "rel {hostile:?}");
    }
}

#[test]
fn symlinks_created_after_pin_are_contained_at_request_time() {
    let mut tmp = Tree::default();
    tmp.write("/tmp/x/real.txt", b"real");
    let deny = tmp.pin("/tmp/x", SymlinkPolicy::Deny).unwrap();
    tmp.link("/tmp/x/alias.txt", "real.txt");
    tmp.link("/tmp/x/evil.txt", "/etc/passwd");
    assert!(matches!(
        tmp.open_rel(&deny, "alias.txt"),
        Outcome::Miss(MissKind::SymlinkDenied)
    ));
    assert!(matches!(
        tmp.open_rel(&deny, "evil.txt"),
        Outcome::Miss(MissKind::SymlinkDenied)
    ));

    let mut tmp2 = Tree::default();
    tmp2.write("/tmp/y/real.txt", b"real");
    let allow = tmp2.pin("/tmp/y", SymlinkPolicy::AllowWithinRoot).unwrap();
    tmp2.link("/tmp/y/alias.txt", "real.txt");
    tmp2.link("/tmp/y/evil.txt", "/etc/passwd");
    tmp2.link("/tmp/y/climb.txt", "../../../etc/passwd");
    let (contents, _, _) = served_bytes(tmp2.open_rel(&allow, "alias.txt"));
    assert_eq!(contents, "real");
    assert!(matches!(
        tmp2.open_rel(&allow, "evil.txt"),
        Outcome::Miss(MissKind::EscapesRoot)
    ));
    assert!(matches!(
        tmp2.open_rel(&allow, "climb.txt"),
        Outcome::Miss(MissKind::EscapesRoot)
    ));
}

#[test]
fn boot_audit_fails_closed_on_policy_hostile_symlinks() {
    let mut tmp = Tree::default();
    tmp.write("/tmp/x/sub/file.txt", b"x");
    tmp.link("/tmp/x/sub/linked", "/srv/shared/assets");
    match tmp.pin("/tmp/x", SymlinkPolicy::AllowWithinRoot) {
        Err(RootError::HostileSymlinks { entries }) => {
            assert!(
                entries.iter().any(|e| e.contains("linked")),
                "entries: {entries:?}"
            );
            assert_eq!(entries, vec!["sub/linked".to_string()]);
        }
        other => panic!("expected HostileSymlinks, got {other:?}"),
    }
    let mut tmp2 = Tree::default();
    tmp2.write("/tmp/y/real.txt", b"x");
    tmp2.link("/tmp/y/alias.txt", "real.txt");
    assert!(matches!(
        tmp2.pin("/tmp/y", SymlinkPolicy::Deny),
        Err(RootError::HostileSymlinks { .. })
    ));
    let mut tmp3 = Tree::default();
    tmp3.write("/tmp/z/real.txt", b"x");
    tmp3.link("/tmp/z/alias.txt", "real.txt");
    tmp3.link("/tmp/z/dangling.txt", "gone.txt");
    let root = tmp3.pin("/tmp/z", SymlinkPolicy::AllowWithinRoot).unwrap();
    assert!(matches!(
        tmp3.open_rel(&root, "dangling.txt"),
        Outcome::Miss(MissKind::NotFound)
    ));
}

#[test]
fn writerless_fifo_returns_immediately_as_not_regular() {
    let mut tmp = Tree::default();
    tmp.put("/tmp/x", Node::Dir);
    let root = tmp.pin("/tmp/x", SymlinkPolicy::Deny).unwrap();
    tmp.put("/tmp/x/trap.fifo", Node::Fifo);
    let outcome = tmp.open_rel(&root, "trap.fifo");
    assert!(
        matches!(outcome, Outcome::Miss(MissKind::NotRegular)),
        "got {outcome:?}"
    );
}

#[test]
fn deploy_flip_repins_with_generation_bump_and_old_fd_survival() {
    let mut tmp = Tree::default();
    tmp.write("/tmp/x/releases/A/a.txt", b"release A");
    tmp.write("/tmp/x/releases/B/b.txt", b"release B");
    tmp.link("/tmp/x/current", "/tmp/x/releases/A");

    let root = tmp.pin("/tmp/x/current", SymlinkPolicy::Deny).unwrap();
    assert_eq!(root.generation(), 0);
    assert!(root.canonical().ends_with("releases/A"));
    let inflight = match tmp.open_rel(&root, "a.txt") {
        Outcome::File(f) => f,
        other => panic!("expected File, got {other:?}"),
    };
    assert!(tmp.repin("/tmp/x/current", &root).unwrap().is_none());

    tmp.link("/tmp/x/current", "/tmp/x/releases/B");
    let root = tmp.repin("/tmp/x/current", &root).unwrap().unwrap();
    assert_eq!(root.generation(), 1);
    assert!(root.canonical().ends_with("releases/B"));
    let (contents, _, generation) = served_bytes(tmp.open_rel(&root, "b.txt"));
    assert_eq!((contents.as_str(), generation), ("release B", 1));
    assert!(matches!(
        tmp.open_rel(&root, "a.txt"),
        Outcome::Miss(MissKind::NotFound)
    ));
    assert_eq!(inflight.fd, b"release A");
}

#[test]
fn repin_fails_closed_if_new_tree_is_hostile() {
    let mut tmp = Tree::default();
    tmp.write("/tmp/x/releases/A/a.txt", b"A");
    tmp.write("/tmp/x/releases/C/c.txt", b"C");
    tmp.link("/tmp/x/releases/C/evil", "/etc");
    tmp.link("/tmp/x/current", "/tmp/x/releases/A");
    let root = tmp.pin("/tmp/x/current", SymlinkPolicy::Deny).unwrap();
    tmp.link("/tmp/x/current", "/tmp/x/releases/C");
    assert!(matches!(
        tmp.repin("/tmp/x/current", &root),
        Err(RootError::HostileSymlinks { .. })
    ));
    assert_eq!(root.generation(), 0);
    let (contents, _, _) = served_bytes(tmp.open_rel(&root, "a.txt"));
    assert_eq!(contents, "A");
}

#[test]
fn nonexistent_or_file_roots_fail_to_pin() {
    let mut tmp = Tree::default();
    tmp.put("/tmp/x", Node::Dir);
    assert!(matches!(
        tmp.pin("/tmp/x/missing", SymlinkPolicy::Deny),
        Err(RootError::Io(_))
    ));
    tmp.write("/tmp/x/file.txt", b"x");
    assert!(matches!(
        tmp.pin("/tmp/x/file.txt", SymlinkPolicy::Deny),
        Err(RootError::NotADirectory(_) | RootError::Io(_))
    ));
}

#[test]
fn every_error_number_has_its_outcome() {
    let outcome = |e: Errno| {
        let opening = Opening::begin("a", SymlinkPolicy::Deny).unwrap();
        match opening.opened::<()>(Err(e)) {
            OpenStep::Done(outcome) => format!("{outcome:?}"),
            OpenStep::Retry(next) => format!("retry {}", next.attempts),
        }
    };
    for (e, want) in [
        (Errno::Again, "retry 1"),
        (Errno::NoEnt, "Miss(NotFound)"),
        (Errno::NotDir, "Miss(NotDir)"),
        (Errno::Access, "Miss(Access)"),
        (Errno::Perm, "Miss(Access)"),
        (Errno::Loop, "Miss(SymlinkDenied)"),
        (Errno::XDev, "Miss(EscapesRoot)"),
        (Errno::NxIo, "Miss(NotRegular)"),
        (Errno::NoSys, "Fault(NoSys)"),
        (Errno::Inval, "Fault(Inval)"),
        (Errno::Intr, "Fault(Intr)"),
        (Errno::Other(23), "Fault(Other(23))"),
    ] {
        assert_eq!(outcome(e), want);
    }
}

#[test]
fn an_open_is_repeated_three_times_and_then_shed() {
    let mut opening = Opening::begin("", SymlinkPolicy::AllowWithinRoot).unwrap();
    assert_eq!((opening.target.as_str(), opening.no_symlinks), (".", false));
    for attempt in 1..=3 {
        opening = match opening.opened::<()>(Err(Errno::Again)) {
            OpenStep::Retry(next) => next,
            other => panic!("expected another try, got {other:?}"),
        };
        assert_eq!(opening.attempts, attempt);
    }
    assert!(matches!(
        opening.opened::<()>(Err(Errno::Again)),
        OpenStep::Done(Outcome::Shed)
    ));
}

#[test]
fn only_regular_files_are_served() {
    let outcome = |mode: u32, stat_error: Option<Errno>| {
        let opening = Opening::begin("a", SymlinkPolicy::Deny).unwrap();
        let stat = match stat_error {
            Some(e) => Err(e),
            None => Ok(FileStat { mode, size: 9, mtime_sec: 1, mtime_nsec: 2 }),
        };
        match opening.opened(Ok(Opened { fd: (), generation: 4, stat })) {
            OpenStep::Done(outcome) => outcome,
            other => panic!("expected an outcome, got {other:?}"),
        }
    };
    match outcome(0o100000, None) {
        Outcome::File(f) => {
            assert_eq!((f.len, f.mtime_sec, f.mtime_nsec, f.generation), (9, 1, 2, 4));
        }
        other => panic!("expected File, got {other:?}"),
    }
    assert!(matches!(outcome(0o040000, None), Outcome::Directory));
    for mode in [0o010000, 0o020000, 0o060000, 0o120000, 0o140000, 0o000644, 0o160000] {
        assert!(matches!(outcome(mode, None), Outcome::Miss(MissKind::NotRegular)));
    }
    assert!(matches!(outcome(0, Some(Errno::Other(5))), Outcome::Fault(Errno::Other(5))));
}

// ---- sidecars ----

fn root_with(files: &[(&str, &[u8])]) -> (Tree, Root) {
    let mut tree = Tree::default();
    tree.put("/tmp/x", Node::Dir);
    for (name, contents) in files {
        tree.write(&join("/tmp/x", name), contents);
    }
    let root = tree.pin("/tmp/x", SymlinkPolicy::Deny).expect("pin");
    (tree, root)
}

const PREFER_BR_GZ: &[Encoding] = &[Encoding::Brotli, Encoding::Gzip];

#[test]
fn preferred_existing_sidecar_is_selected_with_its_own_snapshot() {
    let (tree, root) = root_with(&[
        ("app.js", b"var x = 1; // identity, twelve bytes plus"),
        ("app.js.br", b"BR"),
        ("app.js.gz", b"GZIPGZ"),
    ]);
    let out = tree.open_encoded(&root, "app.js", PREFER_BR_GZ);
    assert!(matches!(out.identity, Outcome::File(_)));
    let (encoding, file) = out.sidecar.expect("sidecar selected");
    assert_eq!(encoding, Encoding::Brotli);
    assert_eq!(file.len, 2);
}

#[test]
fn preference_order_falls_through_to_existing_encoding() {
    let (tree, root) = root_with(&[("app.js", b"identity"), ("app.js.gz", b"GZ")]);
    let out = tree.open_encoded(&root, "app.js", PREFER_BR_GZ);
    let (encoding, _) = out.sidecar.expect("gz selected");
    assert_eq!(encoding, Encoding::Gzip);
}

#[test]
fn empty_preference_serves_identity_only() {
    let (tree, root) = root_with(&[("app.js", b"identity"), ("app.js.br", b"BR")]);
    let out = tree.open_encoded(&root, "app.js", &[]);
    assert!(matches!(out.identity, Outcome::File(_)));
    assert!(out.sidecar.is_none());
}

#[test]
fn sidecar_without_uncompressed_original_is_never_served() {
    let (tree, root) = root_with(&[("gone.js.br", b"BR")]);
    let out = tree.open_encoded(&root, "gone.js", PREFER_BR_GZ);
    assert!(matches!(out.identity, Outcome::Miss(_)));
    assert!(out.sidecar.is_none());
}

#[test]
fn directory_outcome_gets_no_sidecar_probe() {
    let mut tree = Tree::default();
    tree.put("/tmp/x/docs", Node::Dir);
    let root = tree.pin("/tmp/x", SymlinkPolicy::Deny).expect("pin");
    let out = tree.open_encoded(&root, "docs", PREFER_BR_GZ);
    assert!(matches!(out.identity, Outcome::Directory));
    assert!(out.sidecar.is_none());
    let out = tree.open_encoded(&root, "", PREFER_BR_GZ);
    assert!(matches!(out.identity, Outcome::Directory));
    assert!(out.sidecar.is_none());
}

#[test]
fn open_encoded_with_identity_matches_open_encoded_and_never_reresolves_identity() {
    let (tree, root) = root_with(&[("app.js", b"identity"), ("app.js.br", b"BR")]);
    let identity = tree.open_rel(&root, "app.js");
    let threaded = tree.open_encoded_with_identity(&root, "app.js", PREFER_BR_GZ, identity);
    assert!(matches!(threaded.identity, Outcome::File(_)));
    let (encoding, _) = threaded
        .sidecar
        .expect("sidecar probed for a File identity");
    assert_eq!(encoding, Encoding::Brotli);

    let miss = tree.open_rel(&root, "gone.js");
    let threaded = tree.open_encoded_with_identity(&root, "gone.js", PREFER_BR_GZ, miss);
    assert!(matches!(threaded.identity, Outcome::Miss(_)));
    assert!(threaded.sidecar.is_none());
}

#[test]
fn identity_in_a_preference_is_passed_over() {
    let (tree, root) = root_with(&[("a", b"x"), ("a.gz", b"GZ")]);
    let out = tree.open_encoded(&root, "a", &[Encoding::Identity, Encoding::Zstd, Encoding::Gzip]);
    assert_eq!(out.sidecar.map(|(e, f)| (e, f.len)), Some((Encoding::Gzip, 2)));
}

#[test]
fn a_file_with_sidecars_is_opened_again_while_the_kernel_asks_for_it() {
    let (tree, root) = root_with(&[("a", b"x"), ("a.gz", b"GZ")]);
    let mut step: EncodedStep<Vec<u8>> = root.open_encoded("a", vec![Encoding::Gzip]);
    for _ in 0..3 {
        step = match step {
            EncodedStep::Identity(encoded) => encoded.opened(Err(Errno::Again)),
            EncodedStep::Sidecars(step) => panic!("unexpected {step:?}"),
        };
    }
    let EncodedStep::Identity(encoded) = step else { panic!("not opened again") };
    assert_eq!((encoded.opening().target.as_str(), encoded.opening().attempts), ("a", 3));
    let result = tree.open(&root, encoded.opening());
    match encoded.opened(result) {
        EncodedStep::Sidecars(SidecarStep::Probe(search)) => {
            assert_eq!(search.opening().target, "a.gz");
        }
        other => panic!("unexpected {other:?}"),
    }
    let out = tree.open_encoded(&root, "a/../b", &[Encoding::Gzip]);
    assert!(matches!(out.identity, Outcome::Fault(Errno::Inval)) && out.sidecar.is_none());
}

// ---- docroots ----

/// All texts of up to the given length over slash, dot and one letter.
fn small_paths(len: usize) -> Vec<String> {
    let mut all = vec![String::new()];
    let mut last = all.clone();
    for _ in 0..len {
        last = last
            .iter()
            .flat_map(|p| ["/", ".", "a"].map(|c| format!("{p}{c}")))
            .collect();
        all.extend(last.iter().cloned());
    }
    all
}

#[test]
fn paths_are_compared_and_shown_by_components() {
    for root in small_paths(4) {
        for path in small_paths(6) {
            let stripped = Path::new(&path).strip_prefix(&root);
            assert_eq!(lies_within(&root, &path), stripped.is_ok(), "{root:?} {path:?}");
            let expected = stripped.unwrap_or(Path::new(&path)).to_str().unwrap();
            assert_eq!(shown(&root, &path), expected, "{root:?} {path:?}");
        }
    }
    assert_eq!(shown("/", "/a//b"), "a//b");
    assert_eq!(shown("/r", "/r/./a/b/."), "a/b");
    assert_eq!(shown("/r", "/r"), "");
    assert_eq!(shown("", "./a/"), "./a");
    assert_eq!(shown("./r", "r/a"), "r/a");
}

#[test]
fn paths_lie_within_by_whole_components() {
    for (root, path, within) in [
        ("/srv/www", "/srv/www", true),
        ("/srv/www", "/srv/www/a", true),
        ("/srv/www/", "/srv//www/./a", true),
        ("/srv/www", "/srv/wwwx", false),
        ("/srv/www", "/srv", false),
        ("/", "/etc", true),
        ("srv", "/srv", false),
    ] {
        assert_eq!(lies_within(root, path), within, "{root} {path}");
    }
}

#[test]
fn escaping_links_are_told_from_harmless_ones() {
    assert!(symlink_escapes("/srv", Some("/srv/a"), Some("/srv/a")));
    assert!(symlink_escapes("/srv", Some("../x"), Some("/x")));
    assert!(!symlink_escapes("/srv", Some("a"), Some("/srv/a")));
    assert!(!symlink_escapes("/srv", Some("a"), None));
    assert!(!symlink_escapes("/srv", None, None));
}

#[test]
fn refused_links_are_reported_in_order_and_cut_off() {
    let mut hostile: Vec<String> = Vec::new();
    push_hostile(&mut hostile, "/r", "/r/a/b");
    push_hostile(&mut hostile, "/r", "/s/c");
    assert_eq!(hostile, vec!["a/b", "/s/c"]);

    let (top, mut audit) = read(identified(SymlinkPolicy::Deny).audit(7));
    assert_eq!(top, 7);
    let mut names: Vec<String> = (0..25).map(|i| format!("n{:02}", (i * 7) % 25)).collect();
    for name in &names {
        audit = audit.found().ok().unwrap().symlink(&format!("/r/{name}"), false);
    }
    names.sort();
    names.truncate(20);
    assert_eq!(
        done(audit).unwrap_err(),
        RootError::HostileSymlinks { entries: names }
    );
}

#[test]
fn many_refused_links_are_reported_by_the_first_few() {
    let (_, mut audit) = read(identified(SymlinkPolicy::AllowWithinRoot).audit(0));
    for i in 0..20_000 {
        audit = audit.found().ok().unwrap().symlink(&format!("/r/{:05}", 19_999 - i), i % 2 == 0);
    }
    let names: Vec<String> = (0..20).map(|i| format!("{:05}", 2 * i + 1)).collect();
    assert_eq!(
        done(audit).unwrap_err(),
        RootError::HostileSymlinks { entries: names }
    );
}

/// A directory `/r` with device 1 and inode 2.
fn identified(policy: SymlinkPolicy) -> PinIdentified {
    Root::pin(policy)
        .canonicalized(Ok("/r".to_string()))
        .unwrap()
        .inspected(Ok(true))
        .unwrap()
        .opened(Ok(()))
        .unwrap()
        .probed(Ok(()))
        .unwrap()
        .identified(Ok((1, 2)))
        .unwrap()
}

fn read(audit: Audit<u32>) -> (u32, Audit<u32>) {
    match audit.next() {
        AuditStep::Read(dir, audit) => (dir, audit),
        AuditStep::Done(_) => panic!("the audit is over"),
    }
}

fn done(audit: Audit<u32>) -> Result<PinAudited, RootError> {
    match audit.next() {
        AuditStep::Read(..) => panic!("the audit goes on"),
        AuditStep::Done(result) => result,
    }
}

#[test]
fn the_audit_goes_by_the_policy_of_the_pin() {
    for (policy, escapes, passes) in [
        (SymlinkPolicy::Deny, false, false),
        (SymlinkPolicy::Deny, true, false),
        (SymlinkPolicy::AllowWithinRoot, false, true),
        (SymlinkPolicy::AllowWithinRoot, true, false),
    ] {
        let (_, audit) = read(identified(policy).audit(0));
        assert_eq!(audit.follows_links(), policy == SymlinkPolicy::AllowWithinRoot);
        let result = done(audit.symlink("/r/l", escapes));
        if passes {
            assert!(result.is_ok());
        } else {
            assert_eq!(
                result.unwrap_err(),
                RootError::HostileSymlinks { entries: vec!["l".to_string()] }
            );
        }
    }
}

#[test]
fn the_audit_ends_when_every_directory_is_read() {
    let (top, audit) = read(identified(SymlinkPolicy::Deny).audit(0));
    let (second, audit) = read(audit.directory(1).directory(2));
    let (third, audit) = read(audit.directory(3));
    let (fourth, audit) = read(audit);
    assert_eq!((top, second, third, fourth), (0, 2, 3, 1));
    assert!(done(audit).is_ok());
}

#[test]
fn a_tree_that_is_too_large_is_refused() {
    let mut audit = identified(SymlinkPolicy::Deny).audit(0);
    for _ in 0..500_000 {
        audit = audit.found().ok().unwrap();
    }
    assert_eq!(
        audit.found().err().unwrap(),
        RootError::AuditTooLarge { scanned: 500_001 }
    );
}

#[test]
fn roots_that_ignore_case_are_refused() {
    let mut tree = Tree::default();
    tree.write("/tmp/x/12", b"");
    tree.write("/tmp/x/Readme", b"");
    assert!(tree.pin("/tmp/x", SymlinkPolicy::Deny).is_ok());
    tree.ignores_case = true;
    assert_eq!(
        tree.pin("/tmp/x", SymlinkPolicy::Deny).unwrap_err(),
        RootError::CaseInsensitiveRoot("/tmp/x".to_string())
    );

    let names = |list: &[&str]| list.iter().map(|n| Some(n.to_string())).collect::<Vec<_>>();
    assert_eq!(case_probe(&names(&["1", "aB\u{e9}-"])), Some((1, "Ab\u{e9}-".to_string())));
    assert_eq!(case_probe(&names(&["1", "_", "\u{e9}"])), None);
    assert_eq!(case_probe(&vec![None, Some("x".to_string())]), Some((1, "X".to_string())));
    let mut many = vec![Some("0".to_string()); 64];
    many.push(Some("x".to_string()));
    assert_eq!(case_probe(&many), None);
    assert!(case_verdict("/r", Some((1, 2)), Some((1, 3))).is_ok());
    assert!(case_verdict("/r", Some((1, 2)), None).is_ok());
    assert!(case_verdict("/r", None, None).is_ok());
}

#[test]
fn each_stage_of_pinning_can_fail() {
    let io = |text: &str| RootError::Io(text.to_string());
    let start = || Root::pin(SymlinkPolicy::Deny);
    let canonical = || start().canonicalized(Ok("/r".to_string())).unwrap();
    let directory = || canonical().inspected(Ok(true)).unwrap();
    let opened = || directory().opened(Ok(())).unwrap();
    let confined = || opened().probed(Ok(())).unwrap();
    let text = |s: &str| s.to_string();
    assert_eq!(start().canonicalized(Err(text("a"))).unwrap_err(), io("a"));
    assert_eq!(canonical().inspected(Err(text("b"))).unwrap_err(), io("b"));
    assert_eq!(
        canonical().inspected(Ok(false)).unwrap_err(),
        RootError::NotADirectory(text("/r"))
    );
    assert_eq!(directory().opened(Err(text("c"))).unwrap_err(), io("c"));
    assert_eq!(
        opened().probed(Err((Errno::NoSys, text("d")))).unwrap_err(),
        RootError::Openat2Unsupported
    );
    assert_eq!(opened().probed(Err((Errno::Perm, text("e")))).unwrap_err(), io("e"));
    assert_eq!(confined().identified(Err(text("f"))).unwrap_err(), io("f"));
    let audited = || done(read(identified(SymlinkPolicy::Deny).audit(0)).1).unwrap();
    assert_eq!(
        audited().case_checked(Some((Some((1, 5)), Some((1, 5))))).unwrap_err(),
        RootError::CaseInsensitiveRoot(text("/r"))
    );
    assert!(audited().case_checked(Some((Some((1, 5)), None))).is_ok());
    assert!(audited().case_checked(Some((None, None))).is_ok());
    let root = audited().case_checked(None).unwrap();
    assert_eq!((root.canonical(), root.generation()), ("/r", 0));
    assert_eq!(root.check_repin(Err(text("g"))).unwrap_err(), io("g"));
    assert!(root.check_repin(Ok((1, 2))).unwrap().is_none());
    assert_eq!(root.check_repin(Ok((9, 2))).unwrap().unwrap().generation(), 1);
    assert_eq!(root.check_repin(Ok((1, 9))).unwrap().unwrap().generation(), 1);
}

#[test]
fn root_errors_quote_paths_as_paths() {
    for path in ["/r", "/it's", "/a \"b\"", "/\u{e9}\n"] {
        assert_eq!(
            RootError::NotADirectory(path.to_string()).message(),
            format!("static root is not a directory: {:?}", Path::new(path))
        );
        assert!(RootError::CaseInsensitiveRoot(path.to_string())
            .message()
            .starts_with(&format!("static root {:?} appears", Path::new(path))));
    }
}

#[test]
fn root_errors_have_advice() {
    let text = |s: &str| s.to_string();
    for (error, message) in [
        (RootError::Io(text("no luck")), "root pin io error: no luck"),
        (
            RootError::NotADirectory(text("/r")),
            "static root is not a directory: \"/r\"",
        ),
        (
            RootError::Openat2Unsupported,
            "openat2 unavailable (kernel < 5.6); crenel fails closed without it",
        ),
        (
            RootError::HostileSymlinks { entries: vec![text("a"), text("b/c")] },
            "static root contains symlinks the symlink policy would reject at request time \
             (2 shown): a, b/c. Fix: mount the PHYSICAL target directory directly (e.g. \
             Capistrano linked_dirs -> point the mount at shared/), remove the links, or relax \
             the mount's symlink policy to allow-within-root.",
        ),
        (
            RootError::AuditTooLarge { scanned: 500_001 },
            "boot symlink audit exceeded 500001 entries; split the mount into smaller roots or \
             reduce the tree",
        ),
        (
            RootError::CaseInsensitiveRoot(text("/r")),
            "static root \"/r\" appears case-insensitive; byte-exact path guarantees do not hold \
             (move the docroot to a case-sensitive filesystem)",
        ),
    ] {
        assert_eq!(error.message(), message);
    }
}

// ---- a server over a tree ----

struct TestServer {
    server: StaticServer,
    roots: Vec<Root>,
    tree: Tree,
    limiter: IoLimiter,
    counters: Counters,
    busy: bool,
}

fn boot(tree: &Tree, config: StaticServerConfig) -> Result<(StaticServer, Vec<Root>), BuildError> {
    let mut roots = Vec::new();
    let mut step = StaticServer::new(config);
    loop {
        match step {
            BootStep::Ready(server) => return Ok((server, roots)),
            BootStep::Failed(e) => return Err(e),
            BootStep::Pin(pending) => {
                let result = match tree.pin(pending.docroot(), pending.symlink_policy()) {
                    Ok(root) => {
                        roots.push(root);
                        Ok(())
                    }
                    Err(e) => Err(e),
                };
                step = pending.pinned(result);
            }
        }
    }
}

fn build_docroot() -> (Tree, Vec<u8>) {
    let mut tree = Tree::default();
    tree.write("/tmp/r/small.txt", b"hello crenel");
    tree.write("/tmp/r/app.js", b"var x = 1; // identity bytes here");
    tree.write("/tmp/r/app.js.gz", b"\x1f\x8b\x08\x00FAKEGZ");
    tree.write("/tmp/r/docs/index.html", b"<h1>idx</h1>");
    tree.write("/tmp/r/assets/app-abc.css", b"body{}");
    let large: Vec<u8> = (0..8 * 1024 * 1024u32).map(|i| (i % 253) as u8).collect();
    tree.write("/tmp/r/large.bin", &large);
    (tree, large)
}

fn default_server() -> (TestServer, Vec<u8>) {
    let (tree, large) = build_docroot();
    let root = "/tmp/r";
    let list = vec![
        "--bind".to_string(),
        "127.0.0.1:0".to_string(),
        "--mount".to_string(),
        format!("/={root},index,fallthrough"),
        "--mount".to_string(),
        format!(
            "/assets={}/assets,cache-control=public%2Cmax-age=31536000",
            root
        ),
    ];
    let (_, config) = parse_args(list).unwrap();
    (TestServer::start(tree, config), large)
}

#[derive(Debug)]
struct Response {
    status: u16,
    headers: Vec<(String, String)>,
    body: Vec<u8>,
    reusable: bool,
}

impl Response {
    fn header(&self, name: &str) -> Option<&str> {
        self.headers.iter().find(|(n, _)| n == name).map(|(_, v)| v.as_str())
    }
}

fn owned(list: &[(&'static str, String)]) -> Vec<(String, String)> {
    list.iter().map(|(n, v)| (n.to_string(), v.clone())).collect()
}

/// Fills a buffer from a file in reads of at most seven bytes, some of them interrupted.
fn fill(file: &[u8], position: u64, want: usize) -> Option<Vec<u8>> {
    let mut buf = vec![0u8; want];
    let mut fill = Fill::new(want);
    let mut calls = 0;
    while !fill.is_full() {
        calls += 1;
        let at = position as usize + fill.filled();
        let result = if calls % 5 == 0 {
            Err(Errno::Intr)
        } else {
            let n = file.len().saturating_sub(at).min(want - fill.filled()).min(65_521);
            buf[fill.filled()..fill.filled() + n].copy_from_slice(&file[at..at + n]);
            Ok(n)
        };
        match fill.read(result) {
            FillStep::More | FillStep::Full => {}
            FillStep::Fault => return None,
        }
    }
    Some(buf)
}

impl TestServer {
    fn start(tree: Tree, config: StaticServerConfig) -> TestServer {
        let (permits, waiters) = (config.limits.io_permits, config.limits.io_max_waiters);
        let (server, roots) = boot(&tree, config).expect("boot");
        TestServer {
            server,
            roots,
            tree,
            limiter: IoLimiter::new(permits, waiters),
            counters: Counters::default(),
            busy: false,
        }
    }

    fn request(&mut self, method: &str, target: &[u8], headers: &[(&str, &str)]) -> Response {
        let value = |name: &str| {
            headers.iter().find(|(n, _)| *n == name).map(|(_, v)| v.to_string())
        };
        let head = RequestHead {
            method: method.to_string(),
            raw_target: target.to_vec(),
            accept_encoding: value("accept-encoding"),
            if_match: value("if-match"),
            if_none_match: value("if-none-match"),
            if_modified_since: value("if-modified-since"),
            if_unmodified_since: value("if-unmodified-since"),
            if_range: value("if-range"),
            range: value("range"),
        };
        let bare = |status: u16, headers: Vec<(String, String)>| Response {
            status,
            headers,
            body: Vec::new(),
            reusable: true,
        };
        let counters = &mut self.counters;
        let mut step: Step<'_, Vec<u8>> = self.server.begin(head, counters);
        loop {
            step = match step {
                Step::Decline => {
                    counters.record_status(404);
                    return bare(404, owned(&fallthrough_headers()));
                }
                Step::Fail(status) => return bare(status, Vec::new()),
                Step::Redirect(list) => return bare(301, owned(&list)),
                Step::CheckRoot(request) => {
                    assert!(request.mount() < self.roots.len());
                    request.root_checked(Ok(false), counters)
                }
                Step::Open(open) => {
                    let result = self.tree.open(&self.roots[open.mount()], open.opening());
                    open.opened(result, counters)
                }
                Step::Admit(response) => {
                    let granted = self.limiter.acquire(!self.busy) == Admission::Granted;
                    response.admitted(granted, counters)
                }
                Step::Send(response) => {
                    let limits = self.server.limits();
                    let (offset, len) = (response.offset, response.len);
                    let mut body = Vec::new();
                    let outcome = if len <= limits.inline_threshold {
                        match fill(&response.file.fd, offset, len as usize) {
                            Some(bytes) => {
                                body = bytes;
                                SendOutcome::Complete { bytes: len }
                            }
                            None => SendOutcome::IoFault,
                        }
                    } else {
                        let mut chunks = Chunks::new(offset, len, limits.chunk_bytes);
                        let mut sent = 0;
                        loop {
                            let event = match chunks.next() {
                                None => StreamEvent::ReaderDone,
                                Some((position, want)) => {
                                    match fill(&response.file.fd, position, want) {
                                        Some(bytes) => {
                                            body.extend_from_slice(&bytes);
                                            StreamEvent::Wrote(bytes.len() as u64)
                                        }
                                        None => StreamEvent::ReadFailed,
                                    }
                                }
                            };
                            match stream_step(sent, event) {
                                StreamStep::Continue { sent: n } => sent = n,
                                StreamStep::Terminate { sent } => {
                                    match stream_step(sent, StreamEvent::Terminated) {
                                        StreamStep::Done(outcome) => break outcome,
                                        other => panic!("unexpected {other:?}"),
                                    }
                                }
                                StreamStep::Done(outcome) => break outcome,
                            }
                        }
                    };
                    let reusable = settle(counters, outcome);
                    return Response {
                        status: response.plan.status,
                        headers: owned(&response.plan.headers),
                        body,
                        reusable,
                    };
                }
            };
        }
    }
}

fn get(server: &mut TestServer, target: &str, headers: &[(&str, &str)]) -> Response {
    server.request("GET", target.as_bytes(), headers)
}

#[test]
fn small_file_200_with_full_header_contract() {
    let (mut server, _) = default_server();
    let r = get(&mut server, "/small.txt", &[]);
    assert_eq!(r.status, 200);
    assert_eq!(r.body, b"hello crenel");
    assert_eq!(
        r.header("content-type").unwrap(),
        "text/plain; charset=utf-8"
    );
    assert_eq!(r.header("x-content-type-options").unwrap(), "nosniff");
    assert_eq!(r.header("accept-ranges").unwrap(), "bytes");
    assert!(r.header("etag").unwrap().starts_with('"'));
    assert!(r.header("last-modified").is_some());
    assert_eq!(r.header("vary").unwrap(), "Accept-Encoding");
}

#[test]
fn large_file_streams_intact_through_reader_task() {
    let (mut server, large) = default_server();
    let r = get(&mut server, "/large.bin", &[]);
    assert_eq!(r.status, 200);
    assert_eq!(r.body.len(), large.len());
    assert!(r.body == large, "streamed bytes differ from source");
    assert_eq!(server.counters.bytes_sent, large.len() as u64);
    assert!(r.reusable);
}

#[test]
fn head_reports_length_without_body() {
    let (mut server, large) = default_server();
    let r = server.request("HEAD", b"/large.bin", &[]);
    assert_eq!(r.status, 200);
    assert_eq!(r.header("content-length").unwrap(), large.len().to_string());
    assert!(r.body.is_empty());
}

#[test]
fn conditional_304_and_range_206_and_416() {
    let (mut server, _) = default_server();
    let first = get(&mut server, "/small.txt", &[]);
    let etag = first.header("etag").unwrap().to_string();
    let r = get(&mut server, "/small.txt", &[("if-none-match", &etag)]);
    assert_eq!(r.status, 304);
    assert_eq!(r.header("vary").unwrap(), "Accept-Encoding");

    let r = get(&mut server, "/small.txt", &[("range", "bytes=0-4")]);
    assert_eq!(r.status, 206);
    assert_eq!(r.body, b"hello");
    assert_eq!(r.header("content-range").unwrap(), "bytes 0-4/12");

    let r = get(&mut server, "/small.txt", &[("range", "bytes=999-")]);
    assert_eq!(r.status, 416);
    assert_eq!(r.header("content-range").unwrap(), "bytes */12");
}

#[test]
fn gzip_sidecar_negotiated_with_sidecar_snapshot() {
    let (mut server, _) = default_server();
    let r = get(&mut server, "/app.js", &[("accept-encoding", "gzip")]);
    assert_eq!(r.status, 200);
    assert_eq!(r.header("content-encoding").unwrap(), "gzip");
    assert!(r.header("etag").unwrap().ends_with("-gz\""));
    assert_eq!(r.body, b"\x1f\x8b\x08\x00FAKEGZ");
    assert_eq!(r.header("content-type").unwrap(), "text/javascript; charset=utf-8");
    let r = get(&mut server, "/app.js", &[("accept-encoding", "gzip;q=0")]);
    assert!(r.header("content-encoding").is_none());
    assert_eq!(r.header("vary").unwrap(), "Accept-Encoding");
}

#[test]
fn directory_redirect_then_index() {
    let (mut server, _) = default_server();
    let r = get(&mut server, "/docs", &[]);
    assert_eq!(r.status, 301);
    assert_eq!(r.header("location").unwrap(), "/docs/");
    let r = get(&mut server, "/docs/", &[]);
    assert_eq!(r.status, 200);
    assert_eq!(r.body, b"<h1>idx</h1>");
}

#[test]
fn miss_policies_fallthrough_vs_strict() {
    let (mut server, _) = default_server();
    let r = get(&mut server, "/nope.txt", &[]);
    assert_eq!(r.status, 404);
    assert_eq!(r.header("x-crenel-fallthrough").unwrap(), "1");
    let r = get(&mut server, "/assets/nope.css", &[]);
    assert_eq!(r.status, 404);
    assert!(r.header("x-crenel-fallthrough").is_none());
    let r = get(&mut server, "/assets/app-abc.css", &[]);
    assert_eq!(r.status, 200);
    assert_eq!(
        r.header("cache-control").unwrap(),
        "public,max-age=31536000"
    );
}

#[test]
fn hostile_paths_are_fixed_400s() {
    let (mut server, _) = default_server();
    for target in ["/../etc/passwd", "/%2e%2e/etc/passwd", "/a%00.txt", "/a%zz"] {
        let r = get(&mut server, target, &[]);
        assert_eq!(r.status, 400, "target {target:?}");
        assert!(
            r.header("x-crenel-fallthrough").is_none(),
            "{target:?} fell through"
        );
    }
    assert_eq!(server.request("GET", b"/\xff", &[]).status, 400);
}

#[test]
fn other_methods_and_targets_are_declined() {
    let (mut server, _) = default_server();
    for (method, target) in [("POST", "/small.txt"), ("GET", "*"), ("GET", "/.git/config")] {
        let r = server.request(method, target.as_bytes(), &[]);
        assert_eq!((r.status, r.header("x-crenel-fallthrough")), (404, Some("1")));
    }
    let r = get(&mut server, "/assets/.git/config", &[]);
    assert_eq!((r.status, r.header("x-crenel-fallthrough")), (404, None));
    assert_eq!(server.counters.status_4xx, 4);
}

#[test]
fn a_declined_request_is_not_counted() {
    let (server, _) = default_server();
    let mut c = Counters::default();
    let head = RequestHead {
        method: "POST".to_string(),
        raw_target: b"/small.txt".to_vec(),
        accept_encoding: None,
        if_match: None,
        if_none_match: None,
        if_modified_since: None,
        if_unmodified_since: None,
        if_range: None,
        range: None,
    };
    assert!(matches!(server.server.begin::<()>(head, &mut c), Step::Decline));
    assert_eq!(c, Counters::default());
}

#[test]
fn every_answer_is_counted_once() {
    let (mut server, _) = default_server();
    for (target, range) in [
        ("/small.txt", None),
        ("/small.txt", Some("bytes=0-1")),
        ("/small.txt", Some("bytes=99-")),
        ("/docs", None),
        ("/docs/", None),
        ("/assets/nope", None),
        ("/..", None),
    ] {
        let headers: Vec<(&str, &str)> = range.iter().map(|r| ("range", *r)).collect();
        get(&mut server, target, &headers);
    }
    let c = server.counters;
    assert_eq!((c.status_2xx, c.status_3xx, c.status_4xx, c.status_5xx), (3, 1, 3, 0));
}

#[test]
fn directories_without_index_are_missed() {
    let (mut server, _) = default_server();
    server.tree.put("/tmp/r/empty", Node::Dir);
    for target in ["/empty/", "/assets", "/assets/"] {
        assert_eq!(get(&mut server, target, &[]).status, 404);
    }
    assert_eq!(get(&mut server, "/empty", &[]).status, 301);
    server.tree.put("/tmp/r/docs/index.html", Node::Dir);
    assert_eq!(get(&mut server, "/docs/", &[]).status, 404);
}

#[test]
fn redirects_keep_the_raw_query() {
    let (mut server, _) = default_server();
    let r = get(&mut server, "/docs?a=%2e?b", &[]);
    assert_eq!(r.header("location"), Some("/docs/?a=%2e?b"));
    assert_eq!(
        r.headers,
        vec![
            ("location".to_string(), "/docs/?a=%2e?b".to_string()),
            ("content-length".to_string(), "0".to_string()),
            ("x-content-type-options".to_string(), "nosniff".to_string()),
        ]
    );
    assert_eq!(raw_query("/a?b?c").as_deref(), Some("b?c"));
    assert_eq!(raw_query("/a"), None);
}

#[test]
fn long_bodies_wait_for_a_permit_and_are_shed_without_one() {
    let (mut server, _) = default_server();
    server.busy = true;
    let r = get(&mut server, "/large.bin", &[]);
    assert_eq!(r.status, 503);
    assert_eq!((server.counters.sheds, server.counters.status_5xx), (1, 1));
    assert_eq!(get(&mut server, "/small.txt", &[]).status, 200);
    assert_eq!(server.request("HEAD", b"/large.bin", &[]).status, 200);
}

#[test]
fn a_file_that_shrinks_cuts_the_response_off() {
    let (mut server, _) = default_server();
    assert_eq!(fill(b"abc", 1, 2), Some(b"bc".to_vec()));
    assert_eq!(fill(b"abc", 1, 3), None);
    let reusable = settle(&mut server.counters, SendOutcome::IoFault);
    assert!(!reusable);
    assert_eq!(server.counters.io_faults, 1);
}

#[test]
fn faults_and_sheds_of_an_open_are_answered() {
    let (server, _) = default_server();
    let status = |result: fn() -> Result<Opened<Vec<u8>>, Errno>, counters: &mut Counters| {
        let head = RequestHead {
            method: "GET".to_string(),
            raw_target: b"/small.txt".to_vec(),
            accept_encoding: None,
            if_match: None,
            if_none_match: None,
            if_modified_since: None,
            if_unmodified_since: None,
            if_range: None,
            range: None,
        };
        let mut step: Step<'_, Vec<u8>> = server.server.begin(head, counters);
        let mut opens = 0;
        loop {
            step = match step {
                Step::CheckRoot(request) => request.root_checked(Ok(true), counters),
                Step::Open(open) => {
                    opens += 1;
                    open.opened(result(), counters)
                }
                Step::Fail(status) => return (status, opens),
                other => panic!("unexpected {other:?}"),
            };
        }
    };
    let mut c = Counters::default();
    assert_eq!(status(|| Err(Errno::Again), &mut c), (503, 4));
    assert_eq!(status(|| Err(Errno::Other(5)), &mut c), (500, 1));
    assert_eq!((c.io_faults, c.repins, c.status_5xx), (1, 2, 2));
}

#[test]
fn a_docroot_that_cannot_be_checked_is_a_500() {
    let (server, _) = default_server();
    let mut c = Counters::default();
    let head = RequestHead {
        method: "HEAD".to_string(),
        raw_target: b"/".to_vec(),
        accept_encoding: None,
        if_match: None,
        if_none_match: None,
        if_modified_since: None,
        if_unmodified_since: None,
        if_range: None,
        range: None,
    };
    match server.server.begin::<()>(head, &mut c) {
        Step::CheckRoot(request) => {
            assert!(matches!(request.root_checked::<()>(Err(()), &mut c), Step::Fail(500)));
        }
        other => panic!("unexpected {other:?}"),
    }
    assert_eq!(c.status_5xx, 1);
}

#[test]
fn boot_fails_in_order() {
    let (tree, _) = build_docroot();
    let config = |list: &[(&str, &str)]| StaticServerConfig {
        mounts: list.iter().map(|(p, d)| MountSpec::new(p, d)).collect(),
        limits: Limits::default(),
    };
    let why = |list: &[(&str, &str)]| boot(&tree, config(list)).unwrap_err().message();
    assert_eq!(
        why(&[("/a", "/tmp/gone"), ("b", "/tmp/r")]),
        "pinning docroot for mount \"/a\": root pin io error: NoEnt"
    );
    assert_eq!(
        why(&[("/a", "/tmp/r"), ("b", "/tmp/gone")]),
        "mount table: mount prefix must start with '/': \"b\""
    );
    assert_eq!(
        why(&[("/a", "/tmp/r"), ("/a/", "/tmp/r")]),
        "mount table: duplicate mount prefix after normalization: \"/a\""
    );
    let (server, roots) = boot(&tree, config(&[])).unwrap();
    assert_eq!((roots.len(), server.limits().io_permits), (0, 64));
}

// ---- bodies ----

#[test]
fn limiter_sheds_beyond_waiting_room() {
    let mut limiter = IoLimiter::new(1, 0);
    let mut held = 0;
    let mut acquire = |held: &mut usize| {
        let admission = limiter.acquire(*held < limiter.permits());
        if admission == Admission::Granted {
            *held += 1;
        }
        admission
    };
    assert_eq!(acquire(&mut held), Admission::Granted, "first permit");
    assert_eq!(acquire(&mut held), Admission::Shed);
    held -= 1;
    assert_eq!(acquire(&mut held), Admission::Granted);
}

#[test]
fn limiter_queues_within_waiting_room() {
    let mut limiter = IoLimiter::new(1, 8);
    assert_eq!(limiter.acquire(true), Admission::Granted);
    assert_eq!(limiter.acquire(false), Admission::Wait);
    // The permit is released, and the queued waiter proceeds with it.
    limiter.leave();
    assert_eq!(limiter.acquire(false), Admission::Wait);
}

#[test]
fn the_waiting_room_is_bounded() {
    let mut limiter = IoLimiter::new(0, 2);
    assert_eq!(limiter.permits(), 1);
    assert_eq!(limiter.acquire(true), Admission::Granted);
    assert_eq!(limiter.acquire(false), Admission::Wait);
    assert_eq!(limiter.acquire(false), Admission::Wait);
    assert_eq!(limiter.acquire(false), Admission::Shed);
    limiter.leave();
    assert_eq!(limiter.acquire(false), Admission::Wait);
}

#[test]
fn chunks_tile_the_body() {
    let list = |offset: u64, len: u64, size: usize| {
        let mut chunks = Chunks::new(offset, len, size);
        let mut out = Vec::new();
        while let Some(chunk) = chunks.next() {
            out.push(chunk);
        }
        out
    };
    assert_eq!(list(7, 0, 8192), vec![]);
    assert_eq!(list(7, 10_000, 1), vec![(7, 4096), (4103, 4096), (8199, 1808)]);
    assert_eq!(list(0, 16_384, 8192), vec![(0, 8192), (8192, 8192)]);
    assert_eq!(list(u64::MAX - 5, 5, 9000), vec![(u64::MAX - 5, 5)]);
}

#[test]
fn write_failures_end_a_stream() {
    let end = |event| match stream_step(9, event) {
        StreamStep::Done(outcome) => outcome,
        other => panic!("unexpected {other:?}"),
    };
    assert_eq!(
        end(StreamEvent::WriteFailed(WriteFailure::TimedOut)),
        SendOutcome::DeadlineExceeded
    );
    assert_eq!(end(StreamEvent::WriteFailed(WriteFailure::Broken)), SendOutcome::ClientGone);
    assert_eq!(end(StreamEvent::ReadFailed), SendOutcome::IoFault);
    assert_eq!(end(StreamEvent::Terminated), SendOutcome::Complete { bytes: 9 });
    let mut c = Counters::default();
    assert!(!settle(&mut c, SendOutcome::ClientGone));
    assert!(!settle(&mut c, SendOutcome::DeadlineExceeded));
    assert!(settle(&mut c, SendOutcome::Complete { bytes: 9 }));
    assert_eq!((c.client_aborts, c.deadline_aborts, c.bytes_sent), (1, 1, 9));
}
