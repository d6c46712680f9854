//! Removal and the census of the CAS, driven against a filesystem in memory.

use roomba::cas::{
    cas_root, iter_entries, stale, CasEntry, CasReply, CasRequest, FileStat,
    DEFAULT_MAX_AGE_HOURS,
};
use roomba::disk::{ErrorKind, IoError, Listed, Lstat, Reply, Request};
use roomba::reaper::{
    force_writable, freed_by_unlink, sweep_file, sweep_tree, FileSweep, Removal, TreeSweep,
};
use roomba::util::{Hours, Timestamp};
use std::collections::BTreeMap;

const NOW: Timestamp = Timestamp {
    secs: 1_700_000_000,
    nsecs: 250_000_000,
};

/// The time this many hours before now.
fn hours_ago(hours: f64) -> Timestamp {
    let back = (hours * 3600.0 * 1e9) as i128;
    let ns = 1_700_000_000_250_000_000i128 - back;
    Timestamp {
        secs: (ns / 1_000_000_000) as i64,
        nsecs: (ns % 1_000_000_000) as i64,
    }
}

#[derive(Clone)]
enum Kind {
    Dir,
    File,
    Link(String),
}

struct Node {
    kind: Kind,
    mode: u32,
    inode: usize,
}

struct Inode {
    nlink: u64,
    size: u64,
    atime: Timestamp,
}

/// A filesystem in memory, and a record of what was asked of it.
struct Disk {
    nodes: BTreeMap<String, Node>,
    inodes: Vec<Inode>,
    log: Vec<String>,
}

impl Disk {
    fn new() -> Disk {
        let mut disk = Disk {
            nodes: BTreeMap::new(),
            inodes: Vec::new(),
            log: Vec::new(),
        };
        disk.mkdir("/tmp");
        disk
    }

    fn put(&mut self, path: &str, kind: Kind, mode: u32, size: u64) {
        self.inodes.push(Inode {
            nlink: 1,
            size,
            atime: NOW,
        });
        let inode = self.inodes.len() - 1;
        self.nodes
            .insert(path.to_string(), Node { kind, mode, inode });
    }

    fn mkdir(&mut self, path: &str) {
        let mut at = String::new();
        for part in path.split('/').filter(|s| !s.is_empty()) {
            at = format!("{at}/{part}");
            if !self.nodes.contains_key(&at) {
                self.put(&at.clone(), Kind::Dir, 0o755, 0);
            }
        }
    }

    fn write(&mut self, path: &str, size: u64) {
        self.put(path, Kind::File, 0o644, size);
    }

    fn hard_link(&mut self, from: &str, to: &str) {
        let inode = self.nodes[from].inode;
        self.inodes[inode].nlink += 1;
        self.nodes.insert(
            to.to_string(),
            Node {
                kind: Kind::File,
                mode: 0o644,
                inode,
            },
        );
    }

    fn symlink(&mut self, target: &str, path: &str) {
        self.put(path, Kind::Link(target.to_string()), 0o777, 0);
    }

    fn chmod(&mut self, path: &str, mode: u32) {
        self.nodes.get_mut(path).unwrap().mode = mode;
    }

    fn has(&self, path: &str) -> bool {
        match self.resolve(path, true) {
            Some(p) => self.nodes.contains_key(&p),
            None => false,
        }
    }

    /// The path with symlinks resolved, the last component's only on demand.
    fn resolve(&self, path: &str, follow_last: bool) -> Option<String> {
        let parts: Vec<&str> = path.split('/').filter(|s| !s.is_empty()).collect();
        let mut at = String::new();
        for (i, part) in parts.iter().enumerate() {
            at = format!("{at}/{part}");
            let node = self.nodes.get(&at)?;
            if i + 1 < parts.len() || follow_last {
                if let Kind::Link(target) = &node.kind {
                    at = self.resolve(target, true)?;
                }
            }
        }
        Some(at)
    }

    fn parent(path: &str) -> String {
        path[..path.rfind('/').unwrap()].to_string()
    }

    fn names_in(&self, dir: &str) -> Option<Vec<String>> {
        let dir = self.resolve(dir, true)?;
        if !matches!(self.nodes[&dir].kind, Kind::Dir) {
            return None;
        }
        let prefix = format!("{dir}/");
        // Listed backwards, so that nothing rests on a sorted listing.
        Some(
            self.nodes
                .keys()
                .rev()
                .filter(|p| p.starts_with(&prefix) && !p[prefix.len()..].contains('/'))
                .map(|p| p[prefix.len()..].to_string())
                .collect(),
        )
    }

    fn is_dir(&self, path: &str, follow: bool) -> Option<bool> {
        let p = self.resolve(path, follow)?;
        Some(matches!(self.nodes[&p].kind, Kind::Dir))
    }

    fn lstat(&self, path: &str) -> Result<Lstat, IoError> {
        let p = self.resolve(path, false).ok_or_else(missing)?;
        let node = &self.nodes[&p];
        let inode = &self.inodes[node.inode];
        Ok(Lstat {
            symlink: matches!(node.kind, Kind::Link(_)),
            mode: node.mode,
            nlink: inode.nlink,
            blocks: (inode.size + 511) / 512,
        })
    }

    fn set_mode(&mut self, path: &str, mode: u32) -> Result<(), IoError> {
        let p = self.resolve(path, true).ok_or_else(missing)?;
        self.nodes.get_mut(&p).unwrap().mode = mode;
        Ok(())
    }

    fn remove(&mut self, path: &str, as_dir: bool) -> Result<(), IoError> {
        let p = self.resolve(path, false).ok_or_else(missing)?;
        let is_dir = matches!(self.nodes[&p].kind, Kind::Dir);
        let parent = Disk::parent(&p);
        if parent != "" && self.nodes[&parent].mode & 0o200 == 0 {
            return Err(denied());
        }
        if is_dir != as_dir || (as_dir && !self.names_in(&p).unwrap().is_empty()) {
            return Err(refused("Directory not empty"));
        }
        let node = self.nodes.remove(&p).unwrap();
        self.inodes[node.inode].nlink -= 1;
        Ok(())
    }

    fn perform(&mut self, request: &Request<Vec<u8>>) -> Reply {
        self.log.push(format!("{request:?}"));
        match request {
            Request::List(p) => {
                let dir = text(p);
                Reply::Listing(self.names_in(&dir).map(|names| {
                    names
                        .iter()
                        .map(|name| {
                            Some(Listed {
                                name: name.as_bytes().to_vec(),
                                leads_to_dir: self.is_dir(&format!("{dir}/{name}"), true),
                            })
                        })
                        .collect()
                }))
            }
            Request::Lstat(p) => Reply::Stat(self.lstat(&text(p))),
            Request::Chmod(p, mode) => Reply::Done(self.set_mode(&text(p), *mode)),
            Request::Unlink(p) => Reply::Done(self.remove(&text(p), false)),
            Request::Rmdir(p) => Reply::Done(self.remove(&text(p), true)),
        }
    }

    fn sweep_tree(&mut self, path: &str, dry_run: bool) -> Removal {
        let mut sweep: TreeSweep = sweep_tree(path.as_bytes(), dry_run);
        while let Some(request) = sweep.next() {
            let reply = self.perform(&request);
            assert!(sweep.has_room(&reply));
            sweep.feed(reply);
        }
        sweep.outcome()
    }

    fn sweep_file(&mut self, path: &str, dry_run: bool) -> Removal {
        let mut sweep: FileSweep = sweep_file(path.as_bytes(), dry_run);
        while let Some(request) = sweep.next() {
            let reply = self.perform(&request);
            assert!(sweep.has_room(&reply));
            sweep.feed(reply);
        }
        sweep.outcome()
    }

    fn census(&mut self, root: &[u8]) -> Vec<CasEntry> {
        let present = self.has(&text(root));
        let mut scan = iter_entries(root, present);
        while let Some(request) = scan.next() {
            let reply = match &request {
                CasRequest::List(p) => CasReply::Names(self.names_in(&text(p)).map(|names| {
                    names
                        .iter()
                        .map(|name| Some(name.as_bytes().to_vec()))
                        .collect()
                })),
                CasRequest::Lstat(p) => CasReply::RealDir(self.is_dir(&text(p), false)),
                CasRequest::Stat(p) => {
                    CasReply::Target(self.resolve(&text(p), true).map(|p| {
                        let node = &self.nodes[&p];
                        let inode = &self.inodes[node.inode];
                        FileStat {
                            is_file: matches!(node.kind, Kind::File),
                            atime: inode.atime,
                            size: inode.size,
                            nlink: inode.nlink,
                        }
                    }))
                }
            };
            scan.feed(reply);
        }
        scan.entries()
    }

    /// A CAS entry last read this many hours ago.
    fn entry(&mut self, root: &str, name: &str, age_hours: f64, content: &[u8]) -> String {
        let dir = format!("{root}/sha256/{name}");
        self.mkdir(&dir);
        let file = format!("{dir}/file");
        self.write(&file, content.len() as u64);
        let inode = self.nodes[&file].inode;
        self.inodes[inode].atime = hours_ago(age_hours);
        file
    }
}

fn missing() -> IoError {
    IoError {
        kind: ErrorKind::NotFound,
        message: "No such file or directory".to_string(),
    }
}

fn denied() -> IoError {
    IoError {
        kind: ErrorKind::PermissionDenied,
        message: "Permission denied".to_string(),
    }
}

fn refused(message: &str) -> IoError {
    IoError {
        kind: ErrorKind::Other,
        message: message.to_string(),
    }
}

fn text(bytes: &[u8]) -> String {
    String::from_utf8(bytes.to_vec()).unwrap()
}

fn stat_of(nlink: u64, blocks: u64) -> Reply {
    Reply::Stat(Ok(Lstat {
        symlink: false,
        mode: 0o755,
        nlink,
        blocks,
    }))
}

fn default_cutoff() -> Hours {
    Hours::whole(DEFAULT_MAX_AGE_HOURS)
}

#[test]
fn dry_run_deletes_nothing_and_measures_nothing() {
    // The property everything else rests on.
    let mut disk = Disk::new();
    disk.mkdir("/tmp/base");
    disk.write("/tmp/base/payload", 8192);

    let r = disk.sweep_tree("/tmp/base", true);
    assert!(r.ok());
    assert_eq!(r.freed, 0);
    assert!(disk.has("/tmp/base"));
    assert!(disk.has("/tmp/base/payload"));
    assert!(disk.log.is_empty());
}

#[test]
fn apply_deletes_and_counts() {
    let mut disk = Disk::new();
    disk.mkdir("/tmp/base/nested");
    disk.write("/tmp/base/nested/payload", 65536);

    let r = disk.sweep_tree("/tmp/base", false);
    assert!(r.ok());
    assert!(r.freed >= 65536);
    assert_eq!(r.freed, 65536);
    assert!(!disk.has("/tmp/base"));
    assert_eq!(r.path, b"/tmp/base".to_vec());
}

#[test]
fn hardlinked_inode_is_counted_once() {
    // Two links to one inode give back one inode's worth, on the last unlink.
    let mut disk = Disk::new();
    disk.mkdir("/tmp/base");
    disk.write("/tmp/base/a", 65536);
    disk.hard_link("/tmp/base/a", "/tmp/base/b");

    let r = disk.sweep_tree("/tmp/base", false);
    assert!(r.ok());
    assert!(65536 <= r.freed && r.freed < 65536 * 2);
}

#[test]
fn link_held_outside_the_tree_frees_nothing() {
    // A CAS entry hardlinked into a live output base must not be claimed as reclaimed.
    let mut disk = Disk::new();
    disk.mkdir("/tmp/base");
    disk.write("/tmp/base/entry", 65536);
    disk.mkdir("/tmp/elsewhere");
    disk.hard_link("/tmp/base/entry", "/tmp/elsewhere/held");

    let r = disk.sweep_tree("/tmp/base", false);
    assert!(r.ok());
    assert_eq!(r.freed, 0);
    assert!(disk.has("/tmp/elsewhere/held"));
}

#[test]
fn symlinks_are_removed_not_followed() {
    // A base full of bazel's convenience symlinks must not sweep their targets.
    let mut disk = Disk::new();
    disk.mkdir("/tmp/precious");
    disk.write("/tmp/precious/keep", 4);
    disk.mkdir("/tmp/base");
    disk.symlink("/tmp/precious", "/tmp/base/bazel-out");

    let r = disk.sweep_tree("/tmp/base", false);
    assert!(r.ok());
    assert!(!disk.has("/tmp/base"));
    assert!(disk.has("/tmp/precious/keep"));
}

#[test]
fn read_only_directory_is_swept() {
    // Bazel marks action output dirs 0555; unlink checks the PARENT's write bit.
    let mut disk = Disk::new();
    let locked = "/tmp/base/bazel-out/bin/install";
    disk.mkdir(locked);
    disk.write("/tmp/base/bazel-out/bin/install/payload", 8192);
    disk.chmod("/tmp/base/bazel-out/bin/install/payload", 0o555);
    disk.chmod(locked, 0o555);

    let r = disk.sweep_tree("/tmp/base", false);
    assert!(r.ok(), "{:?}", r.error);
    assert!(!disk.has("/tmp/base"));
    assert!(r.freed >= 8192);
}

#[test]
fn read_only_nested_directories_are_swept() {
    // A read-only dir inside a read-only dir: the rmdir also needs the parent's bit.
    let mut disk = Disk::new();
    disk.mkdir("/tmp/base/outer/inner");
    disk.write("/tmp/base/outer/inner/f", 4);
    disk.chmod("/tmp/base/outer/inner", 0o555);
    disk.chmod("/tmp/base/outer", 0o555);

    let r = disk.sweep_tree("/tmp/base", false);
    assert!(r.ok(), "{:?}", r.error);
    assert!(!disk.has("/tmp/base"));
}

#[test]
fn read_only_cas_entry_is_unlinked() {
    // Repository cache entries sit in read-only directories too.
    let mut disk = Disk::new();
    disk.mkdir("/tmp/sha256/abc");
    disk.write("/tmp/sha256/abc/file", 8192);
    disk.chmod("/tmp/sha256/abc/file", 0o444);
    disk.chmod("/tmp/sha256/abc", 0o555);

    let r = disk.sweep_file("/tmp/sha256/abc/file", false);
    assert!(r.ok(), "{:?}", r.error);
    assert_eq!(r.freed, 8192);
    assert!(!disk.has("/tmp/sha256/abc/file"));
    assert_eq!(disk.nodes["/tmp/sha256/abc"].mode, 0o755);
    assert_eq!(disk.log.len(), 5);
}

#[test]
fn sweeping_an_absent_tree_is_success() {
    // Idempotent: the goal is that it be gone, and it is gone.
    let mut disk = Disk::new();
    let r = disk.sweep_tree("/tmp/absent", false);
    assert!(r.ok());
    assert_eq!(r.freed, 0);
}

#[test]
fn sweeping_an_absent_file_is_success() {
    // The file-level analogue: a CAS entry another sweeper removed first.
    let mut disk = Disk::new();
    let r = disk.sweep_file("/tmp/absent", false);
    assert!(r.ok());
    assert_eq!(r.freed, 0);
}

#[test]
fn file_lost_between_look_and_unlink_frees_nothing() {
    // Another sweeper removes the entry mid-call: success, but not our bytes.
    let mut sweep = sweep_file(b"/tmp/entry", false);
    sweep.feed(stat_of(1, 16));
    sweep.feed(Reply::Done(Err(missing())));
    let r = sweep.outcome();
    assert!(r.ok());
    assert_eq!(r.freed, 0);

    let mut sweep = sweep_file(b"/tmp/entry", false);
    sweep.feed(stat_of(1, 16));
    sweep.feed(Reply::Done(Err(denied())));
    sweep.feed(stat_of(2, 0));
    sweep.feed(Reply::Done(Err(missing())));
    let r = sweep.outcome();
    assert!(r.ok());
    assert_eq!(r.freed, 0);
}

#[test]
fn file_dry_run_keeps_file() {
    let mut disk = Disk::new();
    disk.write("/tmp/entry", 4);
    let r = disk.sweep_file("/tmp/entry", true);
    assert!(r.ok());
    assert_eq!(r.freed, 0);
    assert!(disk.has("/tmp/entry"));
    assert!(disk.log.is_empty());
}

#[test]
fn file_apply_unlinks_and_counts() {
    let mut disk = Disk::new();
    disk.write("/tmp/entry", 8192);
    let r = disk.sweep_file("/tmp/entry", false);
    assert!(r.ok());
    assert!(r.freed >= 8192);
    assert!(!disk.has("/tmp/entry"));
}

#[test]
fn file_with_another_link_frees_nothing() {
    let mut disk = Disk::new();
    disk.write("/tmp/entry", 8192);
    disk.hard_link("/tmp/entry", "/tmp/other");
    let r = disk.sweep_file("/tmp/entry", false);
    assert!(r.ok());
    assert_eq!(r.freed, 0);
}

#[test]
fn file_errors_are_reported() {
    // A file that cannot be looked at.
    let mut sweep = sweep_file(b"/tmp/entry", false);
    sweep.feed(Reply::Stat(Err(denied())));
    assert_eq!(sweep.outcome().error, Some("Permission denied".to_string()));

    // One that stays for another reason is not tried again.
    let mut sweep = sweep_file(b"/tmp/entry", false);
    sweep.feed(stat_of(1, 16));
    sweep.feed(Reply::Done(Err(refused("Device or resource busy"))));
    assert!(sweep.next().is_none());
    let r = sweep.outcome();
    assert_eq!(r.error, Some("Device or resource busy".to_string()));
    assert_eq!(r.freed, 0);

    // One that is denied is tried once more, and then stays; the mode was fine.
    let mut sweep = sweep_file(b"/tmp/entry", false);
    sweep.feed(stat_of(1, 16));
    sweep.feed(Reply::Done(Err(denied())));
    match sweep.next() {
        Some(Request::Lstat(d)) => assert_eq!(d, b"/tmp".to_vec()),
        _ => panic!(),
    }
    sweep.feed(stat_of(2, 0));
    assert!(matches!(sweep.next(), Some(Request::Unlink(_))));
    sweep.feed(Reply::Done(Err(denied())));
    assert!(sweep.next().is_none());
    assert!(!sweep.outcome().ok());
}

#[test]
fn file_without_a_directory_is_tried_again_at_once() {
    let mut sweep = sweep_file(b"/", false);
    sweep.feed(stat_of(2, 8));
    sweep.feed(Reply::Done(Err(denied())));
    match sweep.next() {
        Some(Request::Unlink(p)) => assert_eq!(p, b"/".to_vec()),
        _ => panic!(),
    }
    sweep.feed(Reply::Done(Err(refused("Is a directory"))));
    assert_eq!(sweep.outcome().error, Some("Is a directory".to_string()));
}

#[test]
fn path_through_a_file_is_a_refusal() {
    // Only a missing path is success.
    let mut sweep = sweep_file(b"/tmp/file/entry", false);
    sweep.feed(Reply::Stat(Err(IoError {
        kind: ErrorKind::NotADirectory,
        message: "Not a directory".to_string(),
    })));
    assert_eq!(sweep.outcome().error, Some("Not a directory".to_string()));
}

#[test]
fn refused_file_has_its_own_directory_relaxed() {
    let mut sweep = sweep_file(b"/cas/ab/file", false);
    sweep.feed(stat_of(1, 16));
    sweep.feed(Reply::Done(Err(denied())));
    sweep.feed(Reply::Stat(Ok(Lstat {
        symlink: false,
        mode: 0o40555,
        nlink: 2,
        blocks: 0,
    })));
    match sweep.next() {
        Some(Request::Chmod(d, mode)) => {
            assert_eq!(d, b"/cas/ab".to_vec());
            assert_eq!(mode, 0o40755);
        }
        _ => panic!(),
    }
    sweep.feed(Reply::Done(Err(denied())));
    sweep.feed(Reply::Done(Ok(())));
    let r = sweep.outcome();
    assert!(r.ok());
    assert_eq!(r.freed, 16 * 512);
}

#[test]
fn inodes_are_counted_on_their_last_unlink() {
    // Three links inside; another inode with one link inside and one held elsewhere.
    let mut disk = Disk::new();
    disk.mkdir("/tmp/base/d");
    disk.write("/tmp/base/a", 1024);
    disk.hard_link("/tmp/base/a", "/tmp/base/b");
    disk.hard_link("/tmp/base/a", "/tmp/base/d/c");
    disk.write("/tmp/base/held", 65536);
    disk.hard_link("/tmp/base/held", "/tmp/held");
    let r = disk.sweep_tree("/tmp/base", false);
    assert!(r.ok());
    assert_eq!(r.freed, 1024);
    assert!(!disk.has("/tmp/base"));
    assert!(disk.has("/tmp/held"));
}

#[test]
fn tree_failures_are_counted() {
    // Two files that stay, in a tree that therefore stays, but for another reason.
    let mut sweep = sweep_tree(b"/t", false);
    let file = |name: &[u8]| {
        Some(Listed {
            name: name.to_vec(),
            leads_to_dir: Some(false),
        })
    };
    sweep.feed(Reply::Listing(Some(vec![file(b"a"), None, file(b"b")])));
    sweep.feed(stat_of(2, 0));
    sweep.feed(Reply::Stat(Err(denied())));
    sweep.feed(stat_of(1, 8));
    sweep.feed(Reply::Done(Err(denied())));
    assert!(matches!(sweep.next(), Some(Request::Rmdir(_))));
    sweep.feed(Reply::Done(Ok(())));
    let r = sweep.outcome();
    assert_eq!(r.error, Some("2 entries could not be removed".to_string()));
    assert_eq!(r.freed, 0);

    // A root that stays says why itself.
    let mut sweep = sweep_tree(b"/t", false);
    sweep.feed(Reply::Listing(None));
    sweep.feed(Reply::Done(Err(refused("Directory not empty"))));
    assert_eq!(
        sweep.outcome().error,
        Some("Directory not empty".to_string())
    );
}

#[test]
fn tree_goes_bottom_up() {
    let mut disk = Disk::new();
    disk.mkdir("/tmp/t/d");
    disk.write("/tmp/t/d/f", 512);
    disk.write("/tmp/t/g", 512);
    let r = disk.sweep_tree("/tmp/t", false);
    assert_eq!(r.freed, 1024);
    let show = |r: Request<&str>| match r {
        Request::List(p) => format!("{:?}", Request::List(p.as_bytes().to_vec())),
        Request::Lstat(p) => format!("{:?}", Request::Lstat(p.as_bytes().to_vec())),
        Request::Unlink(p) => format!("{:?}", Request::Unlink(p.as_bytes().to_vec())),
        Request::Rmdir(p) => format!("{:?}", Request::Rmdir(p.as_bytes().to_vec())),
        _ => unreachable!(),
    };
    assert_eq!(
        disk.log,
        vec![
            show(Request::List("/tmp/t")),
            show(Request::Lstat("/tmp/t/d")),
            show(Request::List("/tmp/t/d")),
            show(Request::Lstat("/tmp/t/d")),
            show(Request::Lstat("/tmp/t/d/f")),
            show(Request::Unlink("/tmp/t/d/f")),
            show(Request::Lstat("/tmp/t")),
            show(Request::Lstat("/tmp/t/g")),
            show(Request::Unlink("/tmp/t/g")),
            show(Request::Rmdir("/tmp/t/d")),
            show(Request::Rmdir("/tmp/t")),
        ]
    );
}

#[test]
fn counts_that_would_overflow_are_noticed() {
    let mut sweep = sweep_file(b"/tmp/entry", false);
    sweep.feed(stat_of(1, u64::MAX / 512 + 1));
    assert!(!sweep.has_room(&Reply::Done(Ok(()))));
    assert!(sweep.has_room(&Reply::Done(Err(missing()))));

    let mut sweep = sweep_tree(b"/t", false);
    sweep.feed(Reply::Listing(Some(vec![Some(Listed {
        name: b"a".to_vec(),
        leads_to_dir: None,
    })])));
    sweep.feed(stat_of(2, 0));
    sweep.feed(stat_of(1, u64::MAX / 512 + 1));
    assert!(!sweep.has_room(&Reply::Done(Ok(()))));
}

#[test]
fn modes_are_relaxed_only_where_needed() {
    assert_eq!(force_writable(0o100555), Some(0o100755));
    assert_eq!(force_writable(0o040755), None);
    assert_eq!(force_writable(0o000), Some(0o200));
    assert_eq!(force_writable(0o022), Some(0o222));
}

#[test]
fn only_the_last_link_frees_blocks() {
    assert_eq!(freed_by_unlink(1, 128), 65536);
    assert_eq!(freed_by_unlink(2, 128), 0);
    assert_eq!(freed_by_unlink(0, 128), 0);
}

#[test]
fn cas_root_is_under_the_repository_cache() {
    let tmp = std::path::PathBuf::from("/tmp/roomba-test");
    let expected = tmp
        .join("cache")
        .join("repos")
        .join("v1")
        .join("content_addressable");
    assert_eq!(
        cas_root(tmp.to_str().unwrap().as_bytes()),
        expected.to_str().unwrap().as_bytes().to_vec()
    );
}

#[test]
fn missing_cas_yields_nothing() {
    let mut disk = Disk::new();
    assert!(disk.census(&cas_root(b"/tmp")).is_empty());
}

#[test]
fn stale_entries_are_selected_by_atime() {
    let mut disk = Disk::new();
    let root = cas_root(b"/tmp");
    disk.entry(&text(&root), "cold", 100.0, b"payload");
    disk.entry(&text(&root), "warm", 1.0, b"payload");

    let doomed = stale(disk.census(&root), NOW, default_cutoff());
    let names: Vec<String> = doomed
        .iter()
        .map(|e| {
            let path = text(&e.path);
            let dir = Disk::parent(&path);
            dir[dir.rfind('/').unwrap() + 1..].to_string()
        })
        .collect();
    assert_eq!(names, vec!["cold".to_string()]);
}

#[test]
fn cutoff_is_configurable() {
    let mut disk = Disk::new();
    let root = cas_root(b"/tmp");
    disk.entry(&text(&root), "a", 10.0, b"payload");
    assert!(stale(disk.census(&root), NOW, default_cutoff()).is_empty());
    assert_eq!(stale(disk.census(&root), NOW, Hours::whole(6)).len(), 1);
}

#[test]
fn cutoff_itself_is_not_stale() {
    let mut disk = Disk::new();
    let root = cas_root(b"/tmp");
    disk.entry(&text(&root), "a", 6.0, b"payload");
    let all = disk.census(&root);
    assert_eq!(all[0].atime, hours_ago(6.0));
    assert!(stale(all.clone(), NOW, Hours::whole(6)).is_empty());
    assert_eq!(
        stale(all.clone(), NOW, Hours::Finite(5_999_999_999, -9)).len(),
        1
    );
    assert!(stale(all.clone(), NOW, Hours::PosInfinity).is_empty());
    assert!(stale(all.clone(), NOW, Hours::NotANumber).is_empty());
    assert_eq!(stale(all, NOW, Hours::NegInfinity).len(), 1);
}

#[test]
fn hardlinked_entries_are_flagged_as_shared() {
    // Unlinking a hardlinked entry frees nothing until the other link goes too.
    let mut disk = Disk::new();
    let root = cas_root(b"/tmp");
    let f = disk.entry(&text(&root), "linked", 100.0, b"payload");
    disk.mkdir("/tmp/elsewhere");
    disk.hard_link(&f, "/tmp/elsewhere/held");

    let e = disk
        .census(&root)
        .into_iter()
        .find(|e| e.path == f.as_bytes())
        .unwrap();
    assert!(e.shared());
    assert_eq!(e.size, 7); // b"payload"
}

#[test]
fn unshared_entry_is_not_flagged() {
    let mut disk = Disk::new();
    let root = cas_root(b"/tmp");
    disk.entry(&text(&root), "solo", 100.0, b"payload");
    assert!(!disk.census(&root)[0].shared());
}

#[test]
fn symlinked_dir_is_not_descended_into() {
    // Enumeration must not reach files outside the CAS -- otherwise a stray symlink would
    // hand their paths to sweep_file and unlink real files elsewhere.
    let mut disk = Disk::new();
    disk.mkdir("/tmp/precious");
    disk.write("/tmp/precious/keep", 4);
    let root = cas_root(b"/tmp");
    disk.mkdir(&format!("{}/sha256", text(&root)));
    disk.symlink("/tmp/precious", &format!("{}/sha256/link", text(&root)));

    let paths: Vec<_> = disk.census(&root).into_iter().map(|e| e.path).collect();
    assert!(
        paths.is_empty(),
        "symlinked dir was followed, reached: {paths:?}"
    );
    assert!(disk.has("/tmp/precious/keep"));
}

#[test]
fn census_is_sorted_and_takes_only_files() {
    let mut disk = Disk::new();
    disk.mkdir("/s/b");
    disk.write("/s/b/two", 2);
    disk.write("/s/b/one", 1);
    disk.mkdir("/s/a/empty");
    disk.write("/s/c", 3);
    disk.symlink("/s/c", "/s/d");
    disk.symlink("/s/gone", "/s/e");
    let paths: Vec<String> = disk.census(b"/s").iter().map(|e| text(&e.path)).collect();
    assert_eq!(paths, vec!["/s/b/one", "/s/b/two", "/s/c", "/s/d"]);
}

#[test]
fn unreadable_cas_directory_is_passed_over() {
    let mut scan = iter_entries(b"/s", true);
    scan.feed(CasReply::Names(Some(vec![
        Some(b"b".to_vec()),
        None,
        Some(b"a".to_vec()),
    ])));
    match scan.next() {
        Some(CasRequest::Lstat(p)) => assert_eq!(p, b"/s/a".to_vec()),
        _ => panic!(),
    }
    scan.feed(CasReply::RealDir(Some(true)));
    scan.feed(CasReply::Names(None));
    scan.feed(CasReply::RealDir(None));
    scan.feed(CasReply::Target(None));
    assert!(scan.next().is_none());
    assert!(scan.entries().is_empty());
}
