//! Discovering Bazel's on-disk layout under an output_user_root.
//!
//! Bazel keys one output base per workspace directory, named `md5(workspace_path)`,
//! all as siblings under the output_user_root (`~/.cache/bazel/_bazel_$USER`).
//!
//! The md5 is one-way, but we never need to invert it: Bazel drops the workspace path
//! verbatim into `<output_base>/DO_NOT_BUILD_HERE`. That file is the reverse mapping,
//! which is what makes orphan detection exact rather than a guess.

use crate::disk::ErrorKind;
use crate::order;
use crate::paths;
use crate::text;
use crate::util::Timestamp;
use vstd::prelude::*;
use vstd::slice::*;
use vstd::string::*;
use vstd::utf8::*;

verus! {

/// A lowercase hexadecimal digit.
pub open spec fn hex_digit(c: char) -> bool {
    '0' <= c <= '9' || 'a' <= c <= 'f'
}

/// Exactly 32 lowercase hexadecimal digits.
pub open spec fn md5_digest(name: Seq<char>) -> bool {
    name.len() == 32 && forall|i: int| 0 <= i < name.len() ==> hex_digit(#[trigger] name[i])
}

/// Whether `name` is an md5 hex digest: exactly 32 lowercase hex characters.
///
/// Output bases are md5 hex digests. The output_user_root also holds `cache/` (the
/// repository cache) and `install/` (unpacked bazel binaries) as siblings -- matching
/// on this shape is what keeps the reaper from eating them.
pub fn is_output_base_name(name: &str) -> (r: bool)
    ensures
        r == md5_digest(name@),
{
    if !name.is_ascii() {
        proof {
            let w = choose|i: int|
                0 <= i < name@.len() && !('\0' <= #[trigger] name@[i] <= '\u{7f}');
            assert(!hex_digit(name@[w]));
        }
        return false;
    }
    let bytes: &[u8] = name.as_bytes();
    if bytes.len() != 32 {
        return false;
    }
    let mut i: usize = 0;
    while i < 32
        invariant
            i <= 32,
            bytes@.len() == 32,
            name@.len() == 32,
            forall|k: int| 0 <= k < 32 ==> bytes@[k] as int == #[trigger] name@[k] as int,
            forall|k: int| 0 <= k < i ==> hex_digit(#[trigger] name@[k]),
        decreases 32 - i,
    {
        let b: u8 = bytes[i];
        assert(b as int == name@[i as int] as int);
        if !((48 <= b && b <= 57) || (97 <= b && b <= 102)) {
            assert(!hex_digit(name@[i as int]));
            return false;
        }
        i = i + 1;
    }
    true
}

/// The bytes are the name of an output base.
pub open spec fn base_name(name: Seq<u8>) -> bool {
    valid_utf8(name) && md5_digest(decode_utf8(name))
}

/// The home directory, the current directory where none is known.
pub open spec fn home_of(home: Option<Seq<u8>>) -> Seq<u8> {
    match home {
        Some(dir) => dir,
        None => seq![paths::DOT],
    }
}

/// The user's name, or else the name of the home directory.
pub open spec fn user_of(user: Option<Seq<char>>, home: Seq<u8>) -> Seq<char> {
    if user is Some && user->0.len() > 0 {
        user->0
    } else {
        paths::final_name_text(home)
    }
}

/// Where bazel keeps output bases: in `TEST_TMPDIR` if that is set to anything, else below
/// the home directory.
pub open spec fn user_root(
    test_tmpdir: Option<Seq<char>>,
    home: Option<Seq<u8>>,
    user: Option<Seq<char>>,
) -> Seq<u8> {
    if test_tmpdir is Some && test_tmpdir->0.len() > 0 {
        encode_utf8(test_tmpdir->0)
    } else {
        paths::joined_text(
            paths::joined_text(paths::joined_text(home_of(home), ".cache"@), "bazel"@),
            "_bazel_"@ + user_of(user, home_of(home)),
        )
    }
}

/// The characters of a text that may be absent.
pub open spec fn chars_of(s: Option<&str>) -> Option<Seq<char>> {
    match s {
        Some(s) => Some(s@),
        None => None,
    }
}

/// The bytes of a path that may be absent.
pub open spec fn bytes_of(p: Option<&[u8]>) -> Option<Seq<u8>> {
    match p {
        Some(p) => Some(p@),
        None => None,
    }
}

fn home_dir(home: Option<&[u8]>) -> (r: Vec<u8>)
    ensures
        r@ == home_of(bytes_of(home)),
{
    match home {
        Some(dir) => slice_to_vec(dir),
        None => {
            let mut r: Vec<u8> = Vec::new();
            r.push(paths::DOT);
            assert(r@ =~= seq![paths::DOT]);
            r
        },
    }
}

/// Where bazel keeps output bases, absent an explicit `--output_user_root`, given the
/// environment variables `TEST_TMPDIR`, `HOME` and `USER`.
pub fn default_output_user_root(
    test_tmpdir: Option<&str>,
    home: Option<&[u8]>,
    user: Option<&str>,
) -> (r: Vec<u8>)
    ensures
        r@ == user_root(chars_of(test_tmpdir), bytes_of(home), chars_of(user)),
{
    match test_tmpdir {
        Some(t) => {
            if !t.is_empty() {
                return slice_to_vec(t.as_bytes());
            }
        },
        None => {},
    }
    let home = home_dir(home);
    let mut leaf = "_bazel_".to_owned();
    let mut named: bool = false;
    match user {
        Some(u) => {
            if !u.is_empty() {
                leaf.append(u);
                named = true;
            }
        },
        None => {},
    }
    if !named {
        leaf.append(paths::file_name_text(home.as_slice()).as_str());
    }
    let cache = paths::join_text(home.as_slice(), ".cache");
    let bazel = paths::join_text(cache.as_slice(), "bazel");
    paths::join_text(bazel.as_slice(), leaf.as_str())
}

/// What came of a look at the workspace that a base names.
#[derive(Debug, Clone, Copy, PartialEq, Eq, Structural)]
pub enum WorkspaceProbe {
    /// It is there.
    Found,
    /// A stat of it failed.
    StatFailed(ErrorKind),
    /// Nobody looked: the base names no workspace.
    NotProbed,
}

/// One `<output_user_root>/<md5>` directory.
#[derive(Debug, Clone)]
pub struct OutputBase {
    pub path: Vec<u8>,
    /// The workspace this base was built for, per DO_NOT_BUILD_HERE. None if unreadable.
    pub workspace: Option<String>,
    /// The mtime of the newest freshness marker.
    pub last_used: Timestamp,
}

/// An output base over the bytes of its path and the characters of its workspace.
pub struct BaseView {
    pub path: Seq<u8>,
    pub workspace: Option<Seq<char>>,
    pub last_used: Timestamp,
}

impl OutputBase {
    /// The base over the bytes of its path and the characters of its workspace.
    pub open spec fn view(self) -> BaseView {
        BaseView {
            path: self.path@,
            workspace: match self.workspace {
                Some(ws) => Some(ws@),
                None => None,
            },
            last_used: self.last_used,
        }
    }

    /// The last component of the base's path.
    pub fn name(&self) -> (r: String)
        ensures
            r@ == paths::final_name_text(self@.path),
    {
        paths::file_name_text(self.path.as_slice())
    }

    /// True when the workspace this base serves is gone, given what a look at it came to. One
    /// that is merely out of reach is not gone.
    ///
    /// An unreadable DO_NOT_BUILD_HERE is deliberately NOT an orphan: a base too
    /// broken to say who it belongs to is left for the age rule to collect, rather
    /// than deleted on the strength of a missing file.
    pub fn orphaned(&self, workspace: WorkspaceProbe) -> (r: bool)
        ensures
            r == self@.gone(workspace),
    {
        match &self.workspace {
            Some(_) => match workspace {
                WorkspaceProbe::StatFailed(kind) => kind.is_absent(),
                WorkspaceProbe::Found => false,
                WorkspaceProbe::NotProbed => false,
            },
            None => false,
        }
    }
}

impl BaseView {
    /// The base names a workspace, and that workspace does not exist.
    pub open spec fn gone(self, workspace: WorkspaceProbe) -> bool {
        self.workspace is Some && match workspace {
            WorkspaceProbe::StatFailed(kind) => kind.absent(),
            _ => false,
        }
    }
}

/// The file of a base that names its workspace.
pub open spec fn workspace_file(base: Seq<u8>) -> Seq<u8> {
    paths::joined_text(base, "DO_NOT_BUILD_HERE"@)
}

/// The file in which bazel records the workspace that a base belongs to.
pub fn workspace_marker(base: &[u8]) -> (r: Vec<u8>)
    ensures
        r@ == workspace_file(base@),
{
    paths::join_text(base, "DO_NOT_BUILD_HERE")
}

/// The workspace that the text of a DO_NOT_BUILD_HERE names.
pub open spec fn workspace_in(raw: Option<Seq<char>>) -> Option<Seq<char>> {
    match raw {
        Some(raw) => if text::trimmed(raw).len() == 0 {
            None
        } else {
            Some(text::trimmed(raw))
        },
        None => None,
    }
}

/// The workspace path a base was created for, or None if unavailable, given what its
/// DO_NOT_BUILD_HERE holds.
pub fn read_workspace(raw: Option<&str>) -> (r: Option<String>)
    ensures
        match r {
            Some(ws) => workspace_in(chars_of(raw)) == Some(ws@),
            None => workspace_in(chars_of(raw)) is None,
        },
{
    match raw {
        Some(raw) => {
            let ws = text::trim(raw);
            if ws.is_empty() {
                None
            } else {
                Some(ws.to_owned())
            }
        },
        None => None,
    }
}

/// Cheap freshness markers. Walking a whole output base to find the newest mtime costs a
/// recursive stat over ~100k files times ~600 bases; these few paths give the same answer
/// for a couple of stats each. `command.profile.gz` is rewritten by every bazel command, so
/// it is the truest "last used" signal.
pub open spec fn marker_paths(base: Seq<u8>) -> Seq<Seq<u8>> {
    seq![
        paths::joined_text(base, "command.profile.gz"@),
        paths::joined_text(base, "server/server.starttime"@),
        paths::joined_text(base, "action_cache"@),
        paths::joined_text(base, "server"@),
    ]
}

/// The freshness markers of a base.
pub fn freshness_markers(base: &[u8]) -> (r: Vec<Vec<u8>>)
    ensures
        r@.map_values(|p: Vec<u8>| p@) == marker_paths(base@),
{
    let mut r: Vec<Vec<u8>> = Vec::new();
    r.push(paths::join_text(base, "command.profile.gz"));
    r.push(paths::join_text(base, "server/server.starttime"));
    r.push(paths::join_text(base, "action_cache"));
    r.push(paths::join_text(base, "server"));
    assert(r@.map_values(|p: Vec<u8>| p@) =~= marker_paths(base@));
    r
}

/// The Unix epoch.
pub open spec fn epoch() -> Timestamp {
    Timestamp { secs: 0, nsecs: 0 }
}

/// The newest of the times there are, the first of equal ones; none where there is no time.
pub open spec fn newest(times: Seq<Option<Timestamp>>) -> Option<Timestamp>
    decreases times.len(),
{
    if times.len() == 0 {
        None
    } else {
        match (newest(times.drop_last()), times.last()) {
            (Some(before), Some(t)) => if t.ns() > before.ns() {
                Some(t)
            } else {
                Some(before)
            },
            (Some(before), None) => Some(before),
            (None, last) => last,
        }
    }
}

/// The newest marker, or else the base's own mtime, or else the epoch.
pub open spec fn last_use(markers: Seq<Option<Timestamp>>, own: Option<Timestamp>) -> Timestamp {
    match newest(markers) {
        Some(t) => t,
        None => match own {
            Some(t) => t,
            None => epoch(),
        },
    }
}

/// Newest mtime among the freshness markers, falling back to the base itself where there is
/// no marker.
pub fn last_used(markers: &Vec<Option<Timestamp>>, own: Option<Timestamp>) -> (r: Timestamp)
    ensures
        r == last_use(markers@, own),
{
    let mut best: Option<Timestamp> = None;
    let mut i: usize = 0;
    assert(markers@.take(0) =~= seq![]);
    while i < markers.len()
        invariant
            i <= markers@.len(),
            best == newest(markers@.take(i as int)),
        decreases markers@.len() - i,
    {
        assert(markers@.take(i + 1).drop_last() =~= markers@.take(i as int));
        match (best, markers[i]) {
            (Some(before), Some(t)) => {
                if t.nanos() > before.nanos() {
                    best = Some(t);
                }
            },
            (Some(_), None) => {},
            (None, last) => {
                best = last;
            },
        }
        i = i + 1;
    }
    assert(markers@.take(i as int) =~= markers@);
    match best {
        Some(t) => t,
        None => match own {
            Some(t) => t,
            None => Timestamp { secs: 0, nsecs: 0 },
        },
    }
}

/// There is a newest marker exactly where there is a marker; it is one of them, and none is
/// newer, whichever side of the epoch they lie on.
pub proof fn law_newest_is_a_marker(times: Seq<Option<Timestamp>>)
    ensures
        newest(times) is Some <==> exists|i: int|
            0 <= i < times.len() && (#[trigger] times[i]) is Some,
        newest(times) is Some ==> times.contains(newest(times)),
        forall|i: int|
            0 <= i < times.len() && (#[trigger] times[i]) is Some ==> times[i]->0.ns() <= newest(
                times,
            )->0.ns(),
    decreases times.len(),
{
    if times.len() > 0 {
        let init = times.drop_last();
        law_newest_is_a_marker(init);
        assert(times[times.len() - 1] == times.last());
        assert forall|i: int| 0 <= i < times.len() - 1 implies init[i] == #[trigger] times[i] by {}
        if newest(init) is Some {
            let i = choose|i: int| 0 <= i < init.len() && init[i] == newest(init);
            assert(times[i] == newest(init));
        }
        assert forall|i: int| 0 <= i < times.len() && (
        #[trigger] times[i]) is Some implies times[i]->0.ns() <= newest(times)->0.ns() by {
            if i < times.len() - 1 {
                assert(init[i] == times[i]);
            }
        }
    }
}

/// What the disk says of one entry of the output_user_root.
#[derive(Debug)]
pub struct BaseFacts {
    pub name: Vec<u8>,
    pub is_dir: bool,
    /// What its DO_NOT_BUILD_HERE holds, if it can be read as text.
    pub workspace: Option<String>,
    /// The mtimes of its freshness markers.
    pub markers: Vec<Option<Timestamp>>,
    /// Its own mtime.
    pub own: Option<Timestamp>,
}

impl BaseFacts {
    /// The entry is an output base: a directory named like one.
    pub open spec fn is_base(self) -> bool {
        base_name(self.name@) && self.is_dir
    }

    /// The output base that the facts describe.
    pub open spec fn base(self, root: Seq<u8>) -> BaseView {
        BaseView {
            path: paths::joined(root, self.name@),
            workspace: workspace_in(
                match self.workspace {
                    Some(raw) => Some(raw@),
                    None => None,
                },
            ),
            last_used: last_use(self.markers@, self.own),
        }
    }
}

/// The entries that are output bases, in the order found.
pub open spec fn bases_among(found: Seq<BaseFacts>) -> Seq<BaseFacts>
    decreases found.len(),
{
    if found.len() == 0 {
        seq![]
    } else {
        let before = bases_among(found.drop_last());
        if found.last().is_base() {
            before.push(found.last())
        } else {
            before
        }
    }
}

/// The names of entries.
pub open spec fn names_of(found: Seq<BaseFacts>) -> Seq<Vec<u8>> {
    found.map_values(|f: BaseFacts| f.name)
}

/// Whether the bytes are the name of an output base.
pub fn is_base_name(name: &[u8]) -> (r: bool)
    ensures
        r == base_name(name@),
{
    match paths::utf8_text(name) {
        Some(name) => is_output_base_name(name.as_str()),
        None => false,
    }
}

/// Every output base under `root`, sorted by name.
///
/// Only md5-shaped directories are considered, so `cache/` and `install/` are
/// structurally excluded rather than special-cased.
pub fn iter_output_bases(root: &[u8], found: &Vec<BaseFacts>) -> (r: Vec<OutputBase>)
    ensures
        r@.len() == bases_among(found@).len(),
        forall|i: int|
            0 <= i < r@.len() ==> (#[trigger] r@[i])@ == bases_among(found@)[order::order_of(
                names_of(bases_among(found@)),
            )[i]].base(root@),
{
    let mut kept: Vec<usize> = Vec::new();
    let mut names: Vec<Vec<u8>> = Vec::new();
    let mut i: usize = 0;
    assert(found@.take(0) =~= seq![]);
    while i < found.len()
        invariant
            i <= found@.len(),
            kept@.len() == bases_among(found@.take(i as int)).len(),
            names@.len() == kept@.len(),
            forall|k: int| 0 <= k < kept@.len() ==> (#[trigger] kept@[k]) < i,
            forall|k: int|
                0 <= k < kept@.len() ==> found@[#[trigger] kept@[k] as int] == bases_among(
                    found@.take(i as int),
                )[k],
            forall|k: int|
                0 <= k < kept@.len() ==> (#[trigger] names@[k])@ == bases_among(
                    found@.take(i as int),
                )[k].name@,
        decreases found@.len() - i,
    {
        assert(found@.take(i + 1).drop_last() =~= found@.take(i as int));
        let facts: &BaseFacts = &found[i];
        if facts.is_dir && is_base_name(facts.name.as_slice()) {
            kept.push(i);
            names.push(slice_to_vec(facts.name.as_slice()));
        }
        i = i + 1;
    }
    assert(found@.take(i as int) =~= found@);
    proof {
        order::law_order_rests_on_comparison(names@, names_of(bases_among(found@)));
    }
    let sorted = order::sorted_order(&names);
    let mut r: Vec<OutputBase> = Vec::new();
    let ghost order = order::indices(sorted@);
    let mut j: usize = 0;
    while j < sorted.len()
        invariant
            j <= sorted@.len(),
            order == order::indices(sorted@),
            order::stable_order(names@, order),
            names@.len() == kept@.len(),
            kept@.len() == bases_among(found@).len(),
            forall|k: int| 0 <= k < kept@.len() ==> (#[trigger] kept@[k]) < found@.len(),
            forall|k: int|
                0 <= k < kept@.len() ==> found@[#[trigger] kept@[k] as int] == bases_among(
                    found@,
                )[k],
            r@.len() == j,
            forall|k: int|
                0 <= k < j ==> (#[trigger] r@[k])@ == bases_among(found@)[order[k]].base(root@),
        decreases sorted@.len() - j,
    {
        assert(order[j as int] == sorted@[j as int]);
        let facts: &BaseFacts = &found[kept[sorted[j]]];
        let raw: Option<&str> = match &facts.workspace {
            Some(s) => Some(s.as_str()),
            None => None,
        };
        r.push(
            OutputBase {
                path: paths::join(root, facts.name.as_slice()),
                workspace: read_workspace(raw),
                last_used: last_used(&facts.markers, facts.own),
            },
        );
        j = j + 1;
    }
    r
}

proof fn lemma_base_name_is_plain(name: Seq<u8>)
    requires
        base_name(name),
    ensures
        paths::plain_name(name),
{
    let chars = decode_utf8(name);
    assert(is_ascii_chars(chars)) by {
        assert forall|i: int| 0 <= i < chars.len() implies '\0' <= #[trigger] chars[i]
            <= '\u{7f}' by {
            assert(hex_digit(chars[i]));
        }
    }
    decode_utf8_encode_utf8(name);
    is_ascii_chars_encode_utf8(chars);
    assert forall|i: int| 0 <= i < name.len() implies name[i] != paths::SLASH by {
        assert(hex_digit(chars[i]));
    }
    assert(name.len() == 32);
}

/// An output base bears the name under which it was found, and lies in the
/// output_user_root.
pub proof fn law_base_bears_its_name(root: Seq<u8>, facts: BaseFacts)
    requires
        facts.is_base(),
    ensures
        paths::final_name_text(facts.base(root).path) == decode_utf8(facts.name@),
        paths::under(root, facts.base(root).path),
{
    lemma_base_name_is_plain(facts.name@);
    paths::law_final_name_of_join(root, facts.name@);
    paths::law_join_is_under(root, facts.name@);
}

/// An output base has nothing in common with a sibling that is not named like one, such as
/// the repository cache or the install base: what is inside the base is not inside the
/// sibling.
pub proof fn law_bases_spare_their_siblings(
    root: Seq<u8>,
    facts: BaseFacts,
    sibling: Seq<u8>,
    x: Seq<u8>,
)
    requires
        facts.is_base(),
        !base_name(sibling),
        paths::plain_name(sibling),
        paths::inside(facts.base(root).path, x),
    ensures
        !paths::inside(paths::joined(root, sibling), x),
{
    lemma_base_name_is_plain(facts.name@);
    paths::law_siblings_share_nothing(root, facts.name@, sibling, x);
}

/// The repository cache and the install base are no output bases, and no output base has
/// anything in common with them.
pub proof fn law_cache_and_install_are_spared(root: Seq<u8>, facts: BaseFacts, x: Seq<u8>)
    requires
        facts.is_base(),
        paths::inside(facts.base(root).path, x),
    ensures
        !base_name(encode_utf8("cache"@)),
        !base_name(encode_utf8("install"@)),
        !paths::inside(paths::joined_text(root, "cache"@), x),
        !paths::inside(paths::joined_text(root, "install"@), x),
{
    reveal_strlit("cache");
    reveal_strlit("install");
    encode_utf8_decode_utf8("cache"@);
    encode_utf8_decode_utf8("install"@);
    paths::lemma_word_is_plain("cache"@);
    paths::lemma_word_is_plain("install"@);
    law_bases_spare_their_siblings(root, facts, encode_utf8("cache"@), x);
    law_bases_spare_their_siblings(root, facts, encode_utf8("install"@), x);
}

/// The census takes every directory named like an output base, and nothing else: its
/// siblings are never enumerated.
pub proof fn law_census_is_exact(found: Seq<BaseFacts>, facts: BaseFacts)
    ensures
        bases_among(found).contains(facts) <==> found.contains(facts) && facts.is_base(),
    decreases found.len(),
{
    if found.len() > 0 {
        let init = found.drop_last();
        let before = bases_among(init);
        let all = bases_among(found);
        law_census_is_exact(init, facts);
        if found.contains(facts) && facts.is_base() {
            let i = choose|i: int| 0 <= i < found.len() && found[i] == facts;
            if i < found.len() - 1 {
                assert(init[i] == facts);
                let k = choose|k: int| 0 <= k < before.len() && before[k] == facts;
                assert(all[k] == facts);
            } else {
                assert(all[all.len() - 1] == facts);
            }
        }
        if all.contains(facts) {
            let k = choose|k: int| 0 <= k < all.len() && all[k] == facts;
            if k < before.len() {
                assert(before[k] == facts);
                let i = choose|i: int| 0 <= i < init.len() && init[i] == facts;
                assert(found[i] == facts);
            } else {
                assert(found[found.len() - 1] == facts);
            }
        }
    }
}

/// A file that names no workspace, by being empty, blank or unreadable, never makes an
/// orphan of its base.
pub proof fn law_unreadable_workspace_is_no_orphan(
    root: Seq<u8>,
    facts: BaseFacts,
    workspace: WorkspaceProbe,
)
    requires
        facts.workspace is None || text::trimmed(facts.workspace->0@).len() == 0,
    ensures
        !facts.base(root).gone(workspace),
{
}

/// A workspace that is there, or that cannot be looked at for any reason but that nothing is
/// there, never makes an orphan of its base.
pub proof fn law_unreachable_workspace_is_no_orphan(base: BaseView, kind: ErrorKind)
    requires
        !kind.absent(),
    ensures
        !base.gone(WorkspaceProbe::Found),
        !base.gone(WorkspaceProbe::StatFailed(kind)),
{
}

} // verus!
