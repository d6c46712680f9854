//! What counts as an output base, whose it is and when it was last used, in plain terms.

use crate::cas;
use crate::disk::ErrorKind;
use crate::layout;
use crate::layout::{BaseFacts, BaseView, WorkspaceProbe};
use crate::liveness;
use crate::order;
use crate::order::Ranked;
use crate::paths;
use crate::text;
use crate::text_laws;
use crate::util::Timestamp;
use vstd::prelude::*;
use vstd::utf8::*;

verus! {

/// An md5 digest is 32 characters long, each of them a decimal digit or one of `a` to `f`.
pub proof fn law_digest_is_lowercase_hex(name: Seq<char>)
    ensures
        layout::md5_digest(name) <==> name.len() == 32 && forall|i: int|
            0 <= i < 32 ==> '0' <= #[trigger] name[i] <= '9' || 'a' <= name[i] <= 'f',
{
    if layout::md5_digest(name) {
        assert forall|i: int| 0 <= i < 32 implies '0' <= #[trigger] name[i] <= '9' || 'a' <= name[i]
            <= 'f' by {
            assert(layout::hex_digit(name[i]));
        }
    }
}

/// The bytes of an output base's name are those of such characters, and every such name is one.
pub proof fn law_base_name_is_hex_bytes(name: Seq<u8>)
    ensures
        layout::base_name(name) <==> name.len() == 32 && forall|i: int|
            0 <= i < 32 ==> 48 <= #[trigger] name[i] <= 57 || 97 <= name[i] <= 102,
{
    if layout::base_name(name) {
        let chars = decode_utf8(name);
        law_digest_is_lowercase_hex(chars);
        assert(is_ascii_chars(chars));
        decode_utf8_encode_utf8(name);
        is_ascii_chars_encode_utf8(chars);
        assert forall|i: int| 0 <= i < 32 implies 48 <= #[trigger] name[i] <= 57 || 97 <= name[i]
            <= 102 by {
            assert('0' <= chars[i] <= '9' || 'a' <= chars[i] <= 'f');
        }
    }
    if name.len() == 32 && forall|i: int|
        0 <= i < 32 ==> 48 <= #[trigger] name[i] <= 57 || 97 <= name[i] <= 102 {
        let chars = Seq::new(32, |i: int| name[i] as char);
        assert forall|i: int| 0 <= i < 32 implies '0' <= #[trigger] chars[i] <= '9' || 'a'
            <= chars[i] <= 'f' by {
            assert(48 <= name[i] <= 57 || 97 <= name[i] <= 102);
        }
        assert(is_ascii_chars(chars));
        is_ascii_chars_encode_utf8(chars);
        assert(encode_utf8(chars) =~= name) by {
            assert forall|i: int| 0 <= i < 32 implies encode_utf8(chars)[i] == name[i] by {
                assert(48 <= name[i] <= 57 || 97 <= name[i] <= 102);
            }
        }
        encode_utf8_valid_utf8(chars);
        encode_utf8_decode_utf8(chars);
        law_digest_is_lowercase_hex(chars);
    }
}

/// Bazel's root is what `TEST_TMPDIR` says, unless that is unset or empty; else it is
/// `.cache/bazel/_bazel_` and the user's name below the home directory, or below `.` if there is
/// none. An unset or empty `USER` is made up for by the name of the home directory.
pub proof fn law_user_root_follows_the_variables(
    test_tmpdir: Option<Seq<char>>,
    home: Option<Seq<u8>>,
    user: Option<Seq<char>>,
)
    ensures
        test_tmpdir matches Some(t) && t.len() > 0 ==> layout::user_root(test_tmpdir, home, user)
            == encode_utf8(test_tmpdir->0),
        !(test_tmpdir matches Some(t) && t.len() > 0) ==> {
            let h = if home is Some {
                home->0
            } else {
                seq![46u8]
            };
            let u = if user matches Some(u) && u.len() > 0 {
                user->0
            } else {
                paths::final_name_text(h)
            };
            let cache = paths::joined(h, encode_utf8(".cache"@));
            let bazel = paths::joined(cache, encode_utf8("bazel"@));
            layout::user_root(test_tmpdir, home, user) == paths::joined(
                bazel,
                encode_utf8("_bazel_"@ + u),
            )
        },
{
}

/// The repository cache's store is `cache/repos/v1/content_addressable` below the root.
pub proof fn law_store_has_its_place(root: Seq<u8>)
    ensures
        ({
            let cache = paths::joined(root, encode_utf8("cache"@));
            let repos = paths::joined(cache, encode_utf8("repos"@));
            let v1 = paths::joined(repos, encode_utf8("v1"@));
            cas::store_root(root) == paths::joined(v1, encode_utf8("content_addressable"@))
        }),
{
}

/// A base's lock, its server's pid and the name of its workspace are in these files of it.
pub proof fn law_files_of_a_base_have_their_place(base: Seq<u8>)
    ensures
        liveness::lock_file(base) == paths::joined(base, encode_utf8("lock"@)),
        liveness::pid_file(base) == paths::joined(
            paths::joined(base, encode_utf8("server"@)),
            encode_utf8("server.pid.txt"@),
        ),
        layout::workspace_file(base) == paths::joined(base, encode_utf8("DO_NOT_BUILD_HERE"@)),
{
}

/// A base's markers are these four files of it, in this order.
pub proof fn law_markers_are_these_four(base: Seq<u8>)
    ensures
        layout::marker_paths(base).len() == 4,
        layout::marker_paths(base)[0] == paths::joined(base, encode_utf8("command.profile.gz"@)),
        layout::marker_paths(base)[1] == paths::joined(
            base,
            encode_utf8("server/server.starttime"@),
        ),
        layout::marker_paths(base)[2] == paths::joined(base, encode_utf8("action_cache"@)),
        layout::marker_paths(base)[3] == paths::joined(base, encode_utf8("server"@)),
{
}

/// The workspace that a file names is its text without the white space round it; a file that
/// cannot be read, or holds nothing but white space, names none.
pub proof fn law_workspace_is_the_trimmed_text(raw: Seq<char>)
    ensures
        layout::workspace_in(None) is None,
        (forall|i: int| 0 <= i < raw.len() ==> text::white_space(#[trigger] raw[i]))
            <==> layout::workspace_in(Some(raw)) is None,
        layout::workspace_in(Some(raw)) matches Some(ws) ==> ws == text::trimmed(raw),
{
    let (a, b) = text_laws::law_trimmed_is_the_middle(raw);
    if a < b {
        assert(!text::white_space(raw[a]));
    } else {
        assert forall|i: int| 0 <= i < raw.len() implies text::white_space(
            #[trigger] raw[i],
        ) by {
            if i >= a {
                assert(b <= i);
            }
        }
    }
}

/// A base was last used when its newest marker was touched, if it has a marker, wherever that
/// lies in time; else when it was touched itself; else, if nobody can tell, at the epoch.
pub proof fn law_last_use_is_the_newest_marker(
    markers: Seq<Option<Timestamp>>,
    own: Option<Timestamp>,
)
    ensures
        (exists|i: int| 0 <= i < markers.len() && (#[trigger] markers[i]) is Some) ==> {
            &&& markers.contains(Some(layout::last_use(markers, own)))
            &&& forall|i: int|
                0 <= i < markers.len() && (#[trigger] markers[i]) is Some
                    ==> markers[i]->0.secs * 1_000_000_000 + markers[i]->0.nsecs
                    <= layout::last_use(markers, own).secs * 1_000_000_000 + layout::last_use(
                    markers,
                    own,
                ).nsecs
        },
        (forall|i: int| 0 <= i < markers.len() ==> (#[trigger] markers[i]) is None)
            ==> layout::last_use(markers, own) == match own {
            Some(t) => t,
            None => Timestamp { secs: 0, nsecs: 0 },
        },
{
    layout::law_newest_is_a_marker(markers);
}

/// What is known of an entry makes an output base of it exactly if it is a directory with a
/// base's name; the base lies under the root by that name.
pub proof fn law_facts_make_a_base(root: Seq<u8>, facts: BaseFacts)
    ensures
        facts.is_base() <==> facts.is_dir && facts.name@.len() == 32 && forall|i: int|
            0 <= i < 32 ==> 48 <= #[trigger] facts.name@[i] <= 57 || 97 <= facts.name@[i] <= 102,
        facts.base(root).path == paths::joined(root, facts.name@),
        facts.base(root).workspace == match facts.workspace {
            Some(raw) => layout::workspace_in(Some(raw@)),
            None => None,
        },
        facts.base(root).last_used == layout::last_use(facts.markers@, facts.own),
{
    law_base_name_is_hex_bytes(facts.name@);
}

/// The bases among the entries are those that are bases, each once, in the order found.
pub proof fn law_bases_are_filtered(found: Seq<BaseFacts>)
    ensures
        layout::bases_among(found) == found.filter(|f: BaseFacts| f.is_base()),
        layout::names_of(found).len() == found.len(),
        forall|i: int|
            0 <= i < found.len() ==> #[trigger] layout::names_of(found)[i] == found[i].name,
    decreases found.len(),
{
    reveal(Seq::filter);
    if found.len() > 0 {
        law_bases_are_filtered(found.drop_last());
    }
}

/// The census puts bases in the order of their names, byte by byte.
pub proof fn law_census_is_sorted(found: Seq<BaseFacts>, i: int, j: int)
    requires
        0 <= i < j < layout::bases_among(found).len(),
    ensures
        ({
            let bases = layout::bases_among(found);
            let order = order::order_of(layout::names_of(bases));
            &&& 0 <= order[i] < bases.len()
            &&& 0 <= order[j] < bases.len()
            &&& order[i] != order[j]
            &&& order::bytes_at_most(bases[order[i]].name@, bases[order[j]].name@)
        }),
{
    let bases = layout::bases_among(found);
    law_bases_are_filtered(bases);
    order::law_order_sorts(layout::names_of(bases));
    let order = order::order_of(layout::names_of(bases));
    assert(layout::names_of(bases)[order[i]].at_most(layout::names_of(bases)[order[j]]));
}

/// A workspace is gone exactly if the base names one and a stat of it says that it is missing,
/// or that its path leads through something that is no directory.
pub proof fn law_workspace_is_gone_if_nothing_is_there(base: BaseView, workspace: WorkspaceProbe)
    ensures
        base.gone(workspace) <==> base.workspace is Some && (workspace
            == WorkspaceProbe::StatFailed(ErrorKind::NotFound) || workspace
            == WorkspaceProbe::StatFailed(ErrorKind::NotADirectory)),
{
}

/// A text or a path that may be absent is its characters or its bytes, and absent if it is.
pub proof fn law_what_may_be_absent_is_kept(s: &str, p: &[u8])
    ensures
        layout::chars_of(Some(s)) == Some(s@),
        layout::chars_of(None) == None::<Seq<char>>,
        layout::bytes_of(Some(p)) == Some(p@),
        layout::bytes_of(None) == None::<Seq<u8>>,
{
}

} // verus!
