//! What the functions of [`crate::paths`] give, told by how a path is put together.

use crate::paths;
use vstd::prelude::*;
use vstd::utf8::*;

verus! {

/// A name joined to a directory stands behind it, with one separator between the two if the
/// directory does not end in one already; an absolute name stands for itself.
pub proof fn law_join_puts_one_separator(d: Seq<u8>, name: Seq<u8>)
    ensures
        name.len() > 0 && name[0] == 47 ==> paths::joined(d, name) == name,
        !(name.len() > 0 && name[0] == 47) && (d.len() == 0 || d[d.len() - 1] == 47)
            ==> paths::joined(d, name) == d + name,
        !(name.len() > 0 && name[0] == 47) && d.len() > 0 && d[d.len() - 1] != 47 ==> paths::joined(
            d,
            name,
        ) == d + seq![47u8] + name,
{
    assert(d.push(47u8) + name =~= d + seq![47u8] + name);
}

/// A text is joined by the bytes that encode it.
pub proof fn law_text_is_joined_by_its_bytes(d: Seq<u8>, name: Seq<char>)
    ensures
        paths::joined_text(d, name) == paths::joined(d, encode_utf8(name)),
{
}

/// A name that a listing gives is not empty, holds no separator, and is neither `.` nor `..`.
pub proof fn law_plain_name_is_one_component(name: Seq<u8>)
    ensures
        paths::plain_name(name) <==> {
            &&& name.len() > 0
            &&& forall|i: int| 0 <= i < name.len() ==> #[trigger] name[i] != 47
            &&& !(name.len() == 1 && name[0] == 46)
            &&& !(name.len() == 2 && name[0] == 46 && name[1] == 46)
        },
{
    let sound = forall|i: int| 0 <= i < name.len() ==> #[trigger] name[i] != 47;
    if sound && name.contains(47u8) {
        let i = choose|i: int| 0 <= i < name.len() && name[i] == 47u8;
        assert(name[i] != 47);
    }
    if !name.contains(47u8) {
        assert forall|i: int| 0 <= i < name.len() implies #[trigger] name[i] != 47 by {
            assert(name.contains(name[i]));
        }
    }
    if name.len() == 1 && name[0] == 46 {
        assert(name =~= seq![46u8]);
    }
    if name.len() == 2 && name[0] == 46 && name[1] == 46 {
        assert(name =~= seq![46u8, 46u8]);
    }
}

/// The final name of a path, by how the path ends: a trailing separator or `.` changes nothing,
/// `..` and the empty path have no name, and any other last component is the name.
pub proof fn law_final_name_goes_by_the_end(p: Seq<u8>, prefix: Seq<u8>, name: Seq<u8>)
    requires
        prefix.len() == 0 || prefix[prefix.len() - 1] == 47,
        paths::plain_name(name),
    ensures
        paths::final_name(seq![]) is None,
        paths::final_name(p + seq![47u8]) == paths::final_name(p),
        paths::final_name(prefix + seq![46u8]) == paths::final_name(prefix),
        paths::final_name(prefix + seq![46u8, 46u8]) is None,
        paths::final_name(prefix + name) == Some(name),
{
    let slashed = p + seq![47u8];
    assert(slashed.last() == 47u8);
    assert(slashed.skip(slashed.len() as int).len() == 0);
    assert(slashed.drop_last() =~= p);

    let dotted = prefix + seq![46u8];
    paths::lemma_name_starts_behind_prefix(prefix, seq![46u8]);
    assert(dotted.skip(prefix.len() as int) =~= seq![46u8]);
    assert(dotted.take(prefix.len() as int) =~= prefix);

    let up = prefix + seq![46u8, 46u8];
    assert(!seq![46u8, 46u8].contains(47u8));
    paths::lemma_name_starts_behind_prefix(prefix, seq![46u8, 46u8]);
    assert(up.skip(prefix.len() as int) =~= seq![46u8, 46u8]);
    assert(seq![46u8, 46u8][1] == 46u8);
    assert(seq![46u8, 46u8].len() != seq![46u8].len());

    paths::lemma_name_starts_behind_prefix(prefix, name);
    assert((prefix + name).skip(prefix.len() as int) =~= name);
}

/// The text of the final name is what its bytes encode, or nothing if there is no such name or
/// it is not UTF-8.
pub proof fn law_final_name_text_is_its_characters(p: Seq<u8>)
    ensures
        paths::final_name(p) is None ==> paths::final_name_text(p).len() == 0,
        paths::final_name(p) matches Some(name) ==> {
            &&& valid_utf8(name) ==> encode_utf8(paths::final_name_text(p)) == name
            &&& !valid_utf8(name) ==> paths::final_name_text(p).len() == 0
        },
{
    match paths::final_name(p) {
        Some(name) => {
            if valid_utf8(name) {
                decode_utf8_encode_utf8(name);
            }
        },
        None => {},
    }
}

/// A tidied path, by how the path ends: the root and a lone `.` stay, a trailing separator and a
/// trailing `.` go, and any other last component keeps the path as it is.
pub proof fn law_tidied_goes_by_the_end(p: Seq<u8>, prefix: Seq<u8>, name: Seq<u8>)
    requires
        prefix.len() == 0 || prefix[prefix.len() - 1] == 47,
        name.len() > 0,
        !name.contains(47u8),
        name != seq![46u8],
    ensures
        paths::tidied(seq![]) == Seq::<u8>::empty(),
        paths::tidied(seq![47u8]) == seq![47u8],
        paths::tidied(seq![46u8]) == seq![46u8],
        p.len() > 0 ==> paths::tidied(p + seq![47u8]) == paths::tidied(p),
        prefix.len() > 0 ==> paths::tidied(prefix + seq![46u8]) == paths::tidied(prefix),
        paths::tidied(prefix + name) == prefix + name,
{
    let slashed = p + seq![47u8];
    assert(slashed.last() == 47u8);
    assert(slashed.skip(slashed.len() as int).len() == 0);
    assert(slashed.drop_last() =~= p);

    let dotted = prefix + seq![46u8];
    paths::lemma_name_starts_behind_prefix(prefix, seq![46u8]);
    assert(dotted.skip(prefix.len() as int) =~= seq![46u8]);
    assert(dotted.take(prefix.len() as int) =~= prefix);

    paths::lemma_name_starts_behind_prefix(prefix, name);
    assert((prefix + name).skip(prefix.len() as int) =~= name);
    assert(name.contains(name[0]));
    if prefix.len() + name.len() == 1 {
        assert(name =~= seq![name[0]]);
    }
}

/// The parent of a path, by how the path ends: the root and the empty path have none, that of a
/// lone `.` is the empty path, a trailing separator or `.` changes nothing, and any other last
/// component, `..` too, is taken off.
pub proof fn law_parent_goes_by_the_end(p: Seq<u8>, prefix: Seq<u8>, name: Seq<u8>)
    requires
        prefix.len() == 0 || prefix[prefix.len() - 1] == 47,
        name.len() > 0,
        !name.contains(47u8),
        name != seq![46u8],
    ensures
        paths::parent_of(seq![]) is None,
        paths::parent_of(seq![47u8]) is None,
        paths::parent_of(seq![46u8]) == Some(Seq::<u8>::empty()),
        paths::parent_of(p + seq![47u8]) == paths::parent_of(p),
        prefix.len() > 0 ==> paths::parent_of(prefix + seq![46u8]) == paths::parent_of(prefix),
        paths::parent_of(prefix + name) == Some(paths::tidied(prefix)),
{
    law_tidied_goes_by_the_end(p, prefix, name);
    if p.len() == 0 {
        assert(p =~= seq![]);
        assert(p + seq![47u8] =~= seq![47u8]);
    }
    let q = prefix + name;
    paths::lemma_name_starts_behind_prefix(prefix, name);
    assert(q.take(prefix.len() as int) =~= prefix);
    assert(name.contains(name[0]));
    assert(q[prefix.len() as int] == name[0]);
    if q.len() == 1 {
        assert(q =~= name);
        assert(name =~= seq![name[0]]);
    }
    assert(seq![46u8][0] != 47u8);
}

} // verus!
