//! Unix paths, kept as the bytes the kernel sees.

use vstd::prelude::*;
use vstd::slice::*;
use vstd::string::*;
use vstd::utf8::*;

verus! {

/// The separator between two components of a path.
pub const SLASH: u8 = 47;

/// The byte of a single dot.
pub const DOT: u8 = 46;

/// What every path below the directory `d` starts with.
pub open spec fn dir_prefix(d: Seq<u8>) -> Seq<u8> {
    if d.len() == 0 || d.last() == SLASH {
        d
    } else {
        d.push(SLASH)
    }
}

/// `name` taken relative to the directory `d`; an absolute `name` stands for itself.
pub open spec fn joined(d: Seq<u8>, name: Seq<u8>) -> Seq<u8> {
    if name.len() > 0 && name[0] == SLASH {
        name
    } else {
        dir_prefix(d) + name
    }
}

/// `p` names something strictly below the directory `d`.
pub open spec fn under(d: Seq<u8>, p: Seq<u8>) -> bool {
    dir_prefix(d).len() < p.len() && dir_prefix(d) == p.take(dir_prefix(d).len() as int)
}

/// One component as a directory listing gives it: no separator, neither `.` nor `..`.
pub open spec fn plain_name(name: Seq<u8>) -> bool {
    &&& name.len() > 0
    &&& !name.contains(SLASH)
    &&& name != seq![DOT]
    &&& name != seq![DOT, DOT]
}

/// `p` is `root` itself, or is reached from it by listed names alone.
pub open spec fn inside(root: Seq<u8>, p: Seq<u8>) -> bool
    decreases p.len(),
{
    p == root || exists|d: Seq<u8>, name: Seq<u8>|
        plain_name(name) && p == #[trigger] joined(d, name) && d.len() < p.len() && inside(root, d)
}

/// What follows the last separator starts at this index.
pub open spec fn last_component_start(p: Seq<u8>) -> nat
    decreases p.len(),
{
    if p.len() == 0 {
        0
    } else if p.last() == SLASH {
        p.len()
    } else {
        last_component_start(p.drop_last())
    }
}

/// The final component of `p`, trailing separators and `.` components aside; none when
/// `p` ends in `..` or names no component.
pub open spec fn final_name(p: Seq<u8>) -> Option<Seq<u8>>
    decreases p.len(),
{
    let start = last_component_start(p) as int;
    let name = p.skip(start);
    proof {
        lemma_last_component_start(p);
    }
    if p.len() == 0 {
        None
    } else if name.len() == 0 {
        final_name(p.drop_last())
    } else if name == seq![DOT] {
        final_name(p.take(start))
    } else if name == seq![DOT, DOT] {
        None
    } else {
        Some(name)
    }
}

/// The length of the root `/`, or of the `.`, that `p` starts with; zero if it starts with
/// neither.
pub open spec fn lead(p: Seq<u8>) -> nat {
    if p.len() > 0 && (p[0] == SLASH || (p[0] == DOT && (p.len() == 1 || p[1] == SLASH))) {
        1
    } else {
        0
    }
}

/// `p` without trailing separators and `.` components, but with the root, or the `.`, that it
/// starts with.
pub open spec fn tidied(p: Seq<u8>) -> Seq<u8>
    decreases p.len(),
{
    let start = last_component_start(p) as int;
    let name = p.skip(start);
    proof {
        lemma_last_component_start(p);
    }
    if p.len() <= lead(p) {
        p
    } else if name.len() == 0 {
        tidied(p.drop_last())
    } else if name == seq![DOT] {
        tidied(p.take(start))
    } else {
        p
    }
}

/// `p` without its final component, `..` being one; none when `p` names the root or nothing.
pub open spec fn parent_of(p: Seq<u8>) -> Option<Seq<u8>> {
    let t = tidied(p);
    if t.len() == 0 || t == seq![SLASH] {
        None
    } else if t == seq![DOT] {
        Some(seq![])
    } else {
        Some(tidied(t.take(last_component_start(t) as int)))
    }
}

/// What follows the last separator starts within the path.
pub proof fn lemma_last_component_start(p: Seq<u8>)
    ensures
        last_component_start(p) <= p.len(),
    decreases p.len(),
{
    if p.len() > 0 && p.last() != SLASH {
        lemma_last_component_start(p.drop_last());
    }
}

pub(crate) proof fn lemma_name_starts_behind_prefix(prefix: Seq<u8>, name: Seq<u8>)
    requires
        prefix.len() == 0 || prefix.last() == SLASH,
        !name.contains(SLASH),
    ensures
        last_component_start(prefix + name) == prefix.len(),
    decreases name.len(),
{
    let p = prefix + name;
    if name.len() == 0 {
        assert(p =~= prefix);
    } else {
        assert(p.last() == name[name.len() - 1]);
        assert(name.contains(name[name.len() - 1]));
        assert(p.drop_last() =~= prefix + name.drop_last());
        assert forall|i: int| 0 <= i < name.drop_last().len() implies name.drop_last()[i]
            != SLASH by {
            assert(name.contains(name[i]));
        }
        lemma_name_starts_behind_prefix(prefix, name.drop_last());
    }
}

pub(crate) proof fn lemma_word_is_plain(word: Seq<char>)
    requires
        word.len() > 0,
        forall|i: int| 0 <= i < word.len() ==> '0' <= #[trigger] word[i] <= 'z',
    ensures
        plain_name(encode_utf8(word)),
{
    let bytes = encode_utf8(word);
    is_ascii_chars_encode_utf8(word);
    assert forall|i: int| 0 <= i < bytes.len() implies bytes[i] != SLASH && bytes[i] != DOT by {
        assert('0' <= word[i] <= 'z');
    }
}

/// A listed name joined to any directory is the final component of the result.
pub proof fn law_final_name_of_join(d: Seq<u8>, name: Seq<u8>)
    requires
        plain_name(name),
    ensures
        final_name(joined(d, name)) == Some(name),
{
    assert(name.contains(name[0]));
    lemma_name_starts_behind_prefix(dir_prefix(d), name);
    assert(joined(d, name).skip(dir_prefix(d).len() as int) =~= name);
}

/// The directory that holds a listed name is the one that the name was listed in.
pub proof fn law_parent_of_join(d: Seq<u8>, name: Seq<u8>)
    requires
        plain_name(name),
    ensures
        parent_of(joined(d, name)) == Some(tidied(d)),
{
    let p = joined(d, name);
    let prefix = dir_prefix(d);
    assert(name.contains(name[0]));
    lemma_name_starts_behind_prefix(prefix, name);
    assert(p.skip(prefix.len() as int) =~= name);
    assert(p.take(prefix.len() as int) =~= prefix);
    assert(p.len() > lead(p)) by {
        if p.len() == 1 {
            assert(p =~= name);
            assert(name =~= seq![name[0]]);
        }
    }
    if d.len() > 0 && d.last() != SLASH {
        assert(prefix.skip(prefix.len() as int).len() == 0);
        assert(prefix.drop_last() =~= d);
    }
}

/// A listed name joined to a directory lies below that directory.
pub proof fn law_join_is_under(d: Seq<u8>, name: Seq<u8>)
    requires
        plain_name(name),
    ensures
        under(d, joined(d, name)),
{
    assert(name.contains(name[0]));
    assert(joined(d, name).take(dir_prefix(d).len() as int) =~= dir_prefix(d));
}

/// What lies below a directory lies below everything that the directory lies below.
pub proof fn law_under_is_transitive(a: Seq<u8>, b: Seq<u8>, c: Seq<u8>)
    requires
        under(a, b),
        under(b, c),
    ensures
        under(a, c),
{
    let n = dir_prefix(a).len() as int;
    assert forall|i: int| 0 <= i < n implies dir_prefix(a)[i] == c[i] by {
        assert(dir_prefix(a)[i] == b.take(n)[i]);
        assert(dir_prefix(b)[i] == b[i]);
        assert(dir_prefix(b)[i] == c.take(dir_prefix(b).len() as int)[i]);
    }
    assert(dir_prefix(a) =~= c.take(n));
}

/// Nothing listed in a directory lies below another thing listed in it.
pub proof fn law_siblings_are_apart(d: Seq<u8>, a: Seq<u8>, b: Seq<u8>)
    requires
        plain_name(a),
        plain_name(b),
    ensures
        !under(joined(d, a), joined(d, b)),
{
    assert(a.contains(a[0]));
    assert(b.contains(b[0]));
    assert(a.contains(a.last()));
    let pa = joined(d, a);
    let pb = joined(d, b);
    if under(pa, pb) {
        let k = pa.len() as int;
        assert(dir_prefix(pa)[k] == SLASH);
        assert(pb.take(k + 1)[k] == pb[k]);
        assert(b.contains(b[k - dir_prefix(d).len()]));
    }
}

/// Two names listed in a directory have nothing in common: what is inside the one is not
/// inside the other.
pub proof fn law_siblings_share_nothing(d: Seq<u8>, a: Seq<u8>, b: Seq<u8>, x: Seq<u8>)
    requires
        plain_name(a),
        plain_name(b),
        a != b,
        inside(joined(d, a), x),
    ensures
        !inside(joined(d, b), x),
{
    assert(a.contains(a[0]));
    assert(b.contains(b[0]));
    let pa = joined(d, a);
    let pb = joined(d, b);
    let n = dir_prefix(d).len() as int;
    law_inside_is_root_or_under(pa, x);
    if inside(pb, x) {
        law_inside_is_root_or_under(pb, x);
        law_siblings_are_apart(d, a, b);
        law_siblings_are_apart(d, b, a);
        assert(pa.skip(n) =~= a);
        assert(pb.skip(n) =~= b);
        if under(pa, x) && under(pb, x) {
            assert(a.contains(a.last()));
            assert(b.contains(b.last()));
            assert(dir_prefix(pa) == pa.push(SLASH));
            assert(dir_prefix(pb) == pb.push(SLASH));
            assert forall|i: int| 0 <= i <= pa.len() implies pa.push(SLASH)[i] == x[i] by {
                assert(x.take(pa.len() as int + 1)[i] == x[i]);
            }
            assert forall|i: int| 0 <= i <= pb.len() implies pb.push(SLASH)[i] == x[i] by {
                assert(x.take(pb.len() as int + 1)[i] == x[i]);
            }
            assert(x[pa.len() as int] == SLASH && x[pb.len() as int] == SLASH) by {
                assert(pa.push(SLASH)[pa.len() as int] == SLASH);
                assert(pb.push(SLASH)[pb.len() as int] == SLASH);
            }
            if a.len() < b.len() {
                assert(pb.push(SLASH)[pa.len() as int] == b[a.len() as int]);
                assert(b.contains(b[a.len() as int]));
            } else if b.len() < a.len() {
                assert(pa.push(SLASH)[pb.len() as int] == a[b.len() as int]);
                assert(a.contains(a[b.len() as int]));
            } else {
                assert forall|i: int| 0 <= i < a.len() implies a[i] == b[i] by {
                    assert(pa.push(SLASH)[n + i] == a[i]);
                    assert(pb.push(SLASH)[n + i] == b[i]);
                }
                assert(a =~= b);
            }
        }
    }
}

/// A directory does not lie below anything listed in it.
pub proof fn law_parent_is_not_under_child(d: Seq<u8>, name: Seq<u8>)
    requires
        plain_name(name),
    ensures
        !under(joined(d, name), d),
{
    assert(name.contains(name[0]));
}

/// What is reached from `root` by listed names is `root` itself or lies below it.
pub proof fn law_inside_is_root_or_under(root: Seq<u8>, p: Seq<u8>)
    requires
        inside(root, p),
    ensures
        p == root || under(root, p),
    decreases p.len(),
{
    if p != root {
        let (d, name) = choose|d: Seq<u8>, name: Seq<u8>|
            plain_name(name) && p == #[trigger] joined(d, name) && d.len() < p.len() && inside(
                root,
                d,
            );
        law_inside_is_root_or_under(root, d);
        law_join_is_under(d, name);
        if d != root {
            law_under_is_transitive(root, d, p);
        }
    }
}

/// A listed name joined to a path inside `root` is inside `root`.
pub proof fn law_inside_is_closed(root: Seq<u8>, d: Seq<u8>, name: Seq<u8>)
    requires
        inside(root, d),
        plain_name(name),
    ensures
        inside(root, joined(d, name)),
{
    assert(name.contains(name[0]));
    assert(d.len() < joined(d, name).len());
}

/// What lies below `l` and is listed in `d` shows that `d` is `l` or lies below it.
pub proof fn law_listed_below(l: Seq<u8>, d: Seq<u8>, name: Seq<u8>)
    requires
        plain_name(name),
        l.len() > 0,
        l.last() != SLASH,
        under(l, joined(d, name)),
    ensures
        dir_prefix(l) == dir_prefix(d) || under(l, dir_prefix(d)),
{
    assert(name.contains(name[0]));
    let m = dir_prefix(l).len() as int;
    let n = dir_prefix(d).len() as int;
    let p = joined(d, name);
    assert forall|i: int| 0 <= i < m implies dir_prefix(l)[i] == p[i] by {
        assert(p.take(m)[i] == p[i]);
    }
    if m > n {
        assert(p[m - 1] == SLASH);
        assert(name.contains(name[m - 1 - n]));
    }
    assert(dir_prefix(l) =~= dir_prefix(d).take(m));
    if m == n {
        assert(dir_prefix(l) =~= dir_prefix(d));
    }
}

/// A path reached from `root` by at least one listed name ends in that name.
pub proof fn law_inside_ends_in_a_name(root: Seq<u8>, p: Seq<u8>)
    requires
        inside(root, p),
        p != root,
    ensures
        p.len() > 0,
        p.last() != SLASH,
{
    let (d, name) = choose|d: Seq<u8>, name: Seq<u8>|
        plain_name(name) && p == #[trigger] joined(d, name) && d.len() < p.len() && inside(root, d);
    assert(name.contains(name[0]));
    assert(name.contains(name[name.len() - 1]));
    assert(p.last() == name[name.len() - 1]);
}

/// Where what is listed in `d`, inside `root`, lies below `link`, a path below `root`, there
/// `d` is `link` or lies below it.
pub proof fn law_below_a_listed_directory(root: Seq<u8>, link: Seq<u8>, d: Seq<u8>, name: Seq<u8>)
    requires
        under(root, link),
        link.last() != SLASH,
        inside(root, d),
        plain_name(name),
        under(link, joined(d, name)),
    ensures
        d == link || under(link, d),
{
    law_listed_below(link, d, name);
    let m = dir_prefix(link).len() as int;
    if d == root {
        assert(dir_prefix(root).len() < link.len());
    } else {
        law_inside_ends_in_a_name(root, d);
        assert(dir_prefix(d) == d.push(SLASH));
        assert(dir_prefix(link) == link.push(SLASH));
        if dir_prefix(link) == dir_prefix(d) {
            assert(link =~= link.push(SLASH).drop_last());
            assert(d =~= d.push(SLASH).drop_last());
        } else {
            assert forall|i: int| 0 <= i < m implies dir_prefix(link)[i] == d[i] by {
                assert(dir_prefix(d).take(m)[i] == dir_prefix(d)[i]);
            }
            if m == d.len() {
                assert(d[m - 1] == SLASH);
            }
            assert(dir_prefix(link) =~= d.take(m));
        }
    }
}

/// `name` taken relative to the directory `d`; an absolute `name` stands for itself.
pub fn join(d: &[u8], name: &[u8]) -> (r: Vec<u8>)
    ensures
        r@ == joined(d@, name@),
{
    let mut r: Vec<u8> = Vec::new();
    if name.len() > 0 && name[0] == SLASH {
        r.extend_from_slice(name);
        assert(r@ =~= name@);
        return r;
    }
    r.extend_from_slice(d);
    assert(r@ =~= d@);
    if d.len() > 0 && d[d.len() - 1] != SLASH {
        r.push(SLASH);
    }
    assert(r@ =~= dir_prefix(d@));
    r.extend_from_slice(name);
    assert(r@ =~= dir_prefix(d@) + name@);
    r
}

/// `name` taken relative to the directory `d`, the name being text.
pub open spec fn joined_text(d: Seq<u8>, name: Seq<char>) -> Seq<u8> {
    joined(d, encode_utf8(name))
}

/// `name` taken relative to the directory `d`, the name being text.
pub fn join_text(d: &[u8], name: &str) -> (r: Vec<u8>)
    ensures
        r@ == joined_text(d@, name@),
{
    join(d, name.as_bytes())
}

/// The final component of `p`.
pub fn file_name(p: &[u8]) -> (r: Option<&[u8]>)
    ensures
        r is Some <==> final_name(p@) is Some,
        r matches Some(name) ==> name@ == final_name(p@)->0,
{
    let mut end: usize = p.len();
    assert(p@.take(end as int) =~= p@);
    while end > 0
        invariant
            end <= p@.len(),
            final_name(p@) == final_name(p@.take(end as int)),
        decreases end,
    {
        let ghost head = p@.take(end as int);
        let start: usize = component_start(p, end);
        let name = slice_subrange(p, start, end);
        assert(name@ =~= head.skip(start as int));
        if start == end {
            assert(head.drop_last() =~= p@.take(end - 1));
            end = end - 1;
        } else if name.len() == 1 && name[0] == DOT {
            assert(name@ =~= seq![DOT]);
            assert(head.take(start as int) =~= p@.take(start as int));
            end = start;
        } else if name.len() == 2 && name[0] == DOT && name[1] == DOT {
            assert(name@ =~= seq![DOT, DOT]);
            return None;
        } else {
            return Some(name);
        }
    }
    None
}

/// How much of the first `end` bytes of `p` is left without trailing separators and `.`
/// components.
fn tidy(p: &[u8], end: usize) -> (r: usize)
    requires
        end <= p@.len(),
    ensures
        r <= end,
        p@.take(r as int) == tidied(p@.take(end as int)),
{
    let mut left: usize = end;
    loop
        invariant
            left <= end <= p@.len(),
            tidied(p@.take(end as int)) == tidied(p@.take(left as int)),
        decreases left,
    {
        let ghost head = p@.take(left as int);
        if left == 0 || (left == 1 && (p[0] == SLASH || p[0] == DOT)) {
            return left;
        }
        let start: usize = component_start(p, left);
        if start == left {
            assert(head.drop_last() =~= p@.take(left - 1));
            left = left - 1;
        } else if start + 1 == left && p[start] == DOT {
            assert(head.skip(start as int) =~= seq![DOT]);
            assert(head.take(start as int) =~= p@.take(start as int));
            left = start;
        } else {
            assert(head.skip(start as int)[0] == p@[start as int]);
            return left;
        }
    }
}

/// Where, in the first `end` bytes of `p`, what follows the last separator starts.
fn component_start(p: &[u8], end: usize) -> (r: usize)
    requires
        end <= p@.len(),
    ensures
        r <= end,
        r == last_component_start(p@.take(end as int)),
{
    let mut start: usize = end;
    while start > 0 && p[start - 1] != SLASH
        invariant
            start <= end <= p@.len(),
            last_component_start(p@.take(end as int)) == last_component_start(
                p@.take(start as int),
            ),
        decreases start,
    {
        assert(p@.take(start as int).drop_last() =~= p@.take(start - 1));
        start = start - 1;
    }
    start
}

/// `p` without its final component.
pub fn parent(p: &[u8]) -> (r: Option<Vec<u8>>)
    ensures
        match r {
            Some(d) => parent_of(p@) == Some(d@),
            None => parent_of(p@) is None,
        },
{
    let end: usize = tidy(p, p.len());
    let ghost t = p@.take(end as int);
    assert(p@.take(p@.len() as int) =~= p@);
    if end == 0 {
        return None;
    }
    if end == 1 && p[0] == SLASH {
        assert(t =~= seq![SLASH]);
        return None;
    }
    if end == 1 && p[0] == DOT {
        assert(t =~= seq![DOT]);
        return Some(Vec::new());
    }
    proof {
        assert(t != seq![SLASH] && t != seq![DOT]) by {
            if end == 1 {
                assert(t[0] == p@[0]);
            }
        }
    }
    let start: usize = component_start(p, end);
    assert(t.take(start as int) =~= p@.take(start as int));
    Some(slice_to_vec(slice_subrange(p, 0, tidy(p, start))))
}

/// `bytes` as text: the standard library's `std::str::from_utf8`. It succeeds exactly on
/// well-formed UTF-8, and gives the characters that the bytes encode.
#[verifier::external_body]
pub(crate) fn utf8_text(bytes: &[u8]) -> (r: Option<String>)
    ensures
        r is Some <==> valid_utf8(bytes@),
        r matches Some(s) ==> s@ == decode_utf8(bytes@),
{
    std::str::from_utf8(bytes).ok().map(|s| s.to_string())
}

/// The final component of `p` as text, or nothing where there is none or it is not UTF-8.
pub open spec fn final_name_text(p: Seq<u8>) -> Seq<char> {
    match final_name(p) {
        Some(name) => if valid_utf8(name) {
            decode_utf8(name)
        } else {
            Seq::empty()
        },
        None => Seq::empty(),
    }
}

/// The final component of `p` as text, or the empty text where there is none or it is not
/// UTF-8.
pub fn file_name_text(p: &[u8]) -> (r: String)
    ensures
        r@ == final_name_text(p@),
{
    match file_name(p) {
        Some(name) => match utf8_text(name) {
            Some(s) => s,
            None => String::new(),
        },
        None => String::new(),
    }
}

} // verus!
