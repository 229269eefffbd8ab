//! Paths as lists of components, and the names they have inside an archive.
//!
//! A path is a list of components, each a run of bytes. Inside an archive a
//! path is one name: its components with a `/` between them. Only plain
//! paths are packed or unpacked: such a path has at least one component, and
//! none of them is empty, `.` or `..`, or holds a `/`, a `\` or a zero byte,
//! so that below any folder it names something inside that folder.

use vstd::prelude::*;

verus! {

/// The byte that separates the components of a name.
pub const SEPARATOR: u8 = 0x2f;

/// The components of a path, as mathematical sequences.
pub open spec fn components(path: Seq<Vec<u8>>) -> Seq<Seq<u8>> {
    Seq::new(path.len(), |i: int| path[i]@)
}

/// Whether `b` may stand in a component: any byte but zero, `/` and `\`.
pub open spec fn plain_byte(b: u8) -> bool {
    b != 0 && b != 0x2f && b != 0x5c
}

/// Whether `c` is a plain component: not empty, not `.`, not `..`, and made
/// of plain bytes.
pub open spec fn valid_component(c: Seq<u8>) -> bool {
    &&& c.len() >= 1
    &&& !(c.len() == 1 && c[0] == 0x2e)
    &&& !(c.len() == 2 && c[0] == 0x2e && c[1] == 0x2e)
    &&& forall|i: int| 0 <= i < c.len() ==> plain_byte(#[trigger] c[i])
}

/// Whether `path` is a plain path: at least one component, all of them plain.
pub open spec fn valid_path(path: Seq<Seq<u8>>) -> bool {
    &&& path.len() >= 1
    &&& forall|i: int| 0 <= i < path.len() ==> valid_component(#[trigger] path[i])
}

/// The name of `path`: its components with a `/` between them.
pub open spec fn joined(path: Seq<Seq<u8>>) -> Seq<u8>
    decreases path.len(),
{
    if path.len() == 0 {
        Seq::empty()
    } else if path.len() == 1 {
        path[0]
    } else {
        joined(path.drop_last()) + seq![SEPARATOR] + path.last()
    }
}

/// The components of `name`: the runs of bytes between its `/`. There is
/// always at least one, and a component is empty where two `/` meet or where
/// the name starts or ends with one.
pub open spec fn split(name: Seq<u8>) -> Seq<Seq<u8>>
    decreases name.len(),
{
    if name.len() == 0 {
        seq![Seq::<u8>::empty()]
    } else {
        let before = split(name.drop_last());
        if name.last() == SEPARATOR {
            before.push(Seq::<u8>::empty())
        } else {
            before.drop_last().push(before.last().push(name.last()))
        }
    }
}

/// The letters `.shadow`, the ending of a container's file name.
pub open spec fn container_suffix() -> Seq<u8> {
    seq![0x2eu8, 0x73u8, 0x68u8, 0x61u8, 0x64u8, 0x6fu8, 0x77u8]
}

/// Whether a file of this name has the extension `shadow`: the name ends
/// with `.shadow` and has something before it.
pub open spec fn is_container_name(name: Seq<u8>) -> bool {
    name.len() > 7 && name.subrange(name.len() - 7, name.len() as int) == container_suffix()
}

/// Whether the entry at `path` is left out of an archive: it is the path to
/// ignore, or it is a file whose name has the extension `shadow`. A
/// directory is never left out for its name.
pub open spec fn excluded(path: Seq<Seq<u8>>, is_directory: bool, ignore: Seq<Seq<u8>>) -> bool {
    path == ignore || (!is_directory && path.len() >= 1 && is_container_name(path.last()))
}

/// A name has at least one component.
pub proof fn lemma_split_len(name: Seq<u8>)
    ensures
        split(name).len() >= 1,
    decreases name.len(),
{
    if name.len() > 0 {
        lemma_split_len(name.drop_last());
    }
}

/// Bytes without a `/` that follow a name lengthen its last component.
pub proof fn lemma_split_append(name: Seq<u8>, tail: Seq<u8>)
    requires
        forall|i: int| 0 <= i < tail.len() ==> tail[i] != SEPARATOR,
    ensures
        split(name).len() >= 1,
        split(name + tail) == split(name).drop_last().push(split(name).last() + tail),
    decreases tail.len(),
{
    lemma_split_len(name);
    let parts = split(name);
    if tail.len() == 0 {
        assert(name + tail =~= name);
        assert(parts.last() + tail =~= parts.last());
        assert(parts.drop_last().push(parts.last()) =~= parts);
    } else {
        let shorter = tail.drop_last();
        lemma_split_append(name, shorter);
        assert((name + tail).drop_last() =~= name + shorter);
        assert((name + tail).last() == tail.last());
        let before = split(name + shorter);
        assert(before.drop_last() =~= parts.drop_last());
        assert((parts.last() + shorter).push(tail.last()) =~= parts.last() + tail);
    }
}

/// Splitting undoes joining: the name of a path whose components hold no
/// `/` has exactly these components.
pub proof fn lemma_split_joined(path: Seq<Seq<u8>>)
    requires
        path.len() >= 1,
        forall|i: int, j: int|
            0 <= i < path.len() && 0 <= j < path[i].len() ==> #[trigger] path[i][j] != SEPARATOR,
    ensures
        split(joined(path)) == path,
    decreases path.len(),
{
    let last = path.last();
    if path.len() == 1 {
        let empty = Seq::<u8>::empty();
        lemma_split_append(empty, last);
        assert(empty + last =~= last);
        assert(split(empty).drop_last().push(split(empty).last() + last) =~= path);
    } else {
        let front = path.drop_last();
        assert forall|i: int, j: int|
            0 <= i < front.len() && 0 <= j < front[i].len() implies #[trigger] front[i][j]
            != SEPARATOR by {
            assert(front[i][j] == path[i][j]);
        }
        lemma_split_joined(front);
        let stem = joined(front) + seq![SEPARATOR];
        assert(stem.drop_last() =~= joined(front));
        assert(split(stem) == front.push(Seq::<u8>::empty()));
        lemma_split_append(stem, last);
        assert(split(stem).drop_last() =~= front);
        assert(Seq::<u8>::empty() + last =~= last);
        assert(front.push(last) =~= path);
    }
}

/// A plain path comes back from its name.
pub proof fn lemma_split_joined_valid(path: Seq<Seq<u8>>)
    requires
        valid_path(path),
    ensures
        split(joined(path)) == path,
{
    assert forall|i: int, j: int|
        0 <= i < path.len() && 0 <= j < path[i].len() implies #[trigger] path[i][j]
        != SEPARATOR by {
        assert(valid_component(path[i]));
        assert(plain_byte(path[i][j]));
    }
    lemma_split_joined(path);
}

/// Whether two runs of bytes are the same.
pub fn same_bytes(a: &[u8], b: &[u8]) -> (r: bool)
    ensures
        r == (a@ == b@),
{
    if a.len() != b.len() {
        return false;
    }
    let mut i: usize = 0;
    while i < a.len()
        invariant
            i <= a.len(),
            a.len() == b.len(),
            forall|j: int| 0 <= j < i ==> a@[j] == b@[j],
        decreases a.len() - i,
    {
        if a[i] != b[i] {
            return false;
        }
        i += 1;
    }
    assert(a@ =~= b@);
    true
}

/// Whether `path` begins with the first `n` components of `other`.
pub fn starts_with(path: &[Vec<u8>], other: &[Vec<u8>], n: usize) -> (r: bool)
    requires
        n <= other@.len(),
    ensures
        r == components(other@).subrange(0, n as int).is_prefix_of(components(path@)),
{
    let ghost prefix = components(other@).subrange(0, n as int);
    if path.len() < n {
        return false;
    }
    let mut i: usize = 0;
    while i < n
        invariant
            i <= n <= other.len(),
            n <= path.len(),
            prefix == components(other@).subrange(0, n as int),
            forall|j: int| 0 <= j < i ==> path@[j]@ == other@[j]@,
        decreases n - i,
    {
        if !same_bytes(path[i].as_slice(), other[i].as_slice()) {
            assert(components(path@).subrange(0, n as int)[i as int] != prefix[i as int]);
            return false;
        }
        i += 1;
    }
    assert(prefix =~= components(path@).subrange(0, n as int));
    true
}

/// Whether two paths are the same.
pub fn same_path(a: &[Vec<u8>], b: &[Vec<u8>]) -> (r: bool)
    ensures
        r == (components(a@) == components(b@)),
{
    if a.len() != b.len() {
        return false;
    }
    let r = starts_with(a, b, b.len());
    proof {
        assert(components(b@).subrange(0, b@.len() as int) =~= components(b@));
        assert(components(a@).subrange(0, a@.len() as int) =~= components(a@));
    }
    r
}

/// Whether `c` is a plain component.
pub fn is_valid_component(c: &[u8]) -> (r: bool)
    ensures
        r == valid_component(c@),
{
    let n = c.len();
    if n == 0 {
        return false;
    }
    if n == 1 && c[0] == 0x2e {
        return false;
    }
    if n == 2 && c[0] == 0x2e && c[1] == 0x2e {
        return false;
    }
    let mut i: usize = 0;
    while i < n
        invariant
            i <= n,
            n == c.len(),
            forall|j: int| 0 <= j < i ==> plain_byte(#[trigger] c@[j]),
        decreases n - i,
    {
        let b = c[i];
        if b == 0 || b == 0x2f || b == 0x5c {
            assert(!plain_byte(c@[i as int]));
            return false;
        }
        i += 1;
    }
    true
}

/// Whether `path` is a plain path.
pub fn is_valid_path(path: &[Vec<u8>]) -> (r: bool)
    ensures
        r == valid_path(components(path@)),
{
    let n = path.len();
    if n == 0 {
        return false;
    }
    let mut i: usize = 0;
    while i < n
        invariant
            i <= n,
            n == path.len(),
            forall|j: int| 0 <= j < i ==> valid_component(#[trigger] components(path@)[j]),
        decreases n - i,
    {
        if !is_valid_component(path[i].as_slice()) {
            assert(!valid_component(components(path@)[i as int]));
            return false;
        }
        i += 1;
    }
    true
}

/// Whether a file of this name has the extension `shadow`.
pub fn has_container_name(name: &[u8]) -> (r: bool)
    ensures
        r == is_container_name(name@),
{
    let n = name.len();
    if n <= 7 {
        return false;
    }
    let at = n - 7;
    let r = name[at] == 0x2e && name[at + 1] == 0x73 && name[at + 2] == 0x68 && name[at + 3]
        == 0x61 && name[at + 4] == 0x64 && name[at + 5] == 0x6f && name[at + 6] == 0x77;
    proof {
        let tail = name@.subrange(n - 7, n as int);
        if r {
            assert(tail =~= container_suffix());
        } else {
            assert(tail[0] == name@[at + 0] && tail[1] == name@[at + 1] && tail[2] == name@[at
                + 2] && tail[3] == name@[at + 3] && tail[4] == name@[at + 4] && tail[5]
                == name@[at + 5] && tail[6] == name@[at + 6]);
        }
    }
    r
}

/// Whether the entry at `path`, a directory or a file, is left out of an
/// archive that is being written to `ignore`.
pub fn is_excluded(path: &[Vec<u8>], is_directory: bool, ignore: &[Vec<u8>]) -> (r: bool)
    ensures
        r == excluded(components(path@), is_directory, components(ignore@)),
{
    if same_path(path, ignore) {
        return true;
    }
    let n = path.len();
    if is_directory || n == 0 {
        return false;
    }
    has_container_name(path[n - 1].as_slice())
}

/// The name of a path inside an archive.
pub fn join_path(path: &[Vec<u8>]) -> (name: Vec<u8>)
    ensures
        name@ == joined(components(path@)),
{
    let mut name: Vec<u8> = Vec::new();
    let mut i: usize = 0;
    while i < path.len()
        invariant
            i <= path.len(),
            name@ == joined(components(path@).subrange(0, i as int)),
        decreases path.len() - i,
    {
        let ghost done = components(path@).subrange(0, i as int);
        let ghost next = components(path@).subrange(0, i + 1);
        if i > 0 {
            name.push(SEPARATOR);
        }
        let part = &path[i];
        let mut j: usize = 0;
        while j < part.len()
            invariant
                j <= part.len(),
                name@ == joined(done) + (if i > 0 {
                    seq![SEPARATOR]
                } else {
                    Seq::<u8>::empty()
                }) + part@.subrange(0, j as int),
            decreases part.len() - j,
        {
            name.push(part[j]);
            j += 1;
            assert(part@.subrange(0, j as int) =~= part@.subrange(0, j - 1).push(part@[j - 1]));
        }
        proof {
            assert(part@.subrange(0, j as int) =~= part@);
            assert(next.drop_last() =~= done);
            assert(next.last() == part@);
            if i == 0 {
                assert(name@ =~= part@);
            }
        }
        i += 1;
    }
    assert(components(path@).subrange(0, i as int) =~= components(path@));
    name
}

/// The components of a name.
pub fn split_name(name: &[u8]) -> (path: Vec<Vec<u8>>)
    ensures
        components(path@) == split(name@),
{
    let mut done: Vec<Vec<u8>> = Vec::new();
    let mut current: Vec<u8> = Vec::new();
    let mut i: usize = 0;
    assert(name@.subrange(0, 0) =~= Seq::<u8>::empty());
    assert(components(done@).push(current@) =~= seq![Seq::<u8>::empty()]);
    while i < name.len()
        invariant
            i <= name.len(),
            components(done@).push(current@) == split(name@.subrange(0, i as int)),
        decreases name.len() - i,
    {
        let ghost before = split(name@.subrange(0, i as int));
        let ghost upto = name@.subrange(0, i + 1);
        let ghost old_done = components(done@);
        let ghost old_current = current@;
        assert(upto.drop_last() =~= name@.subrange(0, i as int));
        assert(upto.last() == name@[i as int]);
        assert(before.drop_last() =~= old_done);
        assert(before.last() == old_current);
        let b = name[i];
        if b == SEPARATOR {
            done.push(current);
            current = Vec::new();
            assert(components(done@) =~= old_done.push(old_current));
            assert(components(done@).push(current@) =~= before.push(Seq::<u8>::empty()));
        } else {
            current.push(b);
            assert(components(done@).push(current@) =~= before.drop_last().push(
                before.last().push(b),
            ));
        }
        i += 1;
    }
    assert(name@.subrange(0, i as int) =~= name@);
    let ghost old_done = components(done@);
    let ghost last = current@;
    done.push(current);
    assert(components(done@) =~= old_done.push(last));
    done
}

/// The name of the container that is written inside the folder `folder`
/// when no other place is given: the folder's name with `.shadow` after it.
pub fn default_container_name(folder: &[u8]) -> (name: Vec<u8>)
    ensures
        name@ == folder@ + container_suffix(),
        folder@.len() >= 1 ==> is_container_name(name@),
{
    let mut name: Vec<u8> = Vec::new();
    let mut i: usize = 0;
    while i < folder.len()
        invariant
            i <= folder.len(),
            name@ == folder@.subrange(0, i as int),
        decreases folder.len() - i,
    {
        name.push(folder[i]);
        i += 1;
        assert(name@ =~= folder@.subrange(0, i as int));
    }
    assert(folder@.subrange(0, i as int) =~= folder@);
    name.push(0x2e);
    name.push(0x73);
    name.push(0x68);
    name.push(0x61);
    name.push(0x64);
    name.push(0x6f);
    name.push(0x77);
    assert(name@ =~= folder@ + container_suffix());
    assert(name@.subrange(name@.len() - 7, name@.len() as int) =~= container_suffix());
    name
}

} // verus!
