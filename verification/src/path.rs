//! Paths as byte strings.
//!
//! A path is the sequence of its bytes, taken as written: components are
//! separated by single `/` bytes, and neither `.` nor a trailing separator
//! is given any meaning; a last component `..` names no entry. Canonical
//! paths have this form, and on them the operations below agree with the
//! component-wise operations of the standard library.

use vstd::prelude::*;

verus! {

/// The byte that separates the components of a path.
pub const SEPARATOR: u8 = 47u8;

/// The paths of a list, as byte strings.
pub open spec fn path_list(paths: Seq<Vec<u8>>) -> Seq<Seq<u8>> {
    paths.map_values(|path: Vec<u8>| path@)
}

/// Whether `base` is a prefix of `full`, byte for byte.
pub open spec fn is_byte_prefix(base: Seq<u8>, full: Seq<u8>) -> bool {
    base.len() <= full.len() && full.subrange(0, base.len() as int) == base
}

/// Whether `needle` stands in `haystack` at offset `at`.
pub open spec fn occurs_at(haystack: Seq<u8>, needle: Seq<u8>, at: int) -> bool {
    0 <= at && at + needle.len() <= haystack.len() && haystack.subrange(
        at,
        at + needle.len(),
    ) == needle
}

/// Whether `needle` occurs in `haystack` at some offset below `bound`.
pub open spec fn occurs_before(haystack: Seq<u8>, needle: Seq<u8>, bound: int) -> bool {
    exists|k: int| 0 <= k < bound && occurs_at(haystack, needle, k)
}

/// The offset of the first occurrence of `needle` in `haystack`.
#[verifier::opaque]
pub open spec fn first_occurrence(haystack: Seq<u8>, needle: Seq<u8>) -> Option<int> {
    if occurs_before(haystack, needle, haystack.len() + 1 as int) {
        Some(
            choose|k: int|
                occurs_at(haystack, needle, k) && !occurs_before(haystack, needle, k),
        )
    } else {
        None
    }
}

/// The parts of `haystack` before and after the first occurrence of `needle`.
pub open spec fn split_once(haystack: Seq<u8>, needle: Seq<u8>) -> Option<(Seq<u8>, Seq<u8>)> {
    match first_occurrence(haystack, needle) {
        Some(k) => Some(
            (haystack.subrange(0, k), haystack.subrange(k + needle.len(), haystack.len() as int)),
        ),
        None => None,
    }
}

/// The offset of the last separator of `p`, or -1 where it has none.
pub open spec fn last_separator(p: Seq<u8>) -> int
    decreases p.len(),
{
    if p.len() == 0 {
        -1
    } else if p.last() == SEPARATOR {
        p.len() - 1
    } else {
        last_separator(p.drop_last())
    }
}

/// Whether `p` starts at the root.
pub open spec fn is_absolute(p: Seq<u8>) -> bool {
    p.len() > 0 && p[0] == SEPARATOR
}

/// The path one component above `p`; the root and the empty path have none.
pub open spec fn parent(p: Seq<u8>) -> Option<Seq<u8>> {
    let cut = last_separator(p);
    if p.len() == 0 {
        None
    } else if cut < 0 {
        Some(Seq::empty())
    } else if cut == 0 {
        if p.len() == 1 {
            None
        } else {
            Some(p.subrange(0, 1))
        }
    } else {
        Some(p.subrange(0, cut))
    }
}

/// `p` and the paths above it, longest first.
pub open spec fn ancestors(p: Seq<u8>) -> Seq<Seq<u8>>
    decreases p.len(),
    via ancestors_decreases
{
    match parent(p) {
        Some(up) => seq![p] + ancestors(up),
        None => seq![p],
    }
}

#[via_fn]
proof fn ancestors_decreases(p: Seq<u8>) {
    lemma_last_separator(p);
}

/// Whether `a` is `p` or one of the paths above it.
pub open spec fn is_ancestor(a: Seq<u8>, p: Seq<u8>) -> bool {
    ancestors(p).contains(a)
}

/// The number of components of `p`, the root counting as one.
pub open spec fn component_count(p: Seq<u8>) -> nat
    decreases p.len(),
    via component_count_decreases
{
    match parent(p) {
        Some(up) => 1 + component_count(up),
        None => if p.len() == 0 {
            0
        } else {
            1
        },
    }
}

#[via_fn]
proof fn component_count_decreases(p: Seq<u8>) {
    lemma_last_separator(p);
}

/// The last component of `p`, where it names an entry.
pub open spec fn file_name(p: Seq<u8>) -> Option<Seq<u8>> {
    let name = p.subrange(last_separator(p) + 1, p.len() as int);
    if name.len() == 0 || name == seq![46u8, 46u8] {
        None
    } else {
        Some(name)
    }
}

/// `name` put below `dir`; an absolute `name` stands for itself, and an
/// empty `name` for `dir`.
pub open spec fn join(dir: Seq<u8>, name: Seq<u8>) -> Seq<u8> {
    if is_absolute(name) {
        name
    } else if name.len() == 0 {
        dir
    } else if dir.len() == 0 || dir.last() == SEPARATOR {
        dir + name
    } else {
        dir + seq![SEPARATOR] + name
    }
}

/// What is left of `p` below `base`, where `base` is `p` or above it.
pub open spec fn strip_prefix(p: Seq<u8>, base: Seq<u8>) -> Option<Seq<u8>> {
    if base.len() == 0 {
        Some(p)
    } else if !is_byte_prefix(base, p) {
        None
    } else if p.len() == base.len() {
        Some(Seq::empty())
    } else if base.last() == SEPARATOR {
        Some(p.subrange(base.len() as int, p.len() as int))
    } else if p[base.len() as int] == SEPARATOR {
        Some(p.subrange(base.len() + 1 as int, p.len() as int))
    } else {
        None
    }
}

/// Whether the last components of `p` are those of the relative path `tail`.
pub open spec fn ends_with(p: Seq<u8>, tail: Seq<u8>) -> bool {
    tail.len() == 0 || p == tail || (!is_absolute(tail) && tail.len() < p.len() && p.subrange(
        p.len() - tail.len(),
        p.len() as int,
    ) == tail && p[p.len() - tail.len() - 1] == SEPARATOR)
}

/// The rank of a byte in the order of paths: the separator sorts first.
pub open spec fn byte_rank(b: u8) -> int {
    if b == SEPARATOR {
        -1
    } else {
        b as int
    }
}

/// The order of paths: component by component, each component byte by byte.
pub open spec fn path_lt(a: Seq<u8>, b: Seq<u8>) -> bool
    decreases a.len(),
{
    if b.len() == 0 {
        false
    } else if a.len() == 0 {
        true
    } else if a[0] != b[0] {
        byte_rank(a[0]) < byte_rank(b[0])
    } else {
        path_lt(a.drop_first(), b.drop_first())
    }
}

/// What `last_separator` names is a separator, and none follows it.
pub proof fn lemma_last_separator(p: Seq<u8>)
    ensures
        -1 <= last_separator(p) < p.len(),
        last_separator(p) >= 0 ==> p[last_separator(p)] == SEPARATOR,
        forall|k: int| last_separator(p) < k < p.len() ==> p[k] != SEPARATOR,
    decreases p.len(),
{
    if p.len() > 0 && p.last() != SEPARATOR {
        let front = p.drop_last();
        lemma_last_separator(front);
        assert forall|k: int| last_separator(p) < k < p.len() implies p[k] != SEPARATOR by {
            if k < front.len() {
                assert(front[k] == p[k]);
            }
        }
        if last_separator(p) >= 0 {
            assert(front[last_separator(p)] == p[last_separator(p)]);
        }
    }
}

/// A separator that none follows is the last one.
pub proof fn lemma_last_separator_unique(p: Seq<u8>, cut: int)
    requires
        -1 <= cut < p.len(),
        cut >= 0 ==> p[cut] == SEPARATOR,
        forall|k: int| cut < k < p.len() ==> p[k] != SEPARATOR,
    ensures
        last_separator(p) == cut,
{
    lemma_last_separator(p);
}

/// A parent is a proper prefix of its child.
pub proof fn lemma_parent_shorter(p: Seq<u8>)
    ensures
        parent(p) matches Some(up) ==> up.len() < p.len() && is_byte_prefix(up, p),
{
    lemma_last_separator(p);
    if let Some(up) = parent(p) {
        assert(p.subrange(0, up.len() as int) =~= up);
    }
}

/// Ancestors start with the path itself, get strictly shorter, and each is a
/// prefix of the path.
pub proof fn lemma_ancestors(p: Seq<u8>)
    ensures
        ancestors(p).len() >= 1,
        ancestors(p)[0] == p,
        forall|i: int| 0 <= i < ancestors(p).len() ==> is_byte_prefix(#[trigger] ancestors(p)[i], p),
        forall|i: int, j: int|
            0 <= i < j < ancestors(p).len() ==> (#[trigger] ancestors(p)[j]).len() < (
            #[trigger] ancestors(p)[i]).len(),
        forall|i: int|
            0 <= i < ancestors(p).len() - 1 ==> parent(#[trigger] ancestors(p)[i]) == Some(
                ancestors(p)[i + 1],
            ),
        parent(ancestors(p).last()) is None,
    decreases p.len(),
{
    lemma_parent_shorter(p);
    match parent(p) {
        Some(up) => {
            lemma_ancestors(up);
            let rest = ancestors(up);
            let all = ancestors(p);
            assert(all == seq![p] + rest);
            assert forall|i: int| 0 <= i < all.len() implies is_byte_prefix(#[trigger] all[i], p) by {
                if i > 0 {
                    assert(all[i] == rest[i - 1]);
                    assert(is_byte_prefix(rest[i - 1], up));
                    assert(all[i] =~= p.subrange(0, all[i].len() as int));
                } else {
                    assert(p.subrange(0, p.len() as int) =~= p);
                }
            }
            assert forall|i: int, j: int| 0 <= i < j < all.len() implies (#[trigger] all[j]).len() < (
            #[trigger] all[i]).len() by {
                assert(all[j] == rest[j - 1]);
                if i > 0 {
                    assert(all[i] == rest[i - 1]);
                } else {
                    if j - 1 > 0 {
                        assert(rest[j - 1].len() < rest[0].len());
                    }
                }
            }
            assert forall|i: int| 0 <= i < all.len() - 1 implies parent(#[trigger] all[i]) == Some(
                all[i + 1],
            ) by {
                if i > 0 {
                    assert(all[i] == rest[i - 1]);
                    assert(all[i + 1] == rest[i]);
                } else {
                    assert(all[1] == rest[0]);
                }
            }
            assert(all.last() == rest.last());
        },
        None => {
            assert(p.subrange(0, p.len() as int) =~= p);
        },
    }
}

/// The paths at and above `p` are `p` and the paths at and above its parent.
pub proof fn lemma_is_ancestor(a: Seq<u8>, p: Seq<u8>)
    ensures
        is_ancestor(a, p) <==> (a == p || (parent(p) matches Some(up) && is_ancestor(a, up))),
        is_ancestor(a, p) ==> is_byte_prefix(a, p),
{
    lemma_ancestors(p);
    match parent(p) {
        Some(up) => {
            let rest = ancestors(up);
            let all = ancestors(p);
            assert(all == seq![p] + rest);
            if all.contains(a) {
                let i = choose|i: int| 0 <= i < all.len() && all[i] == a;
                if i > 0 {
                    assert(rest[i - 1] == a);
                }
            }
            if rest.contains(a) {
                let i = choose|i: int| 0 <= i < rest.len() && rest[i] == a;
                assert(all[i + 1] == a);
            }
            assert(all[0] == p);
        },
        None => {
            assert(ancestors(p)[0] == p);
        },
    }
    if is_ancestor(a, p) {
        let i = choose|i: int| 0 <= i < ancestors(p).len() && ancestors(p)[i] == a;
        assert(is_byte_prefix(ancestors(p)[i], p));
    }
}

/// Whether `dir` is written as a directory is: without a separator at its
/// end, unless it is the root.
pub open spec fn ends_well(dir: Seq<u8>) -> bool {
    dir.len() == 0 || dir.last() != SEPARATOR || dir == seq![SEPARATOR]
}

/// Whether `name` is written as the name of an entry is: not empty, and
/// without a separator.
pub open spec fn is_entry_name(name: Seq<u8>) -> bool {
    name.len() > 0 && forall|k: int| 0 <= k < name.len() ==> name[k] != SEPARATOR
}

/// The file name of a path is written as the name of an entry is.
pub proof fn lemma_file_name(p: Seq<u8>)
    ensures
        file_name(p) matches Some(name) ==> is_entry_name(name),
{
    lemma_last_separator(p);
}

/// The path that the entries put below `dir` have above them: `dir`, without
/// the separator that it should not end with.
pub open spec fn trimmed(dir: Seq<u8>) -> Seq<u8> {
    if ends_well(dir) {
        dir
    } else {
        dir.drop_last()
    }
}

/// Whether `path` is an entry's name put below `dir`.
pub open spec fn lies_directly_in(dir: Seq<u8>, path: Seq<u8>) -> bool {
    file_name(path) matches Some(name) && path == join(dir, name)
}

/// An entry that is put below a directory has that directory above it,
/// however the directory was written.
pub proof fn lemma_join_lies_below(dir: Seq<u8>, name: Seq<u8>)
    requires
        is_entry_name(name),
    ensures
        parent(join(dir, name)) == Some(trimmed(dir)),
        ends_well(join(dir, name)),
        join(dir, name).len() > dir.len(),
        join(dir, name).last() != SEPARATOR,
        is_byte_prefix(dir, join(dir, name)),
{
    let joined = join(dir, name);
    assert(name[0] != SEPARATOR);
    assert(joined.last() == name[name.len() - 1]);
    if dir.len() == 0 {
        assert(joined =~= name);
        lemma_last_separator_unique(joined, -1);
        assert(dir =~= Seq::<u8>::empty());
    } else if dir.last() == SEPARATOR {
        let cut = dir.len() - 1;
        assert(joined =~= dir + name);
        assert forall|k: int| cut < k < joined.len() implies joined[k] != SEPARATOR by {
            assert(joined[k] == name[k - cut - 1]);
        }
        lemma_last_separator_unique(joined, cut);
        if cut == 0 {
            assert(dir =~= seq![SEPARATOR]);
            assert(joined.subrange(0, 1) =~= dir);
        } else {
            assert(dir != seq![SEPARATOR]);
            assert(joined.subrange(0, cut) =~= dir.drop_last());
        }
    } else {
        assert(joined =~= dir + seq![SEPARATOR] + name);
        let cut = dir.len() as int;
        assert forall|k: int| cut < k < joined.len() implies joined[k] != SEPARATOR by {
            assert(joined[k] == name[k - cut - 1]);
        }
        lemma_last_separator_unique(joined, cut);
        assert(joined.subrange(0, cut) =~= dir);
    }
    assert(joined.subrange(0, dir.len() as int) =~= dir);
}

/// An entry that lies directly in a directory has the directory above it,
/// and a longer path than it.
pub proof fn lemma_lies_directly_in(dir: Seq<u8>, path: Seq<u8>)
    requires
        lies_directly_in(dir, path),
    ensures
        parent(path) == Some(trimmed(dir)),
        ends_well(path),
        path.len() > dir.len(),
{
    lemma_file_name(path);
    lemma_join_lies_below(dir, file_name(path)->Some_0);
}

/// No path comes before itself, and of two paths only one comes before
/// the other.
pub proof fn lemma_path_lt_asymmetric(a: Seq<u8>, b: Seq<u8>)
    ensures
        !path_lt(a, a),
        path_lt(a, b) ==> !path_lt(b, a),
    decreases a.len(),
{
    if a.len() > 0 {
        lemma_path_lt_asymmetric(a.drop_first(), a.drop_first());
        if b.len() > 0 && a[0] == b[0] {
            lemma_path_lt_asymmetric(a.drop_first(), b.drop_first());
        }
    }
}

/// Of two different paths one comes before the other.
pub proof fn lemma_path_lt_total(a: Seq<u8>, b: Seq<u8>)
    ensures
        a == b || path_lt(a, b) || path_lt(b, a),
    decreases a.len(),
{
    if a.len() > 0 && b.len() > 0 {
        if a[0] == b[0] {
            lemma_path_lt_total(a.drop_first(), b.drop_first());
            if a.drop_first() == b.drop_first() {
                assert(a =~= seq![a[0]] + a.drop_first());
                assert(b =~= seq![b[0]] + b.drop_first());
            }
        }
    } else if a.len() == 0 && b.len() == 0 {
        assert(a =~= b);
    }
}

/// What comes before a path comes before all that the path comes before.
pub proof fn lemma_path_lt_transitive(a: Seq<u8>, b: Seq<u8>, c: Seq<u8>)
    requires
        path_lt(a, b),
        path_lt(b, c),
    ensures
        path_lt(a, c),
    decreases a.len(),
{
    if a.len() > 0 && b.len() > 0 && c.len() > 0 {
        if a[0] == b[0] && b[0] == c[0] {
            lemma_path_lt_transitive(a.drop_first(), b.drop_first(), c.drop_first());
        }
    }
}

/// Tests whether the bytes of `base` open `full`.
pub fn starts_with_bytes(full: &Vec<u8>, base: &Vec<u8>) -> (r: bool)
    ensures
        r == is_byte_prefix(base@, full@),
{
    if base.len() > full.len() {
        return false;
    }
    let mut i: usize = 0;
    while i < base.len()
        invariant
            i <= base.len(),
            base.len() <= full.len(),
            forall|k: int| 0 <= k < i ==> full@[k] == base@[k],
        decreases base.len() - i,
    {
        if full[i] != base[i] {
            assert(full@.subrange(0, base.len() as int)[i as int] == full@[i as int]);
            return false;
        }
        i += 1;
    }
    assert(full@.subrange(0, base.len() as int) =~= base@);
    true
}

/// Tests whether two byte strings are the same.
pub fn bytes_eq(a: &Vec<u8>, b: &Vec<u8>) -> (r: bool)
    ensures
        r == (a@ == b@),
{
    if a.len() != b.len() {
        return false;
    }
    let r = starts_with_bytes(a, b);
    assert(a@.subrange(0, a@.len() as int) =~= a@);
    r
}

/// Tests whether `needle` stands in `haystack` at offset `at`.
pub(crate) fn matches_at(haystack: &Vec<u8>, needle: &Vec<u8>, at: usize) -> (r: bool)
    requires
        at + needle.len() <= haystack.len(),
    ensures
        r == occurs_at(haystack@, needle@, at as int),
{
    let mut i: usize = 0;
    while i < needle.len()
        invariant
            i <= needle.len(),
            at + needle.len() <= haystack.len(),
            forall|k: int| 0 <= k < i ==> haystack@[at + k] == needle@[k],
        decreases needle.len() - i,
    {
        if haystack[at + i] != needle[i] {
            assert(haystack@.subrange(at as int, at + needle.len())[i as int] == haystack@[at + i]);
            return false;
        }
        i += 1;
    }
    assert(haystack@.subrange(at as int, at + needle.len()) =~= needle@);
    true
}

/// The first occurrence is an occurrence that none precedes, and there is
/// one exactly where the needle occurs at all.
pub proof fn lemma_first_occurrence(haystack: Seq<u8>, needle: Seq<u8>)
    ensures
        match first_occurrence(haystack, needle) {
            Some(k) => occurs_at(haystack, needle, k) && !occurs_before(haystack, needle, k),
            None => forall|k: int| !occurs_at(haystack, needle, k),
        },
{
    reveal(first_occurrence);
    if occurs_before(haystack, needle, haystack.len() + 1 as int) {
        let w = choose|k: int| 0 <= k < haystack.len() + 1 && occurs_at(haystack, needle, k);
        lemma_least_occurrence(haystack, needle, w);
    } else {
        assert forall|k: int| !occurs_at(haystack, needle, k) by {
            if occurs_at(haystack, needle, k) {
                assert(0 <= k < haystack.len() + 1);
            }
        }
    }
}

proof fn lemma_least_occurrence(haystack: Seq<u8>, needle: Seq<u8>, w: int)
    requires
        occurs_at(haystack, needle, w),
    ensures
        exists|k: int| occurs_at(haystack, needle, k) && !occurs_before(haystack, needle, k),
    decreases w,
{
    if occurs_before(haystack, needle, w) {
        let v = choose|k: int| 0 <= k < w && occurs_at(haystack, needle, k);
        lemma_least_occurrence(haystack, needle, v);
    } else {
        assert(occurs_at(haystack, needle, w) && !occurs_before(haystack, needle, w));
    }
}

/// An occurrence that none precedes is the first.
pub proof fn lemma_first_occurrence_unique(haystack: Seq<u8>, needle: Seq<u8>, at: int)
    requires
        occurs_at(haystack, needle, at),
        !occurs_before(haystack, needle, at),
    ensures
        first_occurrence(haystack, needle) == Some(at),
{
    reveal(first_occurrence);
    lemma_first_occurrence(haystack, needle);
    assert(occurs_before(haystack, needle, haystack.len() + 1 as int));
    let k = first_occurrence(haystack, needle).unwrap();
    if k < at {
        assert(occurs_before(haystack, needle, at));
    }
    if at < k {
        assert(occurs_before(haystack, needle, k));
    }
}

/// Finds the first occurrence of `needle` in `haystack`.
pub fn find_bytes(haystack: &Vec<u8>, needle: &Vec<u8>) -> (r: Option<usize>)
    ensures
        match r {
            Some(k) => first_occurrence(haystack@, needle@) == Some(k as int),
            None => first_occurrence(haystack@, needle@) is None,
        },
{
    if needle.len() > haystack.len() {
        proof {
            lemma_first_occurrence(haystack@, needle@);
        }
        return None;
    }
    let last: usize = haystack.len() - needle.len();
    let mut at: usize = 0;
    loop
        invariant
            at <= last,
            last == haystack.len() - needle.len(),
            needle.len() <= haystack.len(),
            !occurs_before(haystack@, needle@, at as int),
        decreases last - at,
    {
        if matches_at(haystack, needle, at) {
            proof {
                lemma_first_occurrence_unique(haystack@, needle@, at as int);
            }
            return Some(at);
        }
        if at == last {
            proof {
                lemma_first_occurrence(haystack@, needle@);
                if first_occurrence(haystack@, needle@) is Some {
                    let k = first_occurrence(haystack@, needle@).unwrap();
                    assert(k <= last);
                    assert(occurs_before(haystack@, needle@, at as int));
                }
            }
            return None;
        }
        at += 1;
    }
}

/// Copies the bytes of `p` from offset `from` up to offset `to`.
pub(crate) fn slice_bytes(p: &Vec<u8>, from: usize, to: usize) -> (r: Vec<u8>)
    requires
        from <= to <= p.len(),
    ensures
        r@ == p@.subrange(from as int, to as int),
{
    let mut r: Vec<u8> = Vec::new();
    let mut i: usize = from;
    while i < to
        invariant
            from <= i <= to <= p.len(),
            r@ == p@.subrange(from as int, i as int),
        decreases to - i,
    {
        r.push(p[i]);
        assert(r@ =~= p@.subrange(from as int, i + 1));
        i += 1;
    }
    r
}

/// Splits `haystack` at the first occurrence of `needle`, which is dropped.
pub fn split_once_bytes(haystack: &Vec<u8>, needle: &Vec<u8>) -> (r: Option<(Vec<u8>, Vec<u8>)>)
    ensures
        match r {
            Some((before, after)) => split_once(haystack@, needle@) == Some((before@, after@)),
            None => split_once(haystack@, needle@) is None,
        },
{
    match find_bytes(haystack, needle) {
        Some(k) => {
            proof {
                lemma_first_occurrence(haystack@, needle@);
                assert(occurs_at(haystack@, needle@, k as int));
            }
            let end: usize = haystack.len();
            let before = slice_bytes(haystack, 0, k);
            let after = slice_bytes(haystack, k + needle.len(), end);
            Some((before, after))
        },
        None => None,
    }
}

/// Finds the last separator of `p`.
pub fn find_last_separator(p: &Vec<u8>) -> (r: Option<usize>)
    ensures
        match r {
            Some(k) => last_separator(p@) == k && k < p.len(),
            None => last_separator(p@) == -1,
        },
{
    let mut i: usize = p.len();
    while i > 0
        invariant
            i <= p.len(),
            forall|k: int| i <= k < p.len() ==> p@[k] != SEPARATOR,
        decreases i,
    {
        i -= 1;
        if p[i] == SEPARATOR {
            proof {
                lemma_last_separator_unique(p@, i as int);
            }
            return Some(i);
        }
    }
    proof {
        lemma_last_separator_unique(p@, -1);
    }
    None
}

/// The path one component above `p`, where there is one.
pub fn parent_of(p: &Vec<u8>) -> (r: Option<Vec<u8>>)
    ensures
        match r {
            Some(up) => parent(p@) == Some(up@),
            None => parent(p@) is None,
        },
{
    if p.len() == 0 {
        return None;
    }
    match find_last_separator(p) {
        None => Some(Vec::new()),
        Some(cut) => {
            if cut == 0 {
                if p.len() == 1 {
                    None
                } else {
                    Some(slice_bytes(p, 0, 1))
                }
            } else {
                Some(slice_bytes(p, 0, cut))
            }
        },
    }
}

/// Counts the components of `p`.
pub fn count_components(p: &Vec<u8>) -> (r: usize)
    ensures
        r == component_count(p@),
{
    let mut count: usize = 0;
    let mut current: Vec<u8> = slice_bytes(p, 0, p.len());
    assert(current@ =~= p@);
    loop
        invariant
            count + component_count(current@) == component_count(p@),
            count + current.len() <= p.len(),
        decreases current.len(),
    {
        proof {
            lemma_parent_shorter(current@);
        }
        match parent_of(&current) {
            Some(up) => {
                count += 1;
                current = up;
            },
            None => {
                if current.len() == 0 {
                    return count;
                } else {
                    return count + 1;
                }
            },
        }
    }
}

/// The last component of `p`, where it names an entry.
pub fn file_name_of(p: &Vec<u8>) -> (r: Option<Vec<u8>>)
    ensures
        match r {
            Some(name) => file_name(p@) == Some(name@),
            None => file_name(p@) is None,
        },
{
    let start: usize = match find_last_separator(p) {
        Some(cut) => cut + 1,
        None => 0,
    };
    let name = slice_bytes(p, start, p.len());
    if name.len() == 0 {
        return None;
    }
    if name.len() == 2 && name[0] == 46u8 && name[1] == 46u8 {
        assert(name@ =~= seq![46u8, 46u8]);
        return None;
    }
    assert(name@ != seq![46u8, 46u8]) by {
        if name@ == seq![46u8, 46u8] {
            assert(seq![46u8, 46u8].len() == 2);
            assert(seq![46u8, 46u8][0] == 46u8);
            assert(seq![46u8, 46u8][1] == 46u8);
        }
    }
    Some(name)
}

/// Appends the bytes of `tail` to `head`.
pub fn append_bytes(head: &mut Vec<u8>, tail: &Vec<u8>)
    ensures
        final(head)@ == old(head)@ + tail@,
{
    let mut i: usize = 0;
    while i < tail.len()
        invariant
            i <= tail.len(),
            head@ == old(head)@ + tail@.subrange(0, i as int),
        decreases tail.len() - i,
    {
        head.push(tail[i]);
        assert(head@ =~= old(head)@ + tail@.subrange(0, i + 1));
        i += 1;
    }
    assert(tail@.subrange(0, tail.len() as int) =~= tail@);
}

/// Puts `name` below `dir`.
pub fn join_paths(dir: &Vec<u8>, name: &Vec<u8>) -> (r: Vec<u8>)
    ensures
        r@ == join(dir@, name@),
{
    if name.len() > 0 && name[0] == SEPARATOR {
        let r = slice_bytes(name, 0, name.len());
        assert(r@ =~= name@);
        return r;
    }
    let mut r = slice_bytes(dir, 0, dir.len());
    assert(r@ =~= dir@);
    if name.len() == 0 {
        return r;
    }
    if dir.len() > 0 && dir[dir.len() - 1] != SEPARATOR {
        r.push(SEPARATOR);
        assert(r@ =~= dir@ + seq![SEPARATOR]);
    }
    append_bytes(&mut r, name);
    r
}

/// Takes `base` off the front of `p`.
pub fn strip_prefix_of(p: &Vec<u8>, base: &Vec<u8>) -> (r: Option<Vec<u8>>)
    ensures
        match r {
            Some(rest) => strip_prefix(p@, base@) == Some(rest@),
            None => strip_prefix(p@, base@) is None,
        },
{
    if base.len() == 0 {
        let r = slice_bytes(p, 0, p.len());
        assert(r@ =~= p@);
        return Some(r);
    }
    if !starts_with_bytes(p, base) {
        return None;
    }
    if p.len() == base.len() {
        return Some(Vec::new());
    }
    if base[base.len() - 1] == SEPARATOR {
        return Some(slice_bytes(p, base.len(), p.len()));
    }
    if p[base.len()] == SEPARATOR {
        return Some(slice_bytes(p, base.len() + 1, p.len()));
    }
    None
}

/// Tests whether `p` ends with the components of `tail`.
pub fn ends_with_path(p: &Vec<u8>, tail: &Vec<u8>) -> (r: bool)
    ensures
        r == ends_with(p@, tail@),
{
    if tail.len() == 0 {
        return true;
    }
    if bytes_eq(p, tail) {
        return true;
    }
    if tail[0] == SEPARATOR || tail.len() >= p.len() {
        return false;
    }
    let at: usize = p.len() - tail.len();
    matches_at(p, tail, at) && p[at - 1] == SEPARATOR
}

/// Tests whether `a` sorts before `b` in the order of paths.
pub fn path_less(a: &Vec<u8>, b: &Vec<u8>) -> (r: bool)
    ensures
        r == path_lt(a@, b@),
{
    let mut i: usize = 0;
    assert(a@.skip(0) =~= a@ && b@.skip(0) =~= b@);
    loop
        invariant
            i <= a.len(),
            i <= b.len(),
            path_lt(a@, b@) == path_lt(a@.skip(i as int), b@.skip(i as int)),
        decreases a.len() - i,
    {
        if i >= b.len() {
            return false;
        }
        if i >= a.len() {
            return true;
        }
        let x = a[i];
        let y = b[i];
        assert(a@.skip(i as int)[0] == x);
        assert(b@.skip(i as int)[0] == y);
        if x != y {
            if x == SEPARATOR {
                return true;
            }
            if y == SEPARATOR {
                return false;
            }
            return x < y;
        }
        assert(a@.skip(i as int).drop_first() =~= a@.skip(i + 1));
        assert(b@.skip(i as int).drop_first() =~= b@.skip(i + 1));
        i += 1;
    }
}

} // verus!
