//! What a selection comes to: the snapshot paths that were picked, and the
//! live path that they are versions of.

use crate::data::paths::{zfs_live_path, PathData, PathDeconstruction, ZfsSnapPathGuard};
use crate::library::results::{HttmError, HttmErrorView, HttmResult};
use crate::lookup::sorting::path_views;
use crate::lookup::versions_map::{VersionsEntryView, VersionsMap};
use crate::path::{
    bytes_eq, path_list, slice_bytes, split_once,
    split_once_bytes,
};
use vstd::prelude::*;

verus! {

/// The snapshot paths that the user picked, and the one live path that
/// they belong to, where there is only one.
#[derive(Debug)]
pub struct InteractiveSelect {
    pub snap_path_strings: Vec<Vec<u8>>,
    pub opt_live_version: Option<Vec<u8>>,
}

/// The live path that `snap_path` is a version of: the one that is known,
/// else the one that a path inside a ZFS snapshot stands for.
pub open spec fn live_version_of(opt_live_version: Option<Seq<u8>>, snap_path: Seq<u8>) -> Option<
    Seq<u8>,
> {
    match opt_live_version {
        Some(live) => Some(live),
        None => zfs_live_path(snap_path),
    }
}

/// The paths of all versions of the first `upto` live paths, in order.
pub open spec fn last_snap_paths(entries: Seq<VersionsEntryView>, upto: int) -> Seq<Seq<u8>>
    decreases upto,
{
    if upto <= 0 {
        Seq::empty()
    } else {
        last_snap_paths(entries, upto - 1) + entries[upto - 1].1.map_values(
            |version: crate::data::paths::PathDataView| version.path,
        )
    }
}

/// What stands between the first and the last quotation mark of `line`.
pub open spec fn between_quotes(line: Seq<u8>) -> Option<Seq<u8>> {
    match split_once(line, seq![34u8]) {
        Some((_before, after)) => if last_quote(after) >= 0 {
            Some(after.subrange(0, last_quote(after)))
        } else {
            None
        },
        None => None,
    }
}

/// The offset of the last quotation mark of `text`, or -1 where it has none.
pub open spec fn last_quote(text: Seq<u8>) -> int
    decreases text.len(),
{
    if text.len() == 0 {
        -1
    } else if text.last() == 34u8 {
        text.len() - 1
    } else {
        last_quote(text.drop_last())
    }
}

/// The path that a selected line names: what stands between its quotation
/// marks.
pub fn parse_selection(line: &Vec<u8>) -> (r: Option<Vec<u8>>)
    ensures
        match r {
            Some(path) => between_quotes(line@) == Some(path@),
            None => between_quotes(line@) is None,
        },
{
    let quote: Vec<u8> = vec![34u8];
    assert(quote@ =~= seq![34u8]);
    let after = match split_once_bytes(line, &quote) {
        Some((_before, after)) => after,
        None => {
            return None;
        },
    };
    let mut i: usize = after.len();
    assert(after@.subrange(0, i as int) =~= after@);
    while i > 0
        invariant
            i <= after.len(),
            split_once(line@, seq![34u8]) matches Some((_before, rest)) && rest == after@,
            last_quote(after@) == last_quote(after@.subrange(0, i as int)),
        decreases i,
    {
        let ghost upto = after@.subrange(0, i as int);
        i -= 1;
        assert(upto.drop_last() =~= after@.subrange(0, i as int));
        assert(upto.last() == after@[i as int]);
        if after[i] == 34u8 {
            return Some(slice_bytes(&after, 0, i));
        }
    }
    None
}

/// What the user answered when asked to consent: yes, no, or neither.
pub open spec fn consent_of(answer: Seq<u8>) -> Option<bool> {
    let upper = answer.map_values(|b: u8| ascii_upper(b));
    if upper == seq![89u8, 69u8, 83u8] || upper == seq![89u8] {
        Some(true)
    } else if upper == seq![78u8, 79u8] || upper == seq![78u8] {
        Some(false)
    } else {
        None
    }
}

/// The upper case of an ASCII letter; any other byte as it is.
pub open spec fn ascii_upper(b: u8) -> u8 {
    if 97 <= b <= 122 {
        (b - 32) as u8
    } else {
        b
    }
}

/// Reads the answer to a request for consent: `YES` or `Y` consents, `NO`
/// or `N` declines, in either case of the letters; anything else is no
/// answer.
pub fn parse_consent(answer: &Vec<u8>) -> (r: Option<bool>)
    ensures
        r == consent_of(answer@),
{
    let mut upper: Vec<u8> = Vec::new();
    let mut i: usize = 0;
    let ghost all = answer@.map_values(|b: u8| ascii_upper(b));
    while i < answer.len()
        invariant
            i <= answer.len(),
            all == answer@.map_values(|b: u8| ascii_upper(b)),
            upper@ == all.subrange(0, i as int),
        decreases answer.len() - i,
    {
        let b = answer[i];
        let u: u8 = if 97 <= b && b <= 122 {
            b - 32
        } else {
            b
        };
        upper.push(u);
        assert(upper@ =~= all.subrange(0, i + 1));
        i += 1;
    }
    assert(all.subrange(0, answer.len() as int) =~= all);
    let yes: Vec<u8> = vec![89u8, 69u8, 83u8];
    let y: Vec<u8> = vec![89u8];
    let no: Vec<u8> = vec![78u8, 79u8];
    let n: Vec<u8> = vec![78u8];
    assert(yes@ =~= seq![89u8, 69u8, 83u8] && y@ =~= seq![89u8] && no@ =~= seq![78u8, 79u8] && n@
        =~= seq![78u8]);
    if bytes_eq(&upper, &yes) || bytes_eq(&upper, &y) {
        Some(true)
    } else if bytes_eq(&upper, &no) || bytes_eq(&upper, &n) {
        Some(false)
    } else {
        None
    }
}

/// Whether `path` is one of the live paths of the map.
pub open spec fn is_live_key(entries: Seq<VersionsEntryView>, path: Seq<u8>) -> bool {
    exists|i: int| 0 <= i < entries.len() && (#[trigger] entries[i]).0.path == path
}

/// The snapshot paths that the first `upto` selected lines name: what
/// stands between the quotation marks of each line, unless that is a live
/// path, which cannot be picked as a version of itself.
pub open spec fn requested_names(
    lines: Seq<Seq<u8>>,
    entries: Seq<VersionsEntryView>,
    upto: int,
) -> Seq<Seq<u8>>
    decreases upto,
{
    if upto <= 0 {
        Seq::empty()
    } else {
        let before = requested_names(lines, entries, upto - 1);
        match between_quotes(lines[upto - 1]) {
            Some(path) => if is_live_key(entries, path) {
                before
            } else {
                before.push(path)
            },
            None => before,
        }
    }
}

/// Tests whether `path` is one of the live paths of the map.
pub fn is_live_version(map: &VersionsMap, path: &Vec<u8>) -> (r: bool)
    ensures
        r == is_live_key(map@, path@),
{
    let count = map.len();
    let mut i: usize = 0;
    while i < count
        invariant
            i <= count,
            count == map@.len(),
            forall|k: int| 0 <= k < i ==> (#[trigger] map@[k]).0.path != path@,
        decreases count - i,
    {
        if let Some((live, _snaps)) = map.get(i) {
            if bytes_eq(&live.path_buf, path) {
                return true;
            }
        }
        i += 1;
    }
    false
}

/// The snapshot paths that the selected lines name.
pub fn requested_file_names(selected_lines: &Vec<Vec<u8>>, map: &VersionsMap) -> (r: Vec<Vec<u8>>)
    ensures
        path_list(r@) == requested_names(
            path_list(selected_lines@),
            map@,
            selected_lines@.len() as int,
        ),
{
    let mut names: Vec<Vec<u8>> = Vec::new();
    let mut i: usize = 0;
    assert(path_list(names@) =~= Seq::<Seq<u8>>::empty());
    while i < selected_lines.len()
        invariant
            i <= selected_lines.len(),
            path_list(names@) == requested_names(path_list(selected_lines@), map@, i as int),
        decreases selected_lines.len() - i,
    {
        let ghost before = path_list(names@);
        assert(path_list(selected_lines@)[i as int] == selected_lines@[i as int]@);
        // everything between the quotes, and no live version
        if let Some(path) = parse_selection(&selected_lines[i]) {
            if !is_live_version(map, &path) {
                names.push(path);
                assert(path_list(names@) =~= before.push(path@));
            }
        }
        i += 1;
    }
    names
}

/// A snapshot path as it is printed: as it is in the raw forms, between
/// quotation marks in the others, and with `delimiter` behind it.
pub open spec fn printed_snap_path(
    snap_path: Seq<u8>,
    print_mode: crate::config::PrintMode,
    delimiter: u8,
) -> Seq<u8> {
    match print_mode {
        crate::config::PrintMode::RawNewline | crate::config::PrintMode::RawZero => snap_path
            + seq![delimiter],
        _ => seq![34u8] + snap_path + seq![34u8, delimiter],
    }
}

/// Writes a snapshot path as it is printed.
pub fn format_snap_path(
    snap_path: &Vec<u8>,
    print_mode: crate::config::PrintMode,
    delimiter: u8,
) -> (r: Vec<u8>)
    ensures
        r@ == printed_snap_path(snap_path@, print_mode, delimiter),
{
    let mut output_buf: Vec<u8> = Vec::new();
    match print_mode {
        crate::config::PrintMode::RawNewline | crate::config::PrintMode::RawZero => {
            crate::path::append_bytes(&mut output_buf, snap_path);
            output_buf.push(delimiter);
            assert(output_buf@ =~= snap_path@ + seq![delimiter]);
        },
        _ => {
            output_buf.push(34u8);
            crate::path::append_bytes(&mut output_buf, snap_path);
            output_buf.push(34u8);
            output_buf.push(delimiter);
            assert(output_buf@ =~= seq![34u8] + snap_path@ + seq![34u8, delimiter]);
        },
    }
    output_buf
}

impl InteractiveSelect {
    /// What a selection comes to: the snapshot paths that were picked, and
    /// the live path they belong to where only one path was selected.
    pub fn new(selected_pathdata: &Vec<PathData>, snap_path_strings: Vec<Vec<u8>>) -> (r: Self)
        ensures
            r.snap_path_strings == snap_path_strings,
            crate::library::utility::option_bytes(r.opt_live_version) == if selected_pathdata@.len()
                == 1 {
                Some(selected_pathdata@[0]@.path)
            } else {
                None
            },
    {
        let opt_live_version: Option<Vec<u8>> = if selected_pathdata.len() == 1 {
            Some(selected_pathdata[0].path_buf.clone())
        } else {
            None
        };
        InteractiveSelect { snap_path_strings, opt_live_version }
    }

    /// The paths that are picked where only the last snapshot of each path
    /// is asked for: the versions that the map lists, path after path.
    pub fn last_snap(map: &VersionsMap) -> (r: Vec<Vec<u8>>)
        ensures
            path_list(r@) == last_snap_paths(map@, map@.len() as int),
    {
        let mut picked: Vec<Vec<u8>> = Vec::new();
        let count = map.len();
        let mut i: usize = 0;
        assert(path_list(picked@) =~= Seq::<Seq<u8>>::empty());
        while i < count
            invariant
                i <= count,
                count == map@.len(),
                path_list(picked@) == last_snap_paths(map@, i as int),
            decreases count - i,
        {
            if let Some((_live, snaps)) = map.get(i) {
                let ghost head = path_list(picked@);
                let ghost paths = path_views(snaps@).map_values(
                    |version: crate::data::paths::PathDataView| version.path,
                );
                let mut k: usize = 0;
                assert(path_list(picked@) =~= head + paths.subrange(0, 0));
                while k < snaps.len()
                    invariant
                        k <= snaps.len(),
                        paths == path_views(snaps@).map_values(
                            |version: crate::data::paths::PathDataView| version.path,
                        ),
                        path_list(picked@) == head + paths.subrange(0, k as int),
                    decreases snaps.len() - k,
                {
                    let ghost before = path_list(picked@);
                    let path = snaps[k].path_buf.clone();
                    picked.push(path);
                    assert(path_list(picked@) =~= before.push(path@));
                    assert(head + paths.subrange(0, k + 1) =~= before.push(path@));
                    k += 1;
                }
                assert(paths.subrange(0, snaps.len() as int) =~= paths);
            }
            i += 1;
        }
        picked
    }

    /// The live path that the version `snap_pathdata` is restored to. Fails
    /// where none is known and the path of the version is not one inside a
    /// ZFS snapshot that tells its live path.
    pub fn opt_live_version(&self, snap_pathdata: &PathData) -> (r: HttmResult<Vec<u8>>)
        ensures
            match r {
                Ok(live) => live_version_of(
                    crate::library::utility::option_bytes(self.opt_live_version),
                    snap_pathdata@.path,
                ) == Some(live@),
                Err(e) => live_version_of(
                    crate::library::utility::option_bytes(self.opt_live_version),
                    snap_pathdata@.path,
                ) is None && e@ == HttmErrorView::BadInput(snap_pathdata@.path),
            },
    {
        let found = match &self.opt_live_version {
            Some(live_version) => Some(live_version.clone()),
            None => match ZfsSnapPathGuard::new(snap_pathdata) {
                Some(snap_guard) => snap_guard.live_path(),
                None => {
                    proof {
                        crate::data::paths::lemma_no_marker_no_live_path(snap_pathdata@.path);
                    }
                    None
                },
            },
        };
        match found {
            Some(live) => Ok(live),
            None => Err(HttmError::BadInput(snap_pathdata.path_buf.clone())),
        }
    }
}

} // verus!
