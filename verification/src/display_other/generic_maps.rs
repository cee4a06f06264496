//! A map from paths to lists of paths, written out as text.

use crate::config::{Config, PrintMode};
use crate::lookup::sorting::path_views;
use crate::lookup::versions_map::VersionsMap;
use crate::path::{append_bytes, bytes_eq, path_list};
use vstd::prelude::*;

verus! {

/// The room that the two quotation marks around a key take.
pub const QUOTATION_MARKS_LEN: usize = 2;

/// The order of keys: byte by byte, a prefix before what it is a prefix of.
pub open spec fn bytes_lt(a: Seq<u8>, b: Seq<u8>) -> bool
    decreases a.len(),
{
    if b.len() == 0 {
        false
    } else if a.len() == 0 {
        true
    } else if a[0] != b[0] {
        a[0] < b[0]
    } else {
        bytes_lt(a.drop_first(), b.drop_first())
    }
}

/// Tests whether `a` comes before `b` in the order of keys.
pub fn bytes_less(a: &Vec<u8>, b: &Vec<u8>) -> (r: bool)
    ensures
        r == bytes_lt(a@, b@),
{
    let mut i: usize = 0;
    assert(a@.skip(0) =~= a@ && b@.skip(0) =~= b@);
    loop
        invariant
            i <= a.len(),
            i <= b.len(),
            bytes_lt(a@, b@) == bytes_lt(a@.skip(i as int), b@.skip(i as int)),
        decreases a.len() - i,
    {
        if i >= b.len() {
            return false;
        }
        if i >= a.len() {
            return true;
        }
        let x = a[i];
        let y = b[i];
        assert(a@.skip(i as int)[0] == x);
        assert(b@.skip(i as int)[0] == y);
        if x != y {
            return x < y;
        }
        assert(a@.skip(i as int).drop_first() =~= a@.skip(i + 1));
        assert(b@.skip(i as int).drop_first() =~= b@.skip(i + 1));
        i += 1;
    }
}

/// A key and the values written out for it.
pub type PrintEntryView = (Seq<u8>, Seq<Seq<u8>>);

/// The entries of a list, as values.
pub open spec fn print_entry_views(entries: Seq<(Vec<u8>, Vec<Vec<u8>>)>) -> Seq<PrintEntryView> {
    entries.map_values(|entry: (Vec<u8>, Vec<Vec<u8>>)| (entry.0@, path_list(entry.1@)))
}

/// The entries with `values` for `key`: in place of the values that `key`
/// had, or as a new entry where the order of keys puts it.
pub open spec fn print_insert(
    entries: Seq<PrintEntryView>,
    key: Seq<u8>,
    values: Seq<Seq<u8>>,
) -> Seq<PrintEntryView>
    decreases entries.len(),
{
    if entries.len() == 0 {
        seq![(key, values)]
    } else if entries.last().0 == key {
        entries.drop_last().push((key, values))
    } else if bytes_lt(entries.last().0, key) {
        entries.push((key, values))
    } else {
        print_insert(entries.drop_last(), key, values).push(entries.last())
    }
}

/// The paths of the records.
pub open spec fn paths_of(records: Seq<crate::data::paths::PathDataView>) -> Seq<Seq<u8>> {
    records.map_values(|record: crate::data::paths::PathDataView| record.path)
}

/// The entries that stand for a map of versions: the path of each live path
/// with the paths of its versions.
pub open spec fn print_entries_of(
    versions: Seq<crate::lookup::versions_map::VersionsEntryView>,
) -> Seq<PrintEntryView>
    decreases versions.len(),
{
    if versions.len() == 0 {
        Seq::empty()
    } else {
        print_insert(
            print_entries_of(versions.drop_last()),
            versions.last().0.path,
            paths_of(versions.last().1),
        )
    }
}

/// The length of the longest key.
pub open spec fn longest_key(entries: Seq<PrintEntryView>) -> nat
    decreases entries.len(),
{
    if entries.len() == 0 {
        0
    } else {
        let before = longest_key(entries.drop_last());
        if entries.last().0.len() > before {
            entries.last().0.len()
        } else {
            before
        }
    }
}

/// The width of the column of keys: the bytes of the longest key and its
/// quotation marks, as far as a machine word can say.
pub open spec fn map_padding(entries: Seq<PrintEntryView>) -> nat {
    if longest_key(entries) + QUOTATION_MARKS_LEN > usize::MAX {
        usize::MAX as nat
    } else {
        longest_key(entries) + QUOTATION_MARKS_LEN as nat
    }
}

/// `count` spaces.
pub open spec fn spaces(count: nat) -> Seq<u8> {
    Seq::new(count, |i: int| 32u8)
}

/// Whether a byte of text in UTF-8 goes on with a character that an earlier
/// byte started.
pub open spec fn is_continuation(b: u8) -> bool {
    128 <= b < 192
}

/// The number of characters of `text`, which is in UTF-8: the number of its
/// bytes that start a character.
pub open spec fn char_count(text: Seq<u8>) -> nat
    decreases text.len(),
{
    if text.len() == 0 {
        0
    } else if is_continuation(text.last()) {
        char_count(text.drop_last())
    } else {
        char_count(text.drop_last()) + 1
    }
}

/// `text` with spaces behind it up to `width` characters; text that is
/// wider is left as it is.
pub open spec fn pad_right(text: Seq<u8>, width: nat) -> Seq<u8> {
    if char_count(text) >= width {
        text
    } else {
        text + spaces((width - char_count(text)) as nat)
    }
}

/// `text` between quotation marks.
pub open spec fn quoted(text: Seq<u8>) -> Seq<u8> {
    seq![34u8] + text + seq![34u8]
}

/// One line of the pretty form: the key in its column, or the empty column
/// on every line but the first of a key, then ` : `, the value in quotation
/// marks, and a newline.
pub open spec fn pretty_line(column: Seq<u8>, value: Seq<u8>, padding: nat) -> Seq<u8> {
    pad_right(column, padding) + seq![32u8, 58u8, 32u8] + quoted(value) + seq![10u8]
}

/// The lines of the first `upto` values of a key in the pretty form.
pub open spec fn pretty_lines(key: Seq<u8>, values: Seq<Seq<u8>>, padding: nat, upto: int) -> Seq<
    u8,
>
    decreases upto,
{
    if upto <= 0 {
        Seq::empty()
    } else {
        pretty_lines(key, values, padding, upto - 1) + pretty_line(
            if upto == 1 {
                quoted(key)
            } else {
                Seq::empty()
            },
            values[upto - 1],
            padding,
        )
    }
}

/// The first `upto` values of a key in the plain form: each behind a tab.
pub open spec fn plain_values(values: Seq<Seq<u8>>, upto: int) -> Seq<u8>
    decreases upto,
{
    if upto <= 0 {
        Seq::empty()
    } else {
        plain_values(values, upto - 1) + seq![9u8] + values[upto - 1]
    }
}

/// What is written for one key: in the plain form the key, a colon, the
/// values and a newline; in the pretty form one line for each value.
pub open spec fn formatted_entry(entry: PrintEntryView, padding: nat, print_mode: PrintMode) -> Seq<
    u8,
> {
    if print_mode == PrintMode::FormattedNotPretty {
        entry.0 + seq![58u8] + plain_values(entry.1, entry.1.len() as int) + seq![10u8]
    } else {
        pretty_lines(entry.0, entry.1, padding, entry.1.len() as int)
    }
}

/// What is written for the first `upto` keys. Where only the last snapshot
/// is asked for, a key without values is left out.
pub open spec fn formatted_entries(
    entries: Seq<PrintEntryView>,
    padding: nat,
    config: &Config,
    upto: int,
) -> Seq<u8>
    decreases upto,
{
    if upto <= 0 {
        Seq::empty()
    } else if config.opt_last_snap is Some && entries[upto - 1].1.len() == 0 {
        formatted_entries(entries, padding, config, upto - 1)
    } else {
        formatted_entries(entries, padding, config, upto - 1) + formatted_entry(
            entries[upto - 1],
            padding,
            config.print_mode,
        )
    }
}

/// Keys in their order, each with the values that are written out for it.
pub struct PrintAsMap {
    inner: Vec<(Vec<u8>, Vec<Vec<u8>>)>,
}

impl View for PrintAsMap {
    type V = Seq<PrintEntryView>;

    closed spec fn view(&self) -> Seq<PrintEntryView> {
        print_entry_views(self.inner@)
    }
}

proof fn lemma_print_insert_at(
    entries: Seq<PrintEntryView>,
    key: Seq<u8>,
    values: Seq<Seq<u8>>,
    at: int,
)
    requires
        0 <= at <= entries.len(),
        forall|k: int|
            at <= k < entries.len() ==> entries[k].0 != key && !bytes_lt(entries[k].0, key),
        at > 0 ==> entries[at - 1].0 == key || bytes_lt(entries[at - 1].0, key),
    ensures
        print_insert(entries, key, values) == if at > 0 && entries[at - 1].0 == key {
            entries.update(at - 1, (key, values))
        } else {
            entries.insert(at, (key, values))
        },
    decreases entries.len(),
{
    if entries.len() == 0 {
        assert(entries.insert(at, (key, values)) =~= seq![(key, values)]);
    } else if at == entries.len() {
        if entries.last().0 == key {
            assert(entries.drop_last().push((key, values)) =~= entries.update(
                at - 1,
                (key, values),
            ));
        } else {
            assert(entries.insert(at, (key, values)) =~= entries.push((key, values)));
        }
    } else {
        let front = entries.drop_last();
        assert forall|k: int| at <= k < front.len() implies front[k].0 != key && !bytes_lt(
            front[k].0,
            key,
        ) by {
            assert(front[k] == entries[k]);
        }
        if at > 0 {
            assert(front[at - 1] == entries[at - 1]);
        }
        lemma_print_insert_at(front, key, values, at);
        if at > 0 && entries[at - 1].0 == key {
            assert(front.update(at - 1, (key, values)).push(entries.last()) =~= entries.update(
                at - 1,
                (key, values),
            ));
        } else {
            assert(front.insert(at, (key, values)).push(entries.last()) =~= entries.insert(
                at,
                (key, values),
            ));
        }
    }
}

impl PrintAsMap {
    /// A map without keys.
    pub fn new() -> (r: Self)
        ensures
            r@ == Seq::<PrintEntryView>::empty(),
    {
        let inner: Vec<(Vec<u8>, Vec<Vec<u8>>)> = Vec::new();
        assert(print_entry_views(inner@) =~= Seq::<PrintEntryView>::empty());
        PrintAsMap { inner }
    }

    /// Puts `values` under `key`, in place of what `key` had.
    pub fn insert(&mut self, key: Vec<u8>, values: Vec<Vec<u8>>)
        ensures
            final(self)@ == print_insert(old(self)@, key@, path_list(values@)),
    {
        let ghost before = print_entry_views(self.inner@);
        let mut at: usize = self.inner.len();
        while at > 0 && !bytes_eq(&self.inner[at - 1].0, &key) && !bytes_less(
            &self.inner[at - 1].0,
            &key,
        )
            invariant
                at <= self.inner.len(),
                before == print_entry_views(self.inner@),
                forall|k: int|
                    at <= k < self.inner.len() ==> before[k].0 != key@ && !bytes_lt(
                        before[k].0,
                        key@,
                    ),
            decreases at,
        {
            at -= 1;
            assert(before[at as int] == (
                self.inner@[at as int].0@,
                path_list(self.inner@[at as int].1@),
            ));
        }
        proof {
            if at > 0 {
                assert(before[at - 1] == (
                    self.inner@[at - 1].0@,
                    path_list(self.inner@[at - 1].1@),
                ));
            }
            lemma_print_insert_at(before, key@, path_list(values@), at as int);
        }
        if at > 0 && bytes_eq(&self.inner[at - 1].0, &key) {
            self.inner.remove(at - 1);
            let entry = (key, values);
            self.inner.insert(at - 1, entry);
            assert(print_entry_views(self.inner@) =~= before.update(
                at - 1,
                (key@, path_list(values@)),
            ));
        } else {
            let entry = (key, values);
            self.inner.insert(at, entry);
            assert(print_entry_views(self.inner@) =~= before.insert(
                at as int,
                (key@, path_list(values@)),
            ));
        }
    }

    /// The map that is written out for a map of versions: each live path
    /// with the paths of its versions.
    pub fn from_versions_map(map: &VersionsMap) -> (r: Self)
        ensures
            r@ == print_entries_of(map@),
    {
        let mut print_map = PrintAsMap::new();
        let mut i: usize = 0;
        assert(map@.subrange(0, 0) =~= Seq::<crate::lookup::versions_map::VersionsEntryView>::empty());
        let count = map.len();
        while i < count
            invariant
                i <= count,
                count == map@.len(),
                print_map@ == print_entries_of(map@.subrange(0, i as int)),
            decreases count - i,
        {
            proof {
                let upto = map@.subrange(0, i + 1);
                assert(upto.drop_last() =~= map@.subrange(0, i as int));
                assert(upto.last() == map@[i as int]);
            }
            if let Some((live, snaps)) = map.get(i) {
                let mut values: Vec<Vec<u8>> = Vec::new();
                let mut k: usize = 0;
                assert(path_list(values@) =~= paths_of(path_views(snaps@)).subrange(0, 0));
                while k < snaps.len()
                    invariant
                        k <= snaps.len(),
                        path_list(values@) == paths_of(path_views(snaps@)).subrange(0, k as int),
                    decreases snaps.len() - k,
                {
                    let ghost before = path_list(values@);
                    let value = snaps[k].path_buf.clone();
                    values.push(value);
                    assert(path_list(values@) =~= before.push(value@));
                    assert(paths_of(path_views(snaps@)).subrange(0, k + 1) =~= before.push(
                        value@,
                    ));
                    k += 1;
                }
                assert(paths_of(path_views(snaps@)).subrange(0, snaps.len() as int) =~= paths_of(
                    path_views(snaps@),
                ));
                print_map.insert(live.path_buf.clone(), values);
            }
            i += 1;
        }
        assert(map@.subrange(0, count as int) =~= map@);
        print_map
    }

    /// The width of the column of keys.
    pub fn get_map_padding(&self) -> (r: usize)
        ensures
            r == map_padding(self@),
    {
        let mut longest: usize = 0;
        let mut i: usize = 0;
        assert(self@.subrange(0, 0) =~= Seq::<PrintEntryView>::empty());
        while i < self.inner.len()
            invariant
                i <= self.inner.len(),
                longest == longest_key(self@.subrange(0, i as int)),
            decreases self.inner.len() - i,
        {
            proof {
                let upto = self@.subrange(0, i + 1);
                assert(upto.drop_last() =~= self@.subrange(0, i as int));
                assert(upto.last().0 == self.inner@[i as int].0@);
            }
            if self.inner[i].0.len() > longest {
                longest = self.inner[i].0.len();
            }
            i += 1;
        }
        assert(self@.subrange(0, self.inner.len() as int) =~= self@);
        if longest > usize::MAX - QUOTATION_MARKS_LEN {
            usize::MAX
        } else {
            longest + QUOTATION_MARKS_LEN
        }
    }

    /// The map as text, in the form that the request asks for.
    pub fn format(&self, config: &Config) -> (r: Vec<u8>)
        ensures
            r@ == formatted_entries(self@, map_padding(self@), config, self@.len() as int),
    {
        let padding = self.get_map_padding();
        let not_pretty = match config.print_mode {
            PrintMode::FormattedNotPretty => true,
            _ => false,
        };
        let mut write_out_buffer: Vec<u8> = Vec::new();
        let mut i: usize = 0;
        while i < self.inner.len()
            invariant
                i <= self.inner.len(),
                padding == map_padding(self@),
                not_pretty == (config.print_mode == PrintMode::FormattedNotPretty),
                write_out_buffer@ == formatted_entries(self@, padding as nat, config, i as int),
            decreases self.inner.len() - i,
        {
            let key = &self.inner[i].0;
            let values = &self.inner[i].1;
            assert(self@[i as int] == (key@, path_list(values@)));
            let ghost written = write_out_buffer@;
            if !(config.opt_last_snap.is_some() && values.len() == 0) {
                if not_pretty {
                    append_bytes(&mut write_out_buffer, key);
                    write_out_buffer.push(58u8);
                    let ghost head = write_out_buffer@;
                    let mut k: usize = 0;
                    assert(write_out_buffer@ =~= head + plain_values(path_list(values@), 0));
                    while k < values.len()
                        invariant
                            k <= values.len(),
                            write_out_buffer@ == head + plain_values(
                                path_list(values@),
                                k as int,
                            ),
                        decreases values.len() - k,
                    {
                        let ghost so_far = write_out_buffer@;
                        write_out_buffer.push(9u8);
                        append_bytes(&mut write_out_buffer, &values[k]);
                        assert(write_out_buffer@ =~= so_far + seq![9u8] + values@[k as int]@);
                        assert(write_out_buffer@ =~= head + plain_values(
                            path_list(values@),
                            k + 1,
                        ));
                        k += 1;
                    }
                    write_out_buffer.push(10u8);
                    assert(write_out_buffer@ =~= written + formatted_entry(
                        self@[i as int],
                        padding as nat,
                        config.print_mode,
                    ));
                } else {
                    let mut k: usize = 0;
                    assert(write_out_buffer@ =~= written + pretty_lines(
                        key@,
                        path_list(values@),
                        padding as nat,
                        0,
                    ));
                    while k < values.len()
                        invariant
                            k <= values.len(),
                            write_out_buffer@ == written + pretty_lines(
                                key@,
                                path_list(values@),
                                padding as nat,
                                k as int,
                            ),
                        decreases values.len() - k,
                    {
                        let ghost so_far = write_out_buffer@;
                        let mut column: Vec<u8> = Vec::new();
                        if k == 0 {
                            column.push(34u8);
                            append_bytes(&mut column, key);
                            column.push(34u8);
                            assert(column@ =~= quoted(key@));
                        }
                        let ghost shown = column@;
                        pad_to(&mut column, padding);
                        append_bytes(&mut write_out_buffer, &column);
                        write_out_buffer.push(32u8);
                        write_out_buffer.push(58u8);
                        write_out_buffer.push(32u8);
                        write_out_buffer.push(34u8);
                        append_bytes(&mut write_out_buffer, &values[k]);
                        write_out_buffer.push(34u8);
                        write_out_buffer.push(10u8);
                        assert(write_out_buffer@ =~= so_far + pretty_line(
                            shown,
                            values@[k as int]@,
                            padding as nat,
                        ));
                        assert(write_out_buffer@ =~= written + pretty_lines(
                            key@,
                            path_list(values@),
                            padding as nat,
                            k + 1,
                        ));
                        k += 1;
                    }
                }
            }
            i += 1;
        }
        write_out_buffer
    }
}

/// Counts the characters of `text`, which is in UTF-8.
pub fn count_chars(text: &Vec<u8>) -> (r: usize)
    ensures
        r == char_count(text@),
{
    let mut count: usize = 0;
    let mut i: usize = 0;
    assert(text@.subrange(0, 0) =~= Seq::<u8>::empty());
    while i < text.len()
        invariant
            i <= text.len(),
            count <= i,
            count == char_count(text@.subrange(0, i as int)),
        decreases text.len() - i,
    {
        proof {
            let upto = text@.subrange(0, i + 1);
            assert(upto.drop_last() =~= text@.subrange(0, i as int));
            assert(upto.last() == text@[i as int]);
        }
        let b = text[i];
        if !(128 <= b && b < 192) {
            count += 1;
        }
        i += 1;
    }
    assert(text@.subrange(0, text.len() as int) =~= text@);
    count
}

/// Puts spaces behind `text` up to `width` characters.
pub fn pad_to(text: &mut Vec<u8>, width: usize)
    ensures
        final(text)@ == pad_right(old(text)@, width as nat),
{
    let ghost start = text@;
    let count = count_chars(text);
    if count >= width {
        return;
    }
    let fill: usize = width - count;
    let mut added: usize = 0;
    assert(text@ =~= start + spaces(0));
    while added < fill
        invariant
            added <= fill,
            text@ == start + spaces(added as nat),
        decreases fill - added,
    {
        text.push(32u8);
        added += 1;
        assert(text@ =~= start + spaces(added as nat));
    }
}

} // verus!
