//! Finding the table files of a directory after a restart: which names are
//! table files, in which order the tables are read, and which number the
//! next table file gets.

use vstd::prelude::*;
use vstd::slice::slice_subrange;
use vstd::string::StringSliceAdditionalSpecFns;
use vstd::utf8::encode_utf8;
use crate::text::{parse_decimal, parse_u64};

verus! {

/// A file of the directory: its name and when it was last written, in
/// nanoseconds since the epoch.
#[derive(Debug)]
pub struct TableFile {
    pub name: String,
    pub modified: u128,
}

/// What a directory entry says.
pub struct FileView {
    pub name: Seq<char>,
    pub modified: u128,
}

impl View for TableFile {
    type V = FileView;

    open spec fn view(&self) -> FileView {
        FileView { name: self.name@, modified: self.modified }
    }
}

impl Clone for TableFile {
    fn clone(&self) -> (r: Self)
        ensures
            r@ == self@,
    {
        TableFile { name: self.name.clone(), modified: self.modified }
    }
}

/// What each entry of `v` says, in order.
pub open spec fn file_views(v: Seq<TableFile>) -> Seq<FileView> {
    v.map_values(|f: TableFile| f@)
}

/// The bytes of `sstable_`.
pub open spec fn table_prefix() -> Seq<u8> {
    seq![115u8, 115u8, 116u8, 97u8, 98u8, 108u8, 101u8, 95u8]
}

/// The bytes of `.dat`.
pub open spec fn table_suffix() -> Seq<u8> {
    seq![46u8, 100u8, 97u8, 116u8]
}

/// Whether a file name is that of a table file: it begins with `sstable_`
/// and ends with `.dat`.
pub open spec fn is_table_name(name: Seq<u8>) -> bool {
    &&& name.len() >= 12
    &&& name.subrange(0, 8) == table_prefix()
    &&& name.subrange(name.len() - 4, name.len() as int) == table_suffix()
}

/// The number in the name of a table file, where what stands between
/// `sstable_` and `.dat` is a number.
pub open spec fn table_number(name: Seq<u8>) -> Option<u64> {
    if is_table_name(name) {
        parse_decimal(name.subrange(8, name.len() - 4))
    } else {
        None
    }
}

/// The first place from `from` on where a file written at `time` goes in a
/// list that has the newest first: behind every file that is as new or newer.
pub open spec fn place_by_time(sorted: Seq<FileView>, time: u128, from: int) -> int
    decreases sorted.len() - from,
{
    if from < 0 || from >= sorted.len() || sorted[from].modified < time {
        from
    } else {
        place_by_time(sorted, time, from + 1)
    }
}

/// The table files among `files`, the newest first; files written at the
/// same time stay in the order of the listing.
pub open spec fn newest_first(files: Seq<FileView>) -> Seq<FileView>
    decreases files.len(),
{
    if files.len() == 0 {
        Seq::empty()
    } else {
        let rest = newest_first(files.drop_last());
        let f = files.last();
        if is_table_name(encode_utf8(f.name)) {
            rest.insert(place_by_time(rest, f.modified, 0), f)
        } else {
            rest
        }
    }
}

/// The number that follows `n`, or the greatest number if `n` is that.
pub open spec fn number_after(n: u64) -> u64 {
    if n == u64::MAX {
        n
    } else {
        (n + 1) as u64
    }
}

/// The number for the next table file: above every number that a table file
/// of the listing has, and at least one.
pub open spec fn next_table_id(files: Seq<FileView>) -> u64
    decreases files.len(),
{
    if files.len() == 0 {
        1
    } else {
        let rest = next_table_id(files.drop_last());
        match table_number(encode_utf8(files.last().name)) {
            Some(n) => if number_after(n) > rest {
                number_after(n)
            } else {
                rest
            },
            None => rest,
        }
    }
}

/// Whether the files of `s` go from newer to older.
pub open spec fn by_falling_time(s: Seq<FileView>) -> bool {
    forall|i: int, j: int| 0 <= i < j < s.len() ==> (#[trigger] s[i]).modified >= (#[trigger] s[j]).modified
}

/// Where a file goes lies within the list, behind files that are as new or
/// newer and before a file that is older.
pub proof fn lemma_place_by_time(sorted: Seq<FileView>, time: u128, from: int)
    requires
        0 <= from <= sorted.len(),
    ensures
        from <= place_by_time(sorted, time, from) <= sorted.len(),
        forall|k: int|
            from <= k < place_by_time(sorted, time, from) ==> (#[trigger] sorted[k]).modified >= time,
        place_by_time(sorted, time, from) < sorted.len() ==> sorted[place_by_time(
            sorted,
            time,
            from,
        )].modified < time,
    decreases sorted.len() - from,
{
    if from < sorted.len() && sorted[from].modified >= time {
        lemma_place_by_time(sorted, time, from + 1);
    }
}

/// The tables are read from the newest file to the oldest.
pub proof fn lemma_newest_first(files: Seq<FileView>)
    ensures
        by_falling_time(newest_first(files)),
        forall|i: int|
            0 <= i < newest_first(files).len() ==> is_table_name(
                encode_utf8((#[trigger] newest_first(files)[i]).name),
            ),
    decreases files.len(),
{
    if files.len() > 0 {
        let rest = newest_first(files.drop_last());
        let f = files.last();
        lemma_newest_first(files.drop_last());
        if is_table_name(encode_utf8(f.name)) {
            let p = place_by_time(rest, f.modified, 0);
            lemma_place_by_time(rest, f.modified, 0);
            let out = rest.insert(p, f);
            assert forall|i: int, j: int| 0 <= i < j < out.len() implies (#[trigger] out[i]).modified
                >= (#[trigger] out[j]).modified by {
                let a = if i < p { i } else { i - 1 };
                let b = if j < p { j } else { j - 1 };
                if i == p {
                    assert(rest[p].modified >= rest[b].modified || b == p);
                } else if j == p {
                    assert(rest[a].modified >= f.modified);
                } else {
                    assert(rest[a].modified >= rest[b].modified);
                }
            }
            assert forall|i: int| 0 <= i < out.len() implies is_table_name(
                encode_utf8((#[trigger] out[i]).name),
            ) by {
                if i != p {
                    let a = if i < p { i } else { i - 1 };
                    assert(out[i] == rest[a]);
                }
            }
        }
    }
}

/// The tables that are read are the table files of the listing, each once.
pub proof fn lemma_newest_first_keeps_files(files: Seq<FileView>)
    ensures
        newest_first(files).to_multiset() == files.filter(
            |f: FileView| is_table_name(encode_utf8(f.name)),
        ).to_multiset(),
    decreases files.len(),
{
    let wanted = |f: FileView| is_table_name(encode_utf8(f.name));
    if files.len() == 0 {
        assert(newest_first(files) =~= files.filter(wanted));
    } else {
        let init = files.drop_last();
        let rest = newest_first(init);
        let f = files.last();
        lemma_newest_first_keeps_files(init);
        reveal_with_fuel(Seq::filter, 2);
        if wanted(f) {
            let p = place_by_time(rest, f.modified, 0);
            lemma_place_by_time(rest, f.modified, 0);
            vstd::seq_lib::to_multiset_insert(rest, p, f);
            vstd::seq_lib::to_multiset_build(init.filter(wanted), f);
            assert(files.filter(wanted) == init.filter(wanted).push(f));
            assert(rest.insert(p, f).to_multiset() == rest.to_multiset().insert(f));
            assert(init.filter(wanted).push(f).to_multiset() =~= init.filter(wanted).to_multiset().insert(
                f,
            ));
        } else {
            assert(files.filter(wanted) == init.filter(wanted));
        }
    }
}

/// Table files that are listed from the newest to the oldest are read in the
/// order of the listing.
pub proof fn lemma_newest_first_keeps_order(files: Seq<FileView>)
    requires
        by_falling_time(files),
        forall|i: int| 0 <= i < files.len() ==> is_table_name(encode_utf8((#[trigger] files[i]).name)),
    ensures
        newest_first(files) == files,
    decreases files.len(),
{
    if files.len() > 0 {
        let rest = files.drop_last();
        let f = files.last();
        assert forall|i: int, j: int| 0 <= i < j < rest.len() implies (#[trigger] rest[i]).modified >= (
        #[trigger] rest[j]).modified by {
            assert(files[i].modified >= files[j].modified);
        }
        assert forall|i: int| 0 <= i < rest.len() implies is_table_name(
            encode_utf8((#[trigger] rest[i]).name),
        ) by {
            assert(rest[i] == files[i]);
        }
        lemma_newest_first_keeps_order(rest);
        assert forall|k: int| 0 <= k < rest.len() implies (#[trigger] rest[k]).modified
            >= f.modified by {
            assert(files[k].modified >= files[files.len() - 1].modified);
        }
        lemma_place_behind(rest, f.modified, 0);
        assert(rest.insert(rest.len() as int, f) =~= files);
    }
}

/// A file that is no newer than any of the list goes behind them all.
proof fn lemma_place_behind(sorted: Seq<FileView>, time: u128, from: int)
    requires
        0 <= from <= sorted.len(),
        forall|k: int| from <= k < sorted.len() ==> (#[trigger] sorted[k]).modified >= time,
    ensures
        place_by_time(sorted, time, from) == sorted.len(),
    decreases sorted.len() - from,
{
    if from < sorted.len() {
        lemma_place_behind(sorted, time, from + 1);
    }
}

/// The next number lies above the number of every table file of the listing
/// that has one below the greatest.
pub proof fn lemma_next_table_id(files: Seq<FileView>, i: int)
    requires
        0 <= i < files.len(),
    ensures
        next_table_id(files) >= 1,
        match table_number(encode_utf8(files[i].name)) {
            Some(n) => next_table_id(files) >= number_after(n),
            None => true,
        },
    decreases files.len(),
{
    lemma_next_table_id_positive(files);
    if i < files.len() - 1 {
        lemma_next_table_id(files.drop_last(), i);
    }
}

/// The next number is at least one.
pub proof fn lemma_next_table_id_positive(files: Seq<FileView>)
    ensures
        next_table_id(files) >= 1,
    decreases files.len(),
{
    if files.len() > 0 {
        lemma_next_table_id_positive(files.drop_last());
    }
}

/// Whether `name` is the name of a table file.
pub fn names_table(name: &str) -> (r: bool)
    ensures
        r == is_table_name(name.spec_bytes()),
{
    let s = name.as_bytes();
    let n = s.len();
    if n < 12 {
        return false;
    }
    let prefix: [u8; 8] = [115, 115, 116, 97, 98, 108, 101, 95];
    let suffix: [u8; 4] = [46, 100, 97, 116];
    assert(prefix@ =~= table_prefix());
    assert(suffix@ =~= table_suffix());
    let mut i: usize = 0;
    while i < 8
        invariant
            i <= 8,
            s@ == name.spec_bytes(),
            n == s@.len(),
            n >= 12,
            prefix@ == table_prefix(),
            forall|k: int| 0 <= k < i ==> s@[k] == table_prefix()[k],
        decreases 8 - i,
    {
        if s[i] != prefix[i] {
            proof {
                assert(s@.subrange(0, 8)[i as int] != table_prefix()[i as int]);
            }
            return false;
        }
        i += 1;
    }
    let mut j: usize = 0;
    while j < 4
        invariant
            j <= 4,
            s@ == name.spec_bytes(),
            n == s@.len(),
            n >= 12,
            suffix@ == table_suffix(),
            forall|k: int| 0 <= k < j ==> s@[n - 4 + k] == table_suffix()[k],
        decreases 4 - j,
    {
        if s[n - 4 + j] != suffix[j] {
            proof {
                assert(s@.subrange(n - 4, n as int)[j as int] != table_suffix()[j as int]);
            }
            return false;
        }
        j += 1;
    }
    proof {
        assert(s@.subrange(0, 8) =~= table_prefix());
        assert(s@.subrange(n - 4, n as int) =~= table_suffix());
    }
    true
}

/// The number in the name of a table file.
pub fn number_of(name: &str) -> (r: Option<u64>)
    ensures
        r == table_number(name.spec_bytes()),
{
    if !names_table(name) {
        return None;
    }
    let s = name.as_bytes();
    parse_u64(slice_subrange(s, 8, s.len() - 4))
}

/// The table files of a listing in the order in which the engine reads
/// them, and the number for the next table file.
pub fn discover(files: &Vec<TableFile>) -> (r: (Vec<TableFile>, u64))
    ensures
        file_views(r.0@) == newest_first(file_views(files@)),
        r.1 == next_table_id(file_views(files@)),
{
    let mut out: Vec<TableFile> = Vec::new();
    let mut next: u64 = 1;
    let mut k: usize = 0;
    let ghost all = file_views(files@);
    proof {
        assert(all.subrange(0, 0) =~= Seq::<FileView>::empty());
        assert(file_views(out@) =~= Seq::<FileView>::empty());
    }
    while k < files.len()
        invariant
            k <= files@.len(),
            all == file_views(files@),
            file_views(out@) == newest_first(all.subrange(0, k as int)),
            next == next_table_id(all.subrange(0, k as int)),
        decreases files@.len() - k,
    {
        let file = &files[k];
        proof {
            assert(all.subrange(0, k + 1).drop_last() =~= all.subrange(0, k as int));
            assert(all.subrange(0, k + 1).last() == file@);
        }
        match number_of(file.name.as_str()) {
            Some(n) => {
                let after = if n == u64::MAX { n } else { n + 1 };
                if after > next {
                    next = after;
                }
            },
            None => {},
        }
        if names_table(file.name.as_str()) {
            let ghost sorted = file_views(out@);
            let mut p: usize = 0;
            while p < out.len() && out[p].modified >= file.modified
                invariant
                    p <= out@.len(),
                    sorted == file_views(out@),
                    place_by_time(sorted, file.modified, 0) == place_by_time(
                        sorted,
                        file.modified,
                        p as int,
                    ),
                decreases out@.len() - p,
            {
                proof {
                    assert(sorted[p as int] == out@[p as int]@);
                }
                p += 1;
            }
            proof {
                if p < out@.len() {
                    assert(sorted[p as int] == out@[p as int]@);
                }
            }
            out.insert(p, file.clone());
            proof {
                assert(file_views(out@) =~= sorted.insert(p as int, file@));
            }
        }
        k += 1;
    }
    proof {
        assert(all.subrange(0, k as int) =~= all);
    }
    (out, next)
}

} // verus!
