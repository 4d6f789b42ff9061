//! Properties of the file system that span several operations.

use vstd::prelude::*;
use crate::fs::layout::{
    runs_upto, free_runs, first_fit, disk_len, disk_bits, block_of, entry_of,
    insert_outcome, FileView, lookup, readable, file_content, latin1, name_hash, free_slot_from,
    find_from, parse_entry, name_end, with_data, with_entry, meta_entry, saved, blocks_for, be16,
    utf8_width, kept, with_block, files_upto, files_on_disk, slot_holds_name, char_sum,
};
use crate::fs::block_device::{lemma_first_fit_in_range, lemma_first_fit_from_member};
use crate::fs::layout::lemma_char_sum_bound;
use crate::fs::file::{lemma_kept, lemma_width_step};
use vstd::utf8::{encode_utf8, is_ascii_chars, is_ascii_chars_encode_utf8, is_ascii_chars_nat_bound};

verus! {

/// The runs of the first `n` flags are free, maximal, ordered and cover every
/// free flag among them.
pub(crate) proof fn lemma_runs_upto_maximal(bits: Seq<bool>, n: int)
    requires
        0 <= n <= bits.len(),
    ensures
        ({
            let runs = runs_upto(bits, n);
            &&& forall|k: int|
                0 <= k < runs.len() ==> {
                    &&& 0 <= #[trigger] runs[k].0
                    &&& 1 <= runs[k].1
                    &&& runs[k].0 + runs[k].1 <= n
                    &&& forall|j: int| runs[k].0 <= j < runs[k].0 + runs[k].1 ==> !bits[j]
                    &&& runs[k].0 == 0 || bits[runs[k].0 - 1]
                    &&& runs[k].0 + runs[k].1 == n || bits[runs[k].0 + runs[k].1]
                }
            &&& forall|k: int, l: int|
                0 <= k < l < runs.len() ==> #[trigger] runs[k].0 + runs[k].1 < #[trigger] runs[l].0
            &&& forall|j: int|
                0 <= j < n && !bits[j] ==> exists|k: int|
                    0 <= k < runs.len() && #[trigger] runs[k].0 <= j < runs[k].0 + runs[k].1
        }),
        n >= 1 && !bits[n - 1] ==> runs_upto(bits, n).len() > 0 && runs_upto(bits, n).last().0
            + runs_upto(bits, n).last().1 == n,
    decreases n,
{
    if n > 0 {
        lemma_runs_upto_maximal(bits, n - 1);
        let prev = runs_upto(bits, n - 1);
        let runs = runs_upto(bits, n);
        if bits[n - 1] {
            assert forall|k: int| 0 <= k < runs.len() implies {
                &&& 0 <= #[trigger] runs[k].0
                &&& 1 <= runs[k].1
                &&& runs[k].0 + runs[k].1 <= n
                &&& forall|j: int| runs[k].0 <= j < runs[k].0 + runs[k].1 ==> !bits[j]
                &&& runs[k].0 == 0 || bits[runs[k].0 - 1]
                &&& runs[k].0 + runs[k].1 == n || bits[runs[k].0 + runs[k].1]
            } by {
                if runs[k].0 + runs[k].1 == n - 1 {
                } else {
                }
            }
            assert forall|j: int| 0 <= j < n && !bits[j] implies exists|k: int|
                0 <= k < runs.len() && #[trigger] runs[k].0 <= j < runs[k].0 + runs[k].1 by {
                assert(j < n - 1);
            }
        } else if n >= 2 && !bits[n - 2] {
            let last = prev.len() - 1;
            assert forall|k: int| 0 <= k < runs.len() implies {
                &&& 0 <= #[trigger] runs[k].0
                &&& 1 <= runs[k].1
                &&& runs[k].0 + runs[k].1 <= n
                &&& forall|j: int| runs[k].0 <= j < runs[k].0 + runs[k].1 ==> !bits[j]
                &&& runs[k].0 == 0 || bits[runs[k].0 - 1]
                &&& runs[k].0 + runs[k].1 == n || bits[runs[k].0 + runs[k].1]
            } by {
                if k < last {
                    assert(runs[k] == prev[k]);
                    assert(prev[k].0 + prev[k].1 < prev[last].0);
                    assert(prev[k].0 + prev[k].1 != n - 1);
                } else {
                    assert(runs[k] == (prev[last].0, prev[last].1 + 1));
                }
            }
            assert forall|k: int, l: int| 0 <= k < l < runs.len() implies #[trigger] runs[k].0
                + runs[k].1 < #[trigger] runs[l].0 by {
                assert(runs[k] == prev[k]);
                assert(runs[l].0 == prev[l].0);
            }
            assert forall|j: int| 0 <= j < n && !bits[j] implies exists|k: int|
                0 <= k < runs.len() && #[trigger] runs[k].0 <= j < runs[k].0 + runs[k].1 by {
                if j == n - 1 {
                    assert(runs[last].0 <= j < runs[last].0 + runs[last].1);
                } else {
                    let k = choose|k: int|
                        0 <= k < prev.len() && #[trigger] prev[k].0 <= j < prev[k].0 + prev[k].1;
                    if k < last {
                        assert(runs[k] == prev[k]);
                    } else {
                        assert(runs[last].0 <= j < runs[last].0 + runs[last].1);
                    }
                }
            }
        } else {
            assert forall|k: int| 0 <= k < runs.len() implies {
                &&& 0 <= #[trigger] runs[k].0
                &&& 1 <= runs[k].1
                &&& runs[k].0 + runs[k].1 <= n
                &&& forall|j: int| runs[k].0 <= j < runs[k].0 + runs[k].1 ==> !bits[j]
                &&& runs[k].0 == 0 || bits[runs[k].0 - 1]
                &&& runs[k].0 + runs[k].1 == n || bits[runs[k].0 + runs[k].1]
            } by {
                if k < prev.len() {
                    assert(runs[k] == prev[k]);
                    if prev[k].0 + prev[k].1 == n - 1 {
                        assert(prev.len() > 0 && prev.last().0 + prev.last().1 == n - 1 ==> false);
                    }
                }
            }
            assert forall|k: int, l: int| 0 <= k < l < runs.len() implies #[trigger] runs[k].0
                + runs[k].1 < #[trigger] runs[l].0 by {
                assert(runs[k] == prev[k]);
                if l < prev.len() {
                    assert(runs[l] == prev[l]);
                }
            }
            assert forall|j: int| 0 <= j < n && !bits[j] implies exists|k: int|
                0 <= k < runs.len() && #[trigger] runs[k].0 <= j < runs[k].0 + runs[k].1 by {
                if j == n - 1 {
                    assert(runs[prev.len() as int].0 <= j);
                } else {
                    let k = choose|k: int|
                        0 <= k < prev.len() && #[trigger] prev[k].0 <= j < prev[k].0 + prev[k].1;
                    assert(runs[k] == prev[k]);
                }
            }
        }
    }
}

/// Law: the free runs of the bitmap are exactly its maximal runs of free
/// blocks, in increasing order: each run is non-empty, lies on the disk, is
/// all free, and is bounded by used blocks or the disk's ends; every free
/// block lies in a run.
pub proof fn free_runs_are_maximal(bits: Seq<bool>)
    requires
        bits.len() == 4096,
    ensures
        ({
            let runs = free_runs(bits);
            &&& forall|k: int|
                0 <= k < runs.len() ==> {
                    &&& 0 <= #[trigger] runs[k].0
                    &&& 1 <= runs[k].1
                    &&& runs[k].0 + runs[k].1 <= 4096
                    &&& forall|j: int| runs[k].0 <= j < runs[k].0 + runs[k].1 ==> !bits[j]
                    &&& runs[k].0 == 0 || bits[runs[k].0 - 1]
                    &&& runs[k].0 + runs[k].1 == 4096 || bits[runs[k].0 + runs[k].1]
                }
            &&& forall|k: int, l: int|
                0 <= k < l < runs.len() ==> #[trigger] runs[k].0 + runs[k].1 < #[trigger] runs[l].0
            &&& forall|j: int|
                0 <= j < 4096 && !bits[j] ==> exists|k: int|
                    0 <= k < runs.len() && #[trigger] runs[k].0 <= j < runs[k].0 + runs[k].1
        }),
{
    lemma_runs_upto_maximal(bits, 4096);
    let runs = free_runs(bits);
    assert(runs == runs_upto(bits, 4096));
    assert forall|k: int| 0 <= k < runs.len() implies {
        &&& 0 <= #[trigger] runs[k].0
        &&& 1 <= runs[k].1
        &&& runs[k].0 + runs[k].1 <= 4096
        &&& forall|j: int| runs[k].0 <= j < runs[k].0 + runs[k].1 ==> !bits[j]
        &&& runs[k].0 == 0 || bits[runs[k].0 - 1]
        &&& runs[k].0 + runs[k].1 == 4096 || bits[runs[k].0 + runs[k].1]
    } by {
        assert(0 <= runs[k].0);
    }
    assert forall|j: int| 0 <= j < 4096 && !bits[j] implies exists|k: int|
        0 <= k < runs.len() && #[trigger] runs[k].0 <= j < runs[k].0 + runs[k].1 by {
        assert(0 <= j < 4096 && !bits[j]);
    }
}

/// Law: the blocks a created file is given were all free, and are marked as
/// used afterwards; when they do not include the bitmap block itself, no other
/// block's flag changes; when blocks 0 to 255 are marked as used, the file's
/// blocks lie past them.
pub proof fn created_file_takes_free_blocks(
    old: Seq<u8>,
    new: Seq<u8>,
    name: Seq<char>,
    c: Seq<u8>,
    f: FileView,
)
    requires
        old.len() == disk_len(),
        insert_outcome(old, new, name, c, Some(f)),
    ensures
        forall|j: int|
            f.block_index <= j < f.block_index + f.block_count ==> !(#[trigger] disk_bits(old)[j])
                && disk_bits(new)[j],
        !(f.block_index <= 255 < f.block_index + f.block_count) ==> forall|j: int|
            0 <= j < 4096 && !(f.block_index <= j < f.block_index + f.block_count) ==> (
            #[trigger] disk_bits(new)[j]) == disk_bits(old)[j],
        (forall|j: int| 0 <= j < 256 ==> #[trigger] disk_bits(old)[j]) ==> f.block_index >= 256,
{
    let bits = disk_bits(old);
    let runs = free_runs(bits);
    let run = first_fit(runs, f.block_count).unwrap();
    free_runs_are_maximal(bits);
    lemma_first_fit_from_member(runs, f.block_count, 0);
    let m = choose|m: int| 0 <= m < runs.len() && runs[m] == run && run.1 > f.block_count;
    assert(runs[m].0 == f.block_index);
    assert forall|j: int| f.block_index <= j < f.block_index + f.block_count implies !(
    #[trigger] disk_bits(old)[j]) && disk_bits(new)[j] by {
        assert(runs[m].0 <= j < runs[m].0 + runs[m].1);
    }
    assert(f.block_count >= 1);
    assert(!disk_bits(old)[f.block_index]);
    if !(f.block_index <= 255 < f.block_index + f.block_count) {
        let mid = saved(old, f, c);
        let h = name_hash(f.name);
        assert(block_of(mid, 255) =~= block_of(old, 255));
        assert(disk_bits(mid) =~= disk_bits(old));
    }
}

/// Every file an entry before `n` describes is among those listed up to `n`.
proof fn lemma_listed_upto(d: Seq<u8>, n: int, k: int, f: FileView)
    requires
        0 <= k < n,
        parse_entry(entry_of(d, k)) == Some(f),
    ensures
        files_upto(d, n).contains(f),
    decreases n,
{
    if k == n - 1 {
        assert(files_upto(d, n).last() == f);
    } else {
        lemma_listed_upto(d, n - 1, k, f);
        let i = choose|i: int| 0 <= i < files_upto(d, n - 1).len() && #[trigger] files_upto(d, n - 1)[i] == f;
        match parse_entry(entry_of(d, n - 1)) {
            Some(g) => assert(files_upto(d, n)[i] == f),
            None => {},
        }
    }
}

/// What `find_from` finds is described by one of the bucket's entries.
proof fn lemma_found_in_bucket(d: Seq<u8>, bucket: int, name: Seq<char>, j: int)
    requires
        0 <= j,
    ensures
        find_from(d, bucket, name, j) matches Some(f) ==> exists|k: int|
            j <= k < 16 && #[trigger] parse_entry(entry_of(d, bucket * 16 + k)) == Some(f),
    decreases 16 - j,
{
    if j < 16 {
        lemma_found_in_bucket(d, bucket, name, j + 1);
    }
}

/// Law: a file found by its name is one of the files the disk lists.
pub proof fn found_file_is_listed(d: Seq<u8>, name: Seq<char>)
    ensures
        lookup(d, name) matches Some(f) ==> files_on_disk(d).contains(f),
{
    let h = name_hash(name);
    lemma_found_in_bucket(d, h, name, 0);
    if let Some(f) = lookup(d, name) {
        let k = choose|k: int| 0 <= k < 16 && #[trigger] parse_entry(entry_of(d, h * 16 + k)) == Some(f);
        assert(0 <= h < 255);
        lemma_listed_upto(d, 255int * 16, h * 16 + k, f);
    }
}

/// `find_from` finds something exactly when a slot from `j` on holds the name.
proof fn lemma_find_iff_slot(d: Seq<u8>, bucket: int, name: Seq<char>, j: int)
    requires
        0 <= j,
    ensures
        find_from(d, bucket, name, j) is Some <==> exists|k: int|
            j <= k < 16 && #[trigger] slot_holds_name(d, bucket, k, name),
    decreases 16 - j,
{
    if j < 16 {
        lemma_find_iff_slot(d, bucket, name, j + 1);
        if find_from(d, bucket, name, j) is Some && !slot_holds_name(d, bucket, j, name) {
            let k = choose|k: int| j + 1 <= k < 16 && #[trigger] slot_holds_name(d, bucket, k, name);
            assert(j <= k < 16);
        }
        if exists|k: int| j <= k < 16 && #[trigger] slot_holds_name(d, bucket, k, name) {
            let k = choose|k: int| j <= k < 16 && #[trigger] slot_holds_name(d, bucket, k, name);
            if k > j {
                assert(j + 1 <= k < 16);
            }
        }
    }
}

/// Law: looking a name up succeeds exactly when some slot of the bucket the
/// name hashes to describes a file of that name.
pub proof fn lookup_finds_a_slot_with_the_name(d: Seq<u8>, name: Seq<char>)
    ensures
        lookup(d, name) is Some <==> exists|k: int|
            0 <= k < 16 && #[trigger] slot_holds_name(d, name_hash(name), k, name),
{
    lemma_find_iff_slot(d, name_hash(name), name, 0);
}

/// Removing character `i` takes its code point off the sum.
proof fn lemma_char_sum_remove(t: Seq<char>, i: int)
    requires
        0 <= i < t.len(),
    ensures
        char_sum(t) == char_sum(t.remove(i)) + (t[i] as u32 as int),
    decreases t.len(),
{
    if i == t.len() - 1 {
        assert(t.remove(i) =~= t.drop_last());
    } else {
        lemma_char_sum_remove(t.drop_last(), i);
        assert(t.remove(i).drop_last() =~= t.drop_last().remove(i));
        assert(t.remove(i).last() == t.last());
    }
}

/// Law: the code-point sum of a name, and so its bucket, does not depend on
/// the order of its characters.
pub proof fn char_sum_ignores_order(s: Seq<char>, t: Seq<char>)
    requires
        s.to_multiset() == t.to_multiset(),
    ensures
        char_sum(s) == char_sum(t),
        name_hash(s) == name_hash(t),
    decreases s.len(),
{
    broadcast use vstd::seq_lib::group_to_multiset_ensures;

    if s.len() == 0 {
        assert(t.to_multiset().len() == 0);
        assert(t.len() == 0);
    } else {
        let x = s.last();
        let rest = s.drop_last();
        assert(rest.push(x) =~= s);
        assert(s.to_multiset() =~= rest.to_multiset().insert(x));
        assert(t.to_multiset().count(x) > 0);
        assert(t.contains(x));
        let i = choose|i: int| 0 <= i < t.len() && t[i] == x;
        assert(t.remove(i).to_multiset() =~= t.to_multiset().remove(x));
        assert(rest.to_multiset() =~= t.remove(i).to_multiset());
        char_sum_ignores_order(rest, t.remove(i));
        lemma_char_sum_remove(t, i);
    }
}

/// Law: reading a block gives back what was last written to it, and writing a
/// block leaves every other block as it was.
pub proof fn written_block_reads_back(d: Seq<u8>, b: int, data: Seq<u8>, other: int)
    requires
        d.len() == disk_len(),
        0 <= b < 4096,
        0 <= other < 4096,
        other != b,
        data.len() == 512,
    ensures
        block_of(with_block(d, b, data), b) == data,
        block_of(with_block(d, b, data), other) == block_of(d, other),
{
    assert(block_of(with_block(d, b, data), b) =~= data);
    assert(block_of(with_block(d, b, data), other) =~= block_of(d, other));
}

/// Law: once a file has been created under the conditions of
/// [`created_file_reads_back`], creating another file under the same name
/// fails and changes nothing.
pub proof fn second_create_of_a_name_fails(
    old: Seq<u8>,
    mid: Seq<u8>,
    new: Seq<u8>,
    name: Seq<char>,
    content: Seq<char>,
    f: FileView,
    other: Seq<u8>,
    r: Option<FileView>,
)
    requires
        old.len() == disk_len(),
        insert_outcome(old, mid, name, encode_utf8(content), Some(f)),
        is_ascii_chars(name),
        forall|i: int| 0 <= i < name.len() ==> #[trigger] name[i] != '\0',
        name.len() <= 26,
        is_ascii_chars(content),
        content.len() < 65536,
        f.block_index > 255,
        free_slot_from(block_of(old, name_hash(name)), 0) < 16,
        insert_outcome(mid, new, name, other, r),
    ensures
        r is None,
        new == mid,
{
    created_file_reads_back(old, mid, name, content, f);
}

/// ASCII characters survive being stored as bytes and read back one for one.
proof fn lemma_ascii_bytes(s: Seq<char>)
    requires
        is_ascii_chars(s),
    ensures
        encode_utf8(s).len() == s.len(),
        forall|i: int|
            0 <= i < s.len() ==> #[trigger] encode_utf8(s)[i] < 128 && encode_utf8(s)[i] == s[i] as u8,
        latin1(encode_utf8(s)) == s,
{
    is_ascii_chars_encode_utf8(s);
    is_ascii_chars_nat_bound(s);
    assert forall|i: int| 0 <= i < s.len() implies #[trigger] encode_utf8(s)[i] < 128
        && encode_utf8(s)[i] == s[i] as u8 && (encode_utf8(s)[i] as char) == s[i] by {
        assert((s[i] as nat) < 128);
    }
    assert(latin1(encode_utf8(s)) =~= s);
}

/// Bytes below 128 each take one byte of UTF-8, so a cut at `n` bytes keeps
/// exactly `n` of them.
proof fn lemma_small_bytes_width(bs: Seq<u8>, n: int)
    requires
        forall|i: int| 0 <= i < bs.len() ==> #[trigger] bs[i] < 128,
        0 <= n <= bs.len(),
    ensures
        forall|k: int| 0 <= k <= bs.len() ==> #[trigger] utf8_width(bs.take(k)) == k,
        kept(bs, n) == n,
{
    assert forall|k: int| 0 <= k <= bs.len() implies #[trigger] utf8_width(bs.take(k)) == k by {
        lemma_small_prefix_width(bs, k);
    }
    if n < bs.len() {
        lemma_width_step(bs, n);
    }
    lemma_kept(bs, n, n);
}

proof fn lemma_small_prefix_width(bs: Seq<u8>, k: int)
    requires
        forall|i: int| 0 <= i < bs.len() ==> #[trigger] bs[i] < 128,
        0 <= k <= bs.len(),
    ensures
        utf8_width(bs.take(k)) == k,
    decreases k,
{
    if k == 0 {
        assert(bs.take(0) =~= Seq::<u8>::empty());
    } else {
        lemma_small_prefix_width(bs, k - 1);
        lemma_width_step(bs, k - 1);
    }
}

/// A name of nonzero bytes followed by a zero (or the entry's end) ends there.
proof fn lemma_name_end(m: Seq<u8>, i: int, e: int)
    requires
        6 <= i <= e <= m.len(),
        forall|k: int| i <= k < e ==> #[trigger] m[k] != 0,
        e == m.len() || m[e] == 0,
    ensures
        name_end(m, i) == e,
    decreases e - i,
{
    if i < e {
        lemma_name_end(m, i + 1, e);
    }
}

/// The free slot found from `j` on is at or after `j`, and at most 16.
proof fn lemma_free_slot_range(blk: Seq<u8>, j: int)
    requires
        0 <= j,
    ensures
        j <= free_slot_from(blk, j) <= 16 || (j > 16 && free_slot_from(blk, j) == 16),
    decreases 16 - j,
{
    if j < 16 {
        lemma_free_slot_range(blk, j + 1);
    }
}

/// Slots that did not match before and are unchanged still do not match.
proof fn lemma_find_skips(
    old: Seq<u8>,
    new: Seq<u8>,
    bucket: int,
    name: Seq<char>,
    from: int,
    to: int,
)
    requires
        0 <= from <= to <= 16,
        find_from(old, bucket, name, from) is None,
        forall|j: int| from <= j < to ==> #[trigger] entry_of(new, bucket * 16 + j) == entry_of(old, bucket * 16 + j),
    ensures
        find_from(new, bucket, name, from) == find_from(new, bucket, name, to),
    decreases to - from,
{
    if from < to {
        lemma_find_skips(old, new, bucket, name, from + 1, to);
    }
}

/// Disks whose bucket blocks agree find the same files from slot `j` on.
proof fn lemma_find_same_bucket(d1: Seq<u8>, d2: Seq<u8>, bucket: int, name: Seq<char>, j: int)
    requires
        0 <= bucket < 255,
        0 <= j,
        d1.len() == disk_len(),
        d2.len() == disk_len(),
        block_of(d1, bucket) == block_of(d2, bucket),
    ensures
        find_from(d1, bucket, name, j) == find_from(d2, bucket, name, j),
    decreases 16 - j,
{
    if j < 16 {
        assert(entry_of(d1, bucket * 16 + j) =~= entry_of(d2, bucket * 16 + j)) by {
            assert forall|q: int| 0 <= q < 32 implies #[trigger] entry_of(d1, bucket * 16 + j)[q]
                == entry_of(d2, bucket * 16 + j)[q] by {
                assert(block_of(d1, bucket)[j * 32 + q] == block_of(d2, bucket)[j * 32 + q]);
                assert(entry_of(d1, bucket * 16 + j)[q] == d1[bucket * 512 + j * 32 + q]);
                assert(entry_of(d2, bucket * 16 + j)[q] == d2[bucket * 512 + j * 32 + q]);
                assert(block_of(d1, bucket)[j * 32 + q] == d1[bucket * 512 + j * 32 + q]);
                assert(block_of(d2, bucket)[j * 32 + q] == d2[bucket * 512 + j * 32 + q]);
            }
        }
        lemma_find_same_bucket(d1, d2, bucket, name, j + 1);
    }
}

/// Law: after `save_file_data` has stored a file (its name ASCII, without
/// zero characters and at most 26 bytes; its blocks past the metadata and
/// bitmap blocks and on the disk; its block count and length below 65536) on
/// a disk that did not list the name, into a bucket with a free slot, looking
/// the name up finds exactly that file.
pub proof fn saved_file_is_found(d: Seq<u8>, f: FileView, c: Seq<u8>)
    requires
        d.len() == disk_len(),
        lookup(d, f.name) is None,
        is_ascii_chars(f.name),
        forall|i: int| 0 <= i < f.name.len() ==> #[trigger] f.name[i] != '\0',
        f.name.len() <= 26,
        255 < f.block_index,
        f.block_index + f.block_count <= 4096,
        0 <= f.block_count < 65536,
        0 <= f.u8_length < 65536,
        free_slot_from(block_of(d, name_hash(f.name)), 0) < 16,
    ensures
        lookup(saved(d, f, c), f.name) == Some(f),
{
    let name = f.name;
    lemma_ascii_bytes(name);
    lemma_char_sum_bound(name);
    let nb = encode_utf8(name);
    let bi = f.block_index;
    let bc = f.block_count;
    let len = f.u8_length;
    let h = name_hash(name);
    assert(0 <= h < 255);
    let d1 = with_data(d, bi, bc, c);
    let meta = meta_entry(bi, bc, len, nb);
    let j = free_slot_from(block_of(d1, h), 0);
    assert(block_of(d1, h) =~= block_of(d, h));
    let mid = saved(d, f, c);
    assert(mid == with_entry(d1, h, meta));
    lemma_free_slot_range(block_of(d1, h), 0);
    assert(0 <= j < 16);
    assert(entry_of(mid, h * 16 + j) =~= meta);
    assert forall|k: int| 0 <= k < j implies #[trigger] entry_of(mid, h * 16 + k) == entry_of(
        d,
        h * 16 + k,
    ) by {
        assert(entry_of(mid, h * 16 + k) =~= entry_of(d, h * 16 + k));
    }
    lemma_find_skips(d, mid, h, name, 0, j);
    assert(be16(meta, 0) == bi);
    assert(be16(meta, 2) == bc);
    assert(be16(meta, 4) == len);
    lemma_name_end(meta, 6, 6 + nb.len() as int);
    assert(meta.subrange(6, 6 + nb.len() as int) =~= nb);
    assert(parse_entry(meta) == Some(f));
}

/// The contents of a file whose blocks lie past the bitmap block read back
/// from the disk its creation left, when they are ASCII.
proof fn lemma_data_reads_back(
    old: Seq<u8>,
    new: Seq<u8>,
    name: Seq<char>,
    content: Seq<char>,
    f: FileView,
)
    requires
        old.len() == disk_len(),
        insert_outcome(old, new, name, encode_utf8(content), Some(f)),
        is_ascii_chars(content),
        f.block_index > 255,
    ensures
        readable(new, f),
        file_content(new, f) == content,
{
    lemma_ascii_bytes(content);
    let c = encode_utf8(content);
    let len = c.len() as int;
    let bi = f.block_index;
    let bc = f.block_count;
    lemma_first_fit_in_range(disk_bits(old), blocks_for(len));
    assert(bi + bc <= 4096);
    let d1 = with_data(old, bi, bc, c);
    let mid = saved(old, f, c);
    lemma_char_sum_bound(name);
    let h = name_hash(name);
    assert(0 <= h < 255);
    let last = block_of(new, bi + bc - 1);
    let n = len - (bc - 1) * 512;
    assert forall|i: int| 0 <= i < 512 implies #[trigger] last[i] < 128 by {
        let p = (bi + bc - 1) * 512 + i;
        assert(new[p] == mid[p]);
        assert(last[i] == d1[p]);
    }
    lemma_small_bytes_width(last, n);
    assert(utf8_width(last.take(n)) == n);
    assert forall|p: int| bi * 512 <= p < (bi + bc) * 512 implies #[trigger] new[p] == d1[p] by {
        assert(new[p] == mid[p]);
    }
    assert(latin1(new.subrange(bi * 512, (bi + bc - 1) * 512)) + latin1(last.take(n)) =~= content);
}

/// Law: when the metadata and bitmap blocks (0 to 255) are marked as used, as
/// after formatting, a file created with ASCII contents gets blocks past
/// them, can be read, and reading it gives back exactly its contents.
pub proof fn inserted_file_reads_back(
    old: Seq<u8>,
    new: Seq<u8>,
    name: Seq<char>,
    content: Seq<char>,
    f: FileView,
)
    requires
        old.len() == disk_len(),
        insert_outcome(old, new, name, encode_utf8(content), Some(f)),
        is_ascii_chars(content),
        forall|j: int| 0 <= j < 256 ==> #[trigger] disk_bits(old)[j],
    ensures
        f.block_index >= 256,
        readable(new, f),
        file_content(new, f) == content,
{
    created_file_takes_free_blocks(old, new, name, encode_utf8(content), f);
    lemma_first_fit_in_range(disk_bits(old), blocks_for(encode_utf8(content).len() as int));
    assert(!disk_bits(old)[f.block_index]);
    if f.block_index < 256 {
        assert(disk_bits(old)[f.block_index]);
    }
    lemma_data_reads_back(old, new, name, content, f);
}

/// Law: a file created with an ASCII name of no zero characters and at most
/// 26 bytes, with ASCII contents of fewer than 65536 bytes, in blocks past
/// the metadata and bitmap blocks, into a bucket with a free slot, is found
/// by its name afterwards, and reading it gives back exactly its contents.
pub proof fn created_file_reads_back(
    old: Seq<u8>,
    new: Seq<u8>,
    name: Seq<char>,
    content: Seq<char>,
    f: FileView,
)
    requires
        old.len() == disk_len(),
        insert_outcome(old, new, name, encode_utf8(content), Some(f)),
        is_ascii_chars(name),
        forall|i: int| 0 <= i < name.len() ==> #[trigger] name[i] != '\0',
        name.len() <= 26,
        is_ascii_chars(content),
        content.len() < 65536,
        f.block_index > 255,
        free_slot_from(block_of(old, name_hash(name)), 0) < 16,
    ensures
        lookup(new, name) == Some(f),
        readable(new, f),
        file_content(new, f) == content,
{
    lemma_ascii_bytes(content);
    let c = encode_utf8(content);
    lemma_first_fit_in_range(disk_bits(old), blocks_for(c.len() as int));
    saved_file_is_found(old, f, c);
    let mid = saved(old, f, c);
    lemma_char_sum_bound(name);
    let h = name_hash(name);
    assert(block_of(new, h) =~= block_of(mid, h)) by {
        assert forall|q: int| 0 <= q < 512 implies #[trigger] block_of(new, h)[q] == block_of(
            mid,
            h,
        )[q] by {
            assert(new[h * 512 + q] == mid[h * 512 + q]);
        }
    }
    lemma_find_same_bucket(new, mid, h, name, 0);
    lemma_data_reads_back(old, new, name, content, f);
}

} // verus!
