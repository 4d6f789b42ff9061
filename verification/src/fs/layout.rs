//! The on-disk layout, as mathematical functions of the disk's bytes.
//!
//! The disk is one byte sequence of `BLOCK_NUM * BLOCK_SIZE` bytes. Blocks
//! `0 .. SUPER_BLOCKS_NUM` hold 32-byte metadata entries (16 per block); block
//! `UNUSED_BLOCKS_BITMAP_INDEX` holds the allocation bitmap, one bit per block.

use vstd::prelude::*;
use crate::fs::block_device::bitmap_bit;
use vstd::utf8::encode_utf8;

verus! {

/// Size of the whole disk in bytes.
pub open spec fn disk_len() -> int {
    4096int * 512
}

/// Bytes of block `b` of the disk `d`.
pub open spec fn block_of(d: Seq<u8>, b: int) -> Seq<u8> {
    d.subrange(b * 512, b * 512 + 512)
}

/// The disk `d` after block `b` has been overwritten by `data` (512 bytes).
pub open spec fn with_block(d: Seq<u8>, b: int, data: Seq<u8>) -> Seq<u8> {
    Seq::new(d.len(), |p: int| if b * 512 <= p < b * 512 + 512 { data[p - b * 512] } else { d[p] })
}

/// The `k`-th 32-byte metadata entry, counting entries over consecutive blocks.
pub open spec fn entry_of(d: Seq<u8>, k: int) -> Seq<u8> {
    d.subrange(k * 32, k * 32 + 32)
}

/// What a file's metadata says, as mathematical values.
pub struct FileView {
    pub block_index: int,
    pub name: Seq<char>,
    pub block_count: int,
    pub u8_length: int,
}

/// A big-endian 16-bit number stored at `m[i]`, `m[i + 1]`.
pub open spec fn be16(m: Seq<u8>, i: int) -> int {
    m[i] * 256 + m[i + 1]
}

/// Index one past the name that starts at `i`: the first zero byte at or after
/// `i`, or the end of the entry.
pub open spec fn name_end(m: Seq<u8>, i: int) -> int
    decreases m.len() - i,
{
    if i >= m.len() {
        m.len() as int
    } else if m[i] == 0 {
        i
    } else {
        name_end(m, i + 1)
    }
}

/// Bytes read as characters one for one (each byte is its own code point).
pub open spec fn latin1(bs: Seq<u8>) -> Seq<char> {
    Seq::new(bs.len(), |i: int| bs[i] as char)
}

/// The file an entry describes: entries whose block index is not past the
/// metadata blocks describe no file.
pub open spec fn parse_entry(m: Seq<u8>) -> Option<FileView> {
    if be16(m, 0) <= 255 {
        None
    } else {
        Some(
            FileView {
                block_index: be16(m, 0),
                name: latin1(m.subrange(6, name_end(m, 6))),
                block_count: be16(m, 2),
                u8_length: be16(m, 4),
            },
        )
    }
}

/// The files described by the first `n` metadata entries, in entry order.
pub open spec fn files_upto(d: Seq<u8>, n: int) -> Seq<FileView>
    decreases n,
{
    if n <= 0 {
        Seq::empty()
    } else {
        match parse_entry(entry_of(d, n - 1)) {
            Some(f) => files_upto(d, n - 1).push(f),
            None => files_upto(d, n - 1),
        }
    }
}

/// All files on the disk: those described by the entries of the metadata blocks.
pub open spec fn files_on_disk(d: Seq<u8>) -> Seq<FileView> {
    files_upto(d, 255int * 16)
}

/// Sum of the code points of `s`.
pub open spec fn char_sum(s: Seq<char>) -> int
    decreases s.len(),
{
    if s.len() == 0 {
        0
    } else {
        char_sum(s.drop_last()) + (s.last() as u32 as int)
    }
}

/// Code points are at most 0x10FFFF, so their sum is at most that many times
/// the number of characters.
pub proof fn lemma_char_sum_bound(s: Seq<char>)
    ensures
        0 <= char_sum(s) <= s.len() * 0x10FFFF,
    decreases s.len(),
{
    if s.len() > 0 {
        lemma_char_sum_bound(s.drop_last());
        vstd::utf8::char_is_scalar(s.last());
    }
}

/// No character takes more than four bytes of UTF-8.
pub proof fn lemma_encode_len(s: Seq<char>)
    ensures
        encode_utf8(s).len() <= 4 * s.len(),
    decreases s.len(),
{
    if s.len() > 0 {
        lemma_encode_len(s.drop_first());
    }
}

/// The metadata block (bucket) that holds the entry of a file named `s`.
pub open spec fn name_hash(s: Seq<char>) -> int {
    char_sum(s) % 255
}

/// Slot `j` of bucket `bucket` describes a file named `name`.
pub open spec fn slot_holds_name(d: Seq<u8>, bucket: int, j: int, name: Seq<char>) -> bool {
    parse_entry(entry_of(d, bucket * 16 + j)) matches Some(g) && g.name == name
}

/// The first file of bucket `bucket`, from slot `j` on, whose name is `name`.
pub open spec fn find_from(d: Seq<u8>, bucket: int, name: Seq<char>, j: int) -> Option<FileView>
    decreases 16 - j,
{
    if j >= 16 {
        None
    } else {
        match parse_entry(entry_of(d, bucket * 16 + j)) {
            Some(f) => if f.name == name {
                Some(f)
            } else {
                find_from(d, bucket, name, j + 1)
            },
            None => find_from(d, bucket, name, j + 1),
        }
    }
}

/// The file named `name`, looked up in the bucket its name hashes to.
pub open spec fn lookup(d: Seq<u8>, name: Seq<char>) -> Option<FileView> {
    find_from(d, name_hash(name), name, 0)
}

/// The allocation bitmap: one flag per block, set when the block is in use.
pub open spec fn disk_bits(d: Seq<u8>) -> Seq<bool> {
    Seq::new(4096, |j: int| bitmap_bit(block_of(d, 255), j))
}

/// The maximal runs of free blocks among the first `n` flags, as
/// (first block, number of blocks), in increasing order. A free flag either
/// lengthens the run that ends just before it or starts a new run.
pub open spec fn runs_upto(bits: Seq<bool>, n: int) -> Seq<(int, int)>
    decreases n,
{
    if n <= 0 {
        Seq::empty()
    } else if bits[n - 1] {
        runs_upto(bits, n - 1)
    } else {
        let prev = runs_upto(bits, n - 1);
        if n >= 2 && !bits[n - 2] {
            prev.update(prev.len() - 1, (prev.last().0, prev.last().1 + 1))
        } else {
            prev.push((n - 1, 1))
        }
    }
}

/// The maximal runs of free blocks of the whole bitmap.
pub open spec fn free_runs(bits: Seq<bool>) -> Seq<(int, int)> {
    runs_upto(bits, 4096)
}

/// The disk after the bytes `c` have been written into blocks
/// `[bi, bi + bc)`, the rest of the last block filled with zeros.
pub open spec fn with_data(d: Seq<u8>, bi: int, bc: int, c: Seq<u8>) -> Seq<u8> {
    Seq::new(
        d.len(),
        |p: int|
            if bi * 512 <= p < (bi + bc) * 512 {
                if p - bi * 512 < c.len() {
                    c[p - bi * 512]
                } else {
                    0u8
                }
            } else {
                d[p]
            },
    )
}

/// The 32-byte metadata entry of a file: first block, block count and byte
/// length as big-endian 16-bit numbers (each kept modulo 65536), then the
/// name's bytes, then zeros.
pub open spec fn meta_entry(bi: int, bc: int, len: int, name: Seq<u8>) -> Seq<u8> {
    Seq::new(
        32,
        |k: int|
            if k == 0 {
                ((bi / 256) % 256) as u8
            } else if k == 1 {
                (bi % 256) as u8
            } else if k == 2 {
                ((bc / 256) % 256) as u8
            } else if k == 3 {
                (bc % 256) as u8
            } else if k == 4 {
                ((len / 256) % 256) as u8
            } else if k == 5 {
                (len % 256) as u8
            } else if 6 <= k < 6 + name.len() {
                name[k - 6]
            } else {
                0u8
            },
    )
}

/// The first slot of a metadata block, from slot `j` on, whose first-block
/// field is zero (a slot free for a new entry); 16 when there is none.
pub open spec fn free_slot_from(blk: Seq<u8>, j: int) -> int
    decreases 16 - j,
{
    if j >= 16 {
        16
    } else if blk[j * 32] == 0 && blk[j * 32 + 1] == 0 {
        j
    } else {
        free_slot_from(blk, j + 1)
    }
}

/// The disk after `meta` has been stored in the first free slot of block
/// `bucket`; unchanged when the block has no free slot.
pub open spec fn with_entry(d: Seq<u8>, bucket: int, meta: Seq<u8>) -> Seq<u8> {
    let j = free_slot_from(block_of(d, bucket), 0);
    if j < 16 {
        let start = bucket * 512 + j * 32;
        Seq::new(d.len(), |p: int| if start <= p < start + 32 { meta[p - start] } else { d[p] })
    } else {
        d
    }
}

/// The disk after a file's data and then its metadata entry have been saved.
pub open spec fn saved(d: Seq<u8>, f: FileView, c: Seq<u8>) -> Seq<u8> {
    with_entry(
        with_data(d, f.block_index, f.block_count, c),
        name_hash(f.name),
        meta_entry(f.block_index, f.block_count, f.u8_length, encode_utf8(f.name)),
    )
}

/// `new` is `old` after the file `f` with contents `c` has been saved and its
/// blocks marked as used in the bitmap.
pub open spec fn inserted(old: Seq<u8>, new: Seq<u8>, f: FileView, c: Seq<u8>) -> bool {
    let mid = saved(old, f, c);
    &&& new.len() == old.len()
    &&& forall|p: int|
        0 <= p < old.len() && !(255 * 512 <= p < 256 * 512) ==> #[trigger] new[p] == mid[p]
    &&& disk_bits(new) == Seq::new(
        4096,
        |j: int| (f.block_index <= j < f.block_index + f.block_count) || disk_bits(mid)[j],
    )
}

/// Whether creating a file named `name` holding the bytes `c` on disk `d` runs
/// without a failed check: the name's code points add up within a machine word
/// whenever the name gets hashed, and a name that gets stored fits in its entry.
pub open spec fn insert_allowed(d: Seq<u8>, name: Seq<char>, c: Seq<u8>) -> bool {
    let fit = first_fit(free_runs(disk_bits(d)), blocks_for(c.len() as int));
    &&& c.len() <= usize::MAX
    &&& fit is Some ==> char_sum(name) <= usize::MAX
    &&& fit is Some && lookup(d, name) is None ==> encode_utf8(name).len() <= 26
}

/// The outcome of creating a file named `name` holding the bytes `c` on disk
/// `old`, leaving disk `new` and the created file's metadata `r` (`None` on
/// failure). It fails, changing nothing, exactly when no free run has more
/// blocks than the file needs or the name is already listed; otherwise the
/// file gets the start of the first such run.
pub open spec fn insert_outcome(
    old: Seq<u8>,
    new: Seq<u8>,
    name: Seq<char>,
    c: Seq<u8>,
    r: Option<FileView>,
) -> bool {
    let len = c.len() as int;
    let fit = first_fit(free_runs(disk_bits(old)), blocks_for(len));
    match r {
        None => new == old && (fit is None || lookup(old, name) is Some),
        Some(f) => {
            &&& fit is Some
            &&& lookup(old, name) is None
            &&& f == FileView {
                block_index: fit.unwrap().0,
                name: name,
                block_count: blocks_for(len),
                u8_length: len,
            }
            &&& inserted(old, new, f, c)
        },
    }
}

/// UTF-8 length of a byte read as the character with that code point.
pub open spec fn char_width(b: u8) -> int {
    if b < 128 {
        1
    } else {
        2
    }
}

/// UTF-8 length of the bytes `bs` read as characters one for one.
pub open spec fn utf8_width(bs: Seq<u8>) -> int
    decreases bs.len(),
{
    if bs.len() == 0 {
        0
    } else {
        utf8_width(bs.drop_last()) + char_width(bs.last())
    }
}

/// Number of leading bytes of `bs` kept when their characters are cut down to
/// at most `n` bytes of UTF-8: the longest prefix whose UTF-8 length is at most `n`.
pub open spec fn kept(bs: Seq<u8>, n: int) -> int
    decreases bs.len(),
{
    if bs.len() == 0 || utf8_width(bs) <= n {
        bs.len() as int
    } else {
        kept(bs.drop_last(), n)
    }
}

/// Cutting the characters of `bs` down to `n` bytes of UTF-8 is possible:
/// `n` is past their end or falls between two characters.
pub open spec fn truncation_ok(bs: Seq<u8>, n: int) -> bool {
    n >= utf8_width(bs) || exists|k: int| 0 <= k <= bs.len() && #[trigger] utf8_width(bs.take(k)) == n
}

/// The file `f` can be read from disk `d`: its blocks lie on the disk, its byte
/// length reaches into its last block, and that length cuts the last block's
/// characters between two of them.
pub open spec fn readable(d: Seq<u8>, f: FileView) -> bool {
    &&& 0 <= f.block_index
    &&& f.block_index + f.block_count <= 4096
    &&& f.block_count >= 1 ==> {
        &&& f.u8_length >= (f.block_count - 1) * 512
        &&& truncation_ok(
            block_of(d, f.block_index + f.block_count - 1),
            f.u8_length - (f.block_count - 1) * 512,
        )
    }
}

/// The characters read back for file `f`: each byte of its blocks becomes one
/// character, and those of the last block are cut down to what is left of
/// `u8_length` bytes of UTF-8.
pub open spec fn file_content(d: Seq<u8>, f: FileView) -> Seq<char> {
    if f.block_count <= 0 {
        Seq::empty()
    } else {
        let last = block_of(d, f.block_index + f.block_count - 1);
        latin1(d.subrange(f.block_index * 512, (f.block_index + f.block_count - 1) * 512))
            + latin1(last.take(kept(last, f.u8_length - (f.block_count - 1) * 512)))
    }
}

/// Number of blocks a file of `len` bytes is given.
pub open spec fn blocks_for(len: int) -> int {
    len / 512 + 1
}

/// The first run, from position `k` on, with more than `count` blocks.
pub open spec fn first_fit_from(runs: Seq<(int, int)>, count: int, k: int) -> Option<(int, int)>
    decreases runs.len() - k,
{
    if k >= runs.len() {
        None
    } else if runs[k].1 > count {
        Some(runs[k])
    } else {
        first_fit_from(runs, count, k + 1)
    }
}

/// The first free run with room for more than `count` blocks.
pub open spec fn first_fit(runs: Seq<(int, int)>, count: int) -> Option<(int, int)> {
    first_fit_from(runs, count, 0)
}

} // verus!
