use vstd::prelude::*;
use crate::fs::file::{File, file_views, opt_file_view};
use crate::fs::layout::{
    disk_len, block_of, with_block, entry_of, parse_entry, name_end, latin1, be16, files_upto,
    files_on_disk, FileView, char_sum, name_hash, find_from, lookup, disk_bits, runs_upto,
    free_runs, first_fit, first_fit_from, with_data, meta_entry, free_slot_from, with_entry, saved,
    inserted, blocks_for, insert_allowed, insert_outcome, slot_holds_name,
};
use vstd::utf8::encode_utf8;
use crate::fs::laws::{free_runs_are_maximal, lookup_finds_a_slot_with_the_name};
use crate::fs::{BLOCK_NUM, BLOCK_SIZE, SUPER_BLOCKS_NUM, UNUSED_BLOCKS_BITMAP_INDEX};

verus! {

/// Number of metadata entries in one block.
pub const META_INFO_PER_BLOCK: usize = 16;
/// Size of one metadata entry in bytes.
pub const META_INFO_LEN: usize = 32;

/// Calls `String::push`. Trusted claim: afterwards the string holds its old
/// characters followed by `c`.
#[verifier::external_body]
pub(crate) fn push_char(s: &mut String, c: char)
    ensures
        final(s)@ == old(s)@.push(c),
{
    s.push(c)
}

/// The disk: `BLOCK_NUM` blocks of `BLOCK_SIZE` bytes.
pub struct BlockDevice {
    data: Vec<u8>,
}

impl View for BlockDevice {
    type V = Seq<u8>;

    closed spec fn view(&self) -> Seq<u8> {
        self.data@
    }
}

impl BlockDevice {
    /// The disk always holds exactly `BLOCK_NUM * BLOCK_SIZE` bytes.
    #[verifier::type_invariant]
    pub(crate) open spec fn holds_whole_disk(&self) -> bool {
        self.wf()
    }

    /// The disk holds exactly `BLOCK_NUM * BLOCK_SIZE` bytes.
    pub open spec fn wf(&self) -> bool {
        self@.len() == disk_len()
    }

    /// A disk whose bytes are all zero.
    pub fn new() -> (r: BlockDevice)
        ensures
            r.wf(),
            r@ == Seq::new(disk_len() as nat, |i: int| 0u8),
    {
        let data = vec![0u8; BLOCK_NUM * BLOCK_SIZE];
        let r = BlockDevice { data };
        assert(r@ =~= Seq::new(disk_len() as nat, |i: int| 0u8));
        r
    }

    /// Reads block `block_index`.
    pub fn read_block(&self, block_index: usize) -> (r: Result<Vec<u8>, ()>)
        requires
            block_index < BLOCK_NUM,
        ensures
            r matches Ok(v) && v@ == block_of(self@, block_index as int),
    {
        proof {
            use_type_invariant(self);
        }
        let mut v: Vec<u8> = Vec::new();
        let base = block_index * BLOCK_SIZE;
        for i in 0..BLOCK_SIZE
            invariant
                self.wf(),
                base == block_index * 512,
                block_index < 4096,
                v@ == block_of(self@, block_index as int).take(i as int),
        {
            v.push(self.data[base + i]);
            assert(v@ =~= block_of(self@, block_index as int).take(i + 1));
        }
        assert(v@ =~= block_of(self@, block_index as int));
        Ok(v)
    }

    /// Overwrites block `block_index` with `buf`.
    pub fn write_block(&mut self, block_index: usize, buf: &[u8]) -> (r: Result<(), ()>)
        requires
            block_index < BLOCK_NUM,
            buf@.len() == BLOCK_SIZE,
        ensures
            r is Ok,
            final(self).wf(),
            final(self)@ == with_block(old(self)@, block_index as int, buf@),
    {
        proof {
            use_type_invariant(&*self);
        }
        let base = block_index * BLOCK_SIZE;
        for i in 0..BLOCK_SIZE
            invariant
                self@.len() == disk_len(),
                base == block_index * 512,
                block_index < 4096,
                buf@.len() == 512,
                self@ == Seq::new(
                    old(self)@.len(),
                    |p: int| if base <= p < base + i { buf@[p - base] } else { old(self)@[p] },
                ),
        {
            self.data[base + i] = buf[i];
            assert(self@ =~= Seq::new(
                old(self)@.len(),
                |p: int| if base <= p < base + i + 1 { buf@[p - base] } else { old(self)@[p] },
            ));
        }
        assert(self@ =~= with_block(old(self)@, block_index as int, buf@));
        Ok(())
    }

    /// Fills block `block_index` with zeros.
    pub fn clear_block(&mut self, block_index: usize) -> (r: Result<(), ()>)
        requires
            block_index < BLOCK_NUM,
        ensures
            r is Ok,
            final(self).wf(),
            final(self)@ == with_block(
                old(self)@,
                block_index as int,
                Seq::new(512, |i: int| 0u8),
            ),
    {
        let buf = vec![0u8; BLOCK_SIZE];
        assert(buf@ =~= Seq::new(512, |i: int| 0u8));
        self.write_block(block_index, buf.as_slice())
    }

    /// The maximal runs of free blocks; see [`UnusedBlocks::parse_bit_map_block`].
    pub fn get_unused_blocks(&self) -> (r: Result<Vec<UnusedBlocks>, ()>)
        ensures
            r matches Ok(runs) && runs_view(runs@) == free_runs(disk_bits(self@)),
    {
        return UnusedBlocks::parse_bit_map_block(self);
    }

    /// All files listed in the metadata blocks.
    pub fn init(&self) -> (r: Result<Vec<File>, ()>)
        ensures
            r matches Ok(files) && file_views(files@) == files_on_disk(self@),
    {
        self.get_files()
    }

    /// All files listed in the metadata blocks, in block order and, within a
    /// block, in entry order.
    pub fn get_files(&self) -> (r: Result<Vec<File>, ()>)
        ensures
            r matches Ok(files) && file_views(files@) == files_on_disk(self@),
    {
        proof {
            use_type_invariant(self);
        }
        let mut files: Vec<File> = Vec::new();
        let super_blocks_num = SUPER_BLOCKS_NUM;
        for i in 0..super_blocks_num
            invariant
                self.wf(),
                super_blocks_num == 255,
                file_views(files@) == files_upto(self@, i * 16),
        {
            let v = match self.read_block(i) {
                Ok(v) => v,
                Err(_) => {
                    proof {
                        assert(false);
                    }
                    return Err(());
                },
            };
            for j in 0..META_INFO_PER_BLOCK
                invariant
                    self.wf(),
                    i < 255,
                    v@ == block_of(self@, i as int),
                    file_views(files@) == files_upto(self@, i * 16 + j),
            {
                let file_meta_info: &[u8] = &v.as_slice()[j * META_INFO_LEN..j * META_INFO_LEN + (
                BLOCK_SIZE / META_INFO_PER_BLOCK)];
                assert(file_meta_info@ =~= entry_of(self@, i * 16 + j));
                let ghost before = files@;
                match BlockDevice::parse_file_meta_info(file_meta_info) {
                    Some(file) => {
                        files.push(file);
                        assert(file_views(files@) =~= file_views(before).push(file@));
                    },
                    None => {},
                }
            }
        }
        Ok(files)
    }

    /// Decodes one 32-byte metadata entry: bytes 0-1, 2-3 and 4-5 hold the
    /// first block, the block count and the byte length (big endian); the
    /// name follows from byte 6 up to the first zero byte.
    fn parse_file_meta_info(meta: &[u8]) -> (r: Option<File>)
        requires
            meta@.len() == META_INFO_LEN,
        ensures
            opt_file_view(r) == parse_entry(meta@),
    {
        let block_index: usize = (meta[0] as usize) * 256 + meta[1] as usize;
        let block_count: usize = (meta[2] as usize) * 256 + meta[3] as usize;
        let u8_length: usize = (meta[4] as usize) * 256 + meta[5] as usize;
        if block_index <= SUPER_BLOCKS_NUM {
            return None;
        }
        let mut name = String::new();
        let mut c: usize = 6;
        while c < meta.len() && meta[c] != 0
            invariant
                meta@.len() == 32,
                6 <= c <= 32,
                name_end(meta@, 6) == name_end(meta@, c as int),
                name@ == latin1(meta@.subrange(6, c as int)),
            decreases 32 - c,
        {
            push_char(&mut name, meta[c] as char);
            c += 1;
            assert(name@ =~= latin1(meta@.subrange(6, c as int)));
        }
        Some(File { block_index, name, block_count, u8_length })
    }

    /// Whether a file with `f`'s name is listed in the bucket its name hashes to.
    pub fn check_file_name_exist(&self, f: &File) -> (r: bool)
        requires
            char_sum(f.name@) <= usize::MAX,
        ensures
            r == lookup(self@, f.name@) is Some,
            r == exists|k: int|
                0 <= k < 16 && #[trigger] slot_holds_name(self@, name_hash(f.name@), k, f.name@),
    {
        proof {
            lookup_finds_a_slot_with_the_name(self@, f.name@);
        }
        match self.get_file_meta_data_base_on_name(&f.name) {
            Ok(_) => true,
            Err(_) => false,
        }
    }

    /// The first file of the bucket `name` hashes to whose name is `name`.
    pub fn get_file_meta_data_base_on_name(&self, name: &String) -> (r: Result<File, ()>)
        requires
            char_sum(name@) <= usize::MAX,
        ensures
            match r {
                Ok(f) => lookup(self@, name@) == Some(f@),
                Err(_) => lookup(self@, name@) is None,
            },
    {
        proof {
            use_type_invariant(self);
        }
        let bucket = BlockDevice::hash_file_name(name);
        let block = match self.read_block(bucket) {
            Ok(v) => v,
            Err(_) => {
                proof {
                    assert(false);
                }
                return Err(());
            },
        };
        for j in 0..META_INFO_PER_BLOCK
            invariant
                self.wf(),
                bucket == name_hash(name@),
                0 <= bucket < 255,
                block@ == block_of(self@, bucket as int),
                lookup(self@, name@) == find_from(self@, bucket as int, name@, j as int),
        {
            let file_meta_info: &[u8] = &block.as_slice()[j * META_INFO_LEN..j * META_INFO_LEN + (
            BLOCK_SIZE / META_INFO_PER_BLOCK)];
            assert(file_meta_info@ =~= entry_of(self@, bucket * 16 + j));
            match BlockDevice::parse_file_meta_info(file_meta_info) {
                Some(file) => {
                    if file.name == *name {
                        return Ok(file);
                    }
                },
                None => {},
            }
        }
        Err(())
    }

    /// Stores file `f`: its contents go to blocks `[f.block_index,
    /// f.block_index + f.block_count)`, the last one padded with zeros, and its
    /// metadata entry to the first free slot of the bucket its name hashes to
    /// (nowhere when the bucket is full). Fails, changing nothing, when the
    /// bucket already lists a file of that name.
    pub fn save_file_data(&mut self, f: &File, content: &String) -> (r: Result<(), ()>)
        requires
            char_sum(f.name@) <= usize::MAX,
            lookup(old(self)@, f.name@) is None ==> {
                &&& encode_utf8(f.name@).len() <= 26
                &&& f.block_index + f.block_count <= BLOCK_NUM
                &&& f.block_count >= 1 ==> (f.block_count - 1) * 512 <= encode_utf8(content@).len()
                    <= f.block_count * 512
            },
        ensures
            final(self).wf(),
            match r {
                Err(_) => lookup(old(self)@, f.name@) is Some && final(self)@ == old(self)@,
                Ok(_) => lookup(old(self)@, f.name@) is None && final(self)@ == saved(
                    old(self)@,
                    f@,
                    encode_utf8(content@),
                ),
            },
    {
        proof {
            use_type_invariant(&*self);
        }
        if self.check_file_name_exist(f) {
            return Err(());
        }
        let content = content.as_str().as_bytes();
        let ghost c = content@;
        let ghost d0 = self@;
        let bi = f.block_index;
        let bc = f.block_count;
        for i in 0..bc
            invariant
                self.wf(),
                bi + bc <= 4096,
                bc >= 1 ==> (bc - 1) * 512 <= c.len() <= bc * 512,
                content@ == c,
                self@ == with_data(d0, bi as int, i as int, c),
        {
            if i < bc - 1 {
                let chunk = &content[i * BLOCK_SIZE..(i + 1) * BLOCK_SIZE];
                match self.write_block(bi + i, chunk) {
                    Ok(_) => {},
                    Err(_) => return Err(()),
                }
                assert(self@ =~= with_data(d0, bi as int, i + 1, c));
            } else {
                let bufori = &content[i * BLOCK_SIZE..content.len()];
                let mut buf = vec![0u8; BLOCK_SIZE];
                for k in 0..bufori.len()
                    invariant
                        buf@.len() == 512,
                        bufori@.len() <= 512,
                        forall|m: int|
                            0 <= m < 512 ==> #[trigger] buf@[m] == if m < k {
                                bufori@[m]
                            } else {
                                0u8
                            },
                {
                    buf.set(k, bufori[k]);
                }
                match self.write_block(bi + i, buf.as_slice()) {
                    Ok(_) => {},
                    Err(_) => return Err(()),
                }
                assert(self@ =~= with_data(d0, bi as int, i + 1, c));
            }
        }
        let mut meta = vec![0u8; META_INFO_LEN];
        meta.set(0, ((f.block_index / 256) % 256) as u8);
        meta.set(1, (f.block_index % 256) as u8);
        meta.set(2, ((f.block_count / 256) % 256) as u8);
        meta.set(3, (f.block_count % 256) as u8);
        meta.set(4, ((f.u8_length / 256) % 256) as u8);
        meta.set(5, (f.u8_length % 256) as u8);
        let name_array = f.name.as_str().as_bytes();
        for i in 0..name_array.len()
            invariant
                meta@.len() == 32,
                name_array@.len() <= 26,
                forall|k: int|
                    0 <= k < 32 ==> #[trigger] meta@[k] == if k < 6 + i {
                        meta_entry(
                            f.block_index as int,
                            f.block_count as int,
                            f.u8_length as int,
                            name_array@,
                        )[k]
                    } else {
                        0u8
                    },
        {
            meta.set(6 + i, name_array[i]);
        }
        assert(meta@ =~= meta_entry(
            f.block_index as int,
            f.block_count as int,
            f.u8_length as int,
            encode_utf8(f.name@),
        ));
        let bucket = BlockDevice::hash_file_name(&f.name);
        let ghost d1 = self@;
        let mut block = match self.read_block(bucket) {
            Ok(v) => v,
            Err(_) => {
                proof {
                    assert(false);
                }
                return Err(());
            },
        };
        let mut slot: usize = 0;
        while slot < META_INFO_PER_BLOCK && !(block[slot * META_INFO_LEN] == 0 && block[slot
            * META_INFO_LEN + 1] == 0)
            invariant
                slot <= 16,
                block@.len() == 512,
                block@ == block_of(d1, bucket as int),
                free_slot_from(block@, 0) == free_slot_from(block@, slot as int),
            decreases 16 - slot,
        {
            slot += 1;
        }
        if slot < META_INFO_PER_BLOCK {
            for j in 0..META_INFO_LEN
                invariant
                    slot < 16,
                    meta@.len() == 32,
                    block@.len() == 512,
                    forall|p: int|
                        0 <= p < 512 ==> #[trigger] block@[p] == if slot * 32 <= p < slot * 32 + j {
                            meta@[p - slot * 32]
                        } else {
                            block_of(d1, bucket as int)[p]
                        },
            {
                block.set(slot * META_INFO_LEN + j, meta[j]);
            }
        }
        let r = self.write_block(bucket, block.as_slice());
        assert(self@ =~= with_entry(d1, bucket as int, meta@));
        r
    }

    /// Creates a file named `name` holding `content`: it is given
    /// `content.len() / BLOCK_SIZE + 1` blocks, taken from the start of the
    /// first free run with more blocks than that, which are then marked as
    /// used. Fails, changing nothing, when no run is large enough or a file of
    /// that name is already listed.
    pub fn insert_file(&mut self, name: String, content: &String) -> (r: Result<File, ()>)
        requires
            insert_allowed(old(self)@, name@, encode_utf8(content@)),
        ensures
            final(self).wf(),
            insert_outcome(old(self)@, final(self)@, name@, encode_utf8(content@), opt_file_view(r.ok())),
    {
        proof {
            use_type_invariant(&*self);
        }
        let content_len = content.as_str().len();
        let block_count = content_len / BLOCK_SIZE + 1;
        let u8_length = content_len;
        match UnusedBlocks::get_usable_blocks_for_size(self, block_count) {
            Some(unused_block) => {
                proof {
                    lemma_first_fit_in_range(disk_bits(self@), block_count as int);
                }
                let block_index = unused_block.block_index;
                let f = File { block_index, name, block_count, u8_length };
                match self.save_file_data(&f, content) {
                    Ok(_) => {
                        let ghost mid = self@;
                        match UnusedBlocks::use_blocks(self, block_index, block_count) {
                            Ok(_) => {},
                            Err(_) => {
                                proof {
                                    assert(false);
                                }
                            },
                        }
                        assert(disk_bits(self@) =~= Seq::new(
                            4096,
                            |j: int|
                                (block_index <= j < block_index + block_count) || disk_bits(
                                    mid,
                                )[j],
                        ));
                    },
                    Err(_) => return Err(()),
                }
                Ok(f)
            },
            None => Err(()),
        }
    }

    /// Sum of the code points of `name`, modulo the number of metadata blocks:
    /// the block that holds the file's entry.
    pub fn hash_file_name(name: &String) -> (r: usize)
        requires
            char_sum(name@) <= usize::MAX,
        ensures
            r == name_hash(name@),
            r < SUPER_BLOCKS_NUM,
    {
        let s = name.as_str();
        let n = s.unicode_len();
        let mut sum: usize = 0;
        for i in 0..n
            invariant
                n == name@.len(),
                s@ == name@,
                char_sum(name@) <= usize::MAX,
                sum == char_sum(name@.take(i as int)),
        {
            let c = s.get_char(i);
            proof {
                assert(name@.take(i + 1).drop_last() =~= name@.take(i as int));
                lemma_char_sum_prefix(name@, i + 1);
            }
            sum = sum + c as u32 as usize;
        }
        assert(name@.take(n as int) =~= name@);
        sum % SUPER_BLOCKS_NUM
    }
}

/// The first fitting run, when there is one, lies on the disk and has more
/// blocks than asked for.
pub(crate) proof fn lemma_first_fit_in_range(bits: Seq<bool>, count: int)
    requires
        bits.len() == 4096,
    ensures
        first_fit(free_runs(bits), count) matches Some(run) ==> 0 <= run.0 && run.1 > count
            && run.0 + run.1 <= 4096,
{
    free_runs_are_maximal(bits);
    lemma_first_fit_from_member(free_runs(bits), count, 0);
}

/// What `first_fit_from` finds is one of the runs, with more blocks than asked.
pub(crate) proof fn lemma_first_fit_from_member(runs: Seq<(int, int)>, count: int, k: int)
    requires
        0 <= k,
    ensures
        first_fit_from(runs, count, k) matches Some(run) ==> exists|m: int|
            k <= m < runs.len() && runs[m] == run && run.1 > count,
    decreases runs.len() - k,
{
    if k < runs.len() {
        lemma_first_fit_from_member(runs, count, k + 1);
    }
}

/// The code points of a prefix add up to no more than those of the whole.
proof fn lemma_char_sum_prefix(s: Seq<char>, k: int)
    requires
        0 <= k <= s.len(),
    ensures
        char_sum(s.take(k)) <= char_sum(s),
    decreases s.len() - k,
{
    if k < s.len() {
        lemma_char_sum_prefix(s, k + 1);
        assert(s.take(k + 1).drop_last() =~= s.take(k));

    } else {
        assert(s.take(k) =~= s);
    }
}

/// The bit at position `j` of a big-endian-within-byte bitmap: bit `j` lives in
/// byte `j / 8`, at the `7 - j % 8`-th least significant position.
pub open spec fn bitmap_bit(v: Seq<u8>, j: int) -> bool {
    ((v[j / 8] >> ((7 - j % 8) as u8)) & 1u8) == 1u8
}

proof fn lemma_flag_test(u: u8, o: u8)
    requires
        o < 8,
    ensures
        (((1u8 << o) & u) == (1u8 << o)) == (((u >> o) & 1u8) == 1u8),
{
    assert((((1u8 << o) & u) == (1u8 << o)) == (((u >> o) & 1u8) == 1u8)) by (bit_vector)
        requires
            o < 8,
    ;
}

proof fn lemma_flag_set(u: u8, o: u8, k: u8)
    requires
        o < 8,
        k < 8,
    ensures
        ((((1u8 << o) | u) >> k) & 1u8 == 1u8) == (k == o || (u >> k) & 1u8 == 1u8),
{
    assert(((((1u8 << o) | u) >> k) & 1u8 == 1u8) == (k == o || (u >> k) & 1u8 == 1u8))
        by (bit_vector)
        requires
            o < 8,
            k < 8,
    ;
}

proof fn lemma_flag_clear(u: u8, o: u8, k: u8)
    requires
        o < 8,
        k < 8,
    ensures
        (((u & !(1u8 << o)) >> k) & 1u8 == 1u8) == (k != o && (u >> k) & 1u8 == 1u8),
{
    assert((((u & !(1u8 << o)) >> k) & 1u8 == 1u8) == (k != o && (u >> k) & 1u8 == 1u8))
        by (bit_vector)
        requires
            o < 8,
            k < 8,
    ;
}

/// The little-endian 32-bit number held by the four bytes `b[0..4]`.
pub open spec fn le_u32(b: Seq<u8>) -> u32 {
    (b[0] + b[1] * 0x100 + b[2] * 0x10000 + b[3] * 0x1000000) as u32
}

/// Copies the first four bytes of `buf`, read as one little-endian number (as
/// the x86-64 target lays out memory), into the first word of `bufu32`; the
/// other words keep their values.
pub fn transfrom_to_u32_array(buf: &[u8], bufu32: &mut [u32])
    requires
        buf@.len() == old(bufu32)@.len() * 4,
        old(bufu32)@.len() > 0,
    ensures
        final(bufu32)@ == old(bufu32)@.update(0, le_u32(buf@)),
{
    let word: u32 = buf[0] as u32 + (buf[1] as u32) * 0x100 + (buf[2] as u32) * 0x10000 + (
    buf[3] as u32) * 0x1000000;
    bufu32[0] = word;
}

/// Copies the low byte of the first word of `bufu32` (its first byte in
/// little-endian memory) into the first byte of `buf`; the other bytes keep
/// their values.
pub fn transfrom_to_u8_array(buf: &mut [u8], bufu32: &[u32])
    requires
        old(buf)@.len() == bufu32@.len() * 4,
        bufu32@.len() > 0,
    ensures
        final(buf)@ == old(buf)@.update(0, (bufu32@[0] % 256) as u8),
{
    buf[0] = (bufu32[0] % 256) as u8;
}

/// A run of `count` consecutive free blocks starting at `block_index`.
pub struct UnusedBlocks {
    pub block_index: usize,
    pub count: usize,
}

impl View for UnusedBlocks {
    type V = (int, int);

    open spec fn view(&self) -> (int, int) {
        (self.block_index as int, self.count as int)
    }
}

/// The views of a sequence of runs.
pub open spec fn runs_view(s: Seq<UnusedBlocks>) -> Seq<(int, int)> {
    Seq::new(s.len(), |i: int| s[i]@)
}

/// The flags of `bits` with those of `[start, start + count)` set.
pub open spec fn bits_marked(bits: Seq<bool>, start: int, count: int) -> Seq<bool> {
    Seq::new(bits.len(), |j: int| (start <= j < start + count) || bits[j])
}

impl UnusedBlocks {
    pub fn new(block_index: usize, count: usize) -> (r: UnusedBlocks)
        ensures
            r.block_index == block_index,
            r.count == count,
    {
        UnusedBlocks { block_index, count }
    }

    /// The maximal runs of free blocks of the allocation bitmap, in increasing order.
    pub fn parse_bit_map_block(dev: &BlockDevice) -> (r: Result<Vec<UnusedBlocks>, ()>)
        ensures
            r matches Ok(runs) && runs_view(runs@) == free_runs(disk_bits(dev@)),
    {
        proof {
            use_type_invariant(dev);
        }
        match dev.read_block(UNUSED_BLOCKS_BITMAP_INDEX) {
            Ok(v) => {
                let ghost bits = disk_bits(dev@);
                let mut res: Vec<UnusedBlocks> = Vec::new();
                let bmap = BitMap::new(v);
                assert(bmap@ =~= bits);
                let mut count: usize = 0;
                let mut block_index: usize = 0;
                for i in 0..BLOCK_NUM
                    invariant
                        bmap@ == bits,
                        bits.len() == 4096,
                        count <= i,
                        count > 0 ==> block_index + count == i,
                        count > 0 <==> (i > 0 && !bits[i - 1]),
                        runs_upto(bits, i as int) == if count > 0 {
                            runs_view(res@).push((block_index as int, count as int))
                        } else {
                            runs_view(res@)
                        },
                {
                    let ghost prev_res = res@;
                    if bmap.check_exists(i) {
                        if count != 0 {
                            res.push(UnusedBlocks { block_index, count });
                            assert(runs_view(res@) =~= runs_view(prev_res).push(
                                (block_index as int, count as int),
                            ));
                            count = 0;
                        }
                    } else {
                        if count == 0 {
                            block_index = i;
                        }
                        count += 1;
                        assert(runs_upto(bits, i + 1) =~= runs_view(res@).push(
                            (block_index as int, count as int),
                        ));
                    }
                }
                if count != 0 {
                    let ghost prev_res = res@;
                    res.push(UnusedBlocks { block_index, count });
                    assert(runs_view(res@) =~= runs_view(prev_res).push(
                        (block_index as int, count as int),
                    ));
                }
                Ok(res)
            },
            Err(_) => Err(()),
        }
    }

    /// The first free run with more than `block_count` blocks.
    pub fn get_usable_blocks_for_size(dev: &BlockDevice, block_count: usize) -> (r: Option<
        UnusedBlocks,
    >)
        ensures
            match r {
                Some(u) => first_fit(free_runs(disk_bits(dev@)), block_count as int) == Some(u@),
                None => first_fit(free_runs(disk_bits(dev@)), block_count as int) is None,
            },
    {
        match UnusedBlocks::parse_bit_map_block(dev) {
            Ok(unused) => {
                let ghost runs = free_runs(disk_bits(dev@));
                let n = unused.len();
                for k in 0..n
                    invariant
                        n == unused@.len(),
                        runs == free_runs(disk_bits(dev@)),
                        runs_view(unused@) == runs,
                        first_fit(runs, block_count as int) == first_fit_from(
                            runs,
                            block_count as int,
                            k as int,
                        ),
                {
                    let u = &unused[k];
                    assert(runs[k as int] == u@);
                    if u.count > block_count {
                        assert(first_fit_from(runs, block_count as int, k as int) == Some(
                            runs[k as int],
                        ));
                        return Some(UnusedBlocks { block_index: u.block_index, count: u.count });
                    }
                }
                None
            },
            Err(_) => None,
        }
    }

    /// Marks blocks `[block_index, block_index + count)` as used in the bitmap.
    pub fn use_blocks(dev: &mut BlockDevice, block_index: usize, count: usize) -> (r: Result<
        (),
        (),
    >)
        requires
            block_index + count <= BLOCK_NUM,
        ensures
            r is Ok,
            final(dev).wf(),
            disk_bits(final(dev)@) == bits_marked(
                disk_bits(old(dev)@),
                block_index as int,
                count as int,
            ),
            forall|p: int|
                0 <= p < disk_len() && !(255 * 512 <= p < 256 * 512) ==> final(dev)@[p] == old(
                    dev,
                )@[p],
    {
        proof {
            use_type_invariant(&*dev);
        }
        match UnusedBlocks::get_unused_bitmap_block(dev) {
            Ok(b) => {
                let ghost bits = disk_bits(dev@);
                let mut bmap = BitMap::new(b);
                assert(bmap@ =~= bits);
                for i in 0..count
                    invariant
                        bmap.v@.len() == 512,
                        bits.len() == 4096,
                        block_index + count <= 4096,
                        bmap@ == bits_marked(bits, block_index as int, i as int),
                {
                    bmap.set_2_exist(block_index + i);
                    assert(bmap@ =~= bits_marked(bits, block_index as int, i + 1));
                }
                let r = dev.write_block(UNUSED_BLOCKS_BITMAP_INDEX, bmap.v.as_slice());
                assert(block_of(dev@, 255) =~= bmap.v@);
                assert(disk_bits(dev@) =~= bmap@);
                r
            },
            Err(_) => Err(()),
        }
    }

    /// The bytes of the allocation bitmap block.
    pub fn get_unused_bitmap_block(dev: &BlockDevice) -> (r: Result<Vec<u8>, ()>)
        ensures
            r matches Ok(v) && v@ == block_of(dev@, 255),
    {
        dev.read_block(UNUSED_BLOCKS_BITMAP_INDEX)
    }
}

/// A bitmap over a byte vector; bit `i` says whether block `i` is in use.
pub struct BitMap {
    pub v: Vec<u8>,
}

impl View for BitMap {
    type V = Seq<bool>;

    open spec fn view(&self) -> Seq<bool> {
        Seq::new(self.v@.len() * 8, |j: int| bitmap_bit(self.v@, j))
    }
}

impl BitMap {
    pub fn new(v: Vec<u8>) -> (b: BitMap)
        ensures
            b.v@ == v@,
    {
        BitMap { v }
    }

    /// Whether bit `index` is set.
    pub fn check_exists(&self, index: usize) -> (r: bool)
        requires
            index < self.v@.len() * 8,
        ensures
            r == self@[index as int],
    {
        let u = self.v[index / 8];
        let offset: u8 = (7 - index % 8) as u8;
        let flag: u8 = 1u8 << offset;
        proof {
            lemma_flag_test(u, offset);
        }
        flag & u == flag
    }

    /// Sets bit `index`, leaving all other bits as they were.
    pub fn set_2_exist(&mut self, index: usize)
        requires
            index < old(self).v@.len() * 8,
        ensures
            final(self).v@.len() == old(self).v@.len(),
            final(self)@ == old(self)@.update(index as int, true),
    {
        let offset: u8 = (7 - index % 8) as u8;
        let flag: u8 = 1u8 << offset;
        let byte = self.v[index / 8];
        self.v.set(index / 8, flag | byte);
        proof {
            let ghost oldv = old(self).v@;
            assert forall|j: int| 0 <= j < oldv.len() * 8 implies #[trigger] bitmap_bit(self.v@, j)
                == (j == index || bitmap_bit(oldv, j)) by {
                if j / 8 == index / 8 {
                    lemma_flag_set(byte, offset, (7 - j % 8) as u8);
                }
            }
            assert(self@ =~= old(self)@.update(index as int, true));
        }
    }

    /// Clears bit `index`, leaving all other bits as they were.
    pub fn set_2_not_exist(&mut self, index: usize)
        requires
            index < old(self).v@.len() * 8,
        ensures
            final(self).v@.len() == old(self).v@.len(),
            final(self)@ == old(self)@.update(index as int, false),
    {
        let offset: u8 = (7 - index % 8) as u8;
        let byte = self.v[index / 8];
        self.v.set(index / 8, byte & !(1u8 << offset));
        proof {
            let ghost oldv = old(self).v@;
            assert forall|j: int| 0 <= j < oldv.len() * 8 implies #[trigger] bitmap_bit(self.v@, j)
                == (j != index && bitmap_bit(oldv, j)) by {
                if j / 8 == index / 8 {
                    lemma_flag_clear(byte, offset, (7 - j % 8) as u8);
                }
            }
            assert(self@ =~= old(self)@.update(index as int, false));
        }
    }
}

} // verus!
