use vstd::prelude::*;
use crate::fs::layout::{
    FileView, utf8_width, char_width, kept, readable, file_content, latin1, block_of,
    insert_allowed, insert_outcome, lookup, char_sum,
};
use crate::fs::block_device::{BlockDevice, push_char};
use crate::fs::{BLOCK_NUM, BLOCK_SIZE};
use vstd::utf8::encode_utf8;

verus! {

/// A file's metadata: where its data starts, its name, how many blocks it
/// spans and how many bytes it holds.
pub struct File {
    pub block_index: usize,
    pub name: String,
    pub block_count: usize,
    pub u8_length: usize,
}

impl View for File {
    type V = FileView;

    open spec fn view(&self) -> FileView {
        FileView {
            block_index: self.block_index as int,
            name: self.name@,
            block_count: self.block_count as int,
            u8_length: self.u8_length as int,
        }
    }
}

/// UTF-8 length of the character whose code point is `b`.
fn char_width_of(b: u8) -> (w: usize)
    ensures
        w == char_width(b),
{
    if b < 128 {
        1
    } else {
        2
    }
}

/// One more byte adds its character's UTF-8 length.
pub(crate) proof fn lemma_width_step(bs: Seq<u8>, k: int)
    requires
        0 <= k < bs.len(),
    ensures
        utf8_width(bs.take(k + 1)) == utf8_width(bs.take(k)) + char_width(bs[k]),
{
    assert(bs.take(k + 1).drop_last() =~= bs.take(k));
}

/// Longer prefixes have strictly longer UTF-8 encodings.
pub(crate) proof fn lemma_width_grows(bs: Seq<u8>, i: int, j: int)
    requires
        0 <= i <= j <= bs.len(),
    ensures
        utf8_width(bs.take(i)) <= utf8_width(bs.take(j)),
        i < j ==> utf8_width(bs.take(i)) < utf8_width(bs.take(j)),
    decreases j - i,
{
    if i < j {
        lemma_width_grows(bs, i, j - 1);
        lemma_width_step(bs, j - 1);
    }
}

/// A prefix that fits in `n` bytes while one more byte would not is the kept one.
pub(crate) proof fn lemma_kept(bs: Seq<u8>, n: int, k: int)
    requires
        0 <= k <= bs.len(),
        utf8_width(bs.take(k)) <= n,
        k == bs.len() || utf8_width(bs.take(k + 1)) > n,
    ensures
        kept(bs, n) == k,
    decreases bs.len(),
{
    assert(bs.take(bs.len() as int) =~= bs);
    if bs.len() == 0 {
    } else if utf8_width(bs) <= n {
        if k < bs.len() {
            lemma_width_grows(bs, k + 1, bs.len() as int);
        }
    } else {
        let t = bs.drop_last();
        assert(t.take(k) =~= bs.take(k));
        if k + 1 <= t.len() {
            assert(t.take(k + 1) =~= bs.take(k + 1));
        }
        lemma_kept(t, n, k);
    }
}

impl File {
    /// Whether the file's contents can be read back from `dev`: see [`readable`].
    pub fn is_readable(&self, dev: &BlockDevice) -> (r: bool)
        ensures
            r == readable(dev@, self@),
    {
        proof {
            use_type_invariant(dev);
        }
        if self.block_count > BLOCK_NUM || self.block_index > BLOCK_NUM - self.block_count {
            return false;
        }
        if self.block_count == 0 {
            return true;
        }
        if self.u8_length < (self.block_count - 1) * BLOCK_SIZE {
            return false;
        }
        let n = self.u8_length - (self.block_count - 1) * BLOCK_SIZE;
        let v = match dev.read_block(self.block_index + self.block_count - 1) {
            Ok(v) => v,
            Err(_) => {
                proof {
                    assert(false);
                }
                return false;
            },
        };
        let ghost bs = v@;
        let mut w: usize = 0;
        let mut found = n == 0;
        assert(bs.take(0) =~= Seq::<u8>::empty());
        assert(utf8_width(bs.take(0)) == 0);
        for k in 0..BLOCK_SIZE
            invariant
                bs == v@,
                bs.len() == 512,
                w == utf8_width(bs.take(k as int)),
                w <= 2 * k,
                found == exists|m: int| 0 <= m <= k && #[trigger] utf8_width(bs.take(m)) == n,
        {
            proof {
                lemma_width_step(bs, k as int);
            }
            let ghost was_found = found;
            w = w + char_width_of(v[k]);
            if w == n {
                found = true;
            }
            proof {
                if found {
                    if !was_found {
                        assert(utf8_width(bs.take(k + 1)) == n);
                    }
                } else {
                    assert forall|m: int| 0 <= m <= k + 1 implies #[trigger] utf8_width(bs.take(m))
                        != n by {
                        if m <= k {
                        }
                    }
                }
            }
        }
        assert(bs.take(512) =~= bs);
        n >= w || found
    }

    /// Reads the file's contents: every byte of its blocks becomes one
    /// character, and the characters of the last block are cut down to what
    /// is left of `u8_length` bytes of UTF-8.
    pub fn read_content(&self, dev: &BlockDevice) -> (r: Result<String, ()>)
        requires
            readable(dev@, self@),
        ensures
            r matches Ok(s) && s@ == file_content(dev@, self@),
    {
        proof {
            use_type_invariant(dev);
        }
        let mut content = String::new();
        let bi = self.block_index;
        let bc = self.block_count;
        let ghost d = dev@;
        for i in 0..bc
            invariant
                dev.wf(),
                d == dev@,
                readable(d, self@),
                bi == self.block_index,
                bc == self.block_count,
                bi + bc <= 4096,
                i == 0 ==> content@ == Seq::<char>::empty(),
                i < bc ==> content@ == latin1(d.subrange(bi * 512, (bi + i) * 512)),
                i == bc && bc > 0 ==> content@ == file_content(d, self@),
        {
            if i < bc - 1 {
                let v = match dev.read_block(bi + i) {
                    Ok(v) => v,
                    Err(_) => return Err(()),
                };
                for k in 0..BLOCK_SIZE
                    invariant
                        i + 1 < bc,
                        bi + bc <= 4096,
                        d.len() == 4096 * 512,
                        v@ == block_of(d, bi + i),
                        content@ == latin1(d.subrange(bi * 512, (bi + i) * 512 + k)),
                {
                    push_char(&mut content, v[k] as char);
                    assert(content@ =~= latin1(d.subrange(bi * 512, (bi + i) * 512 + k + 1)));
                }
            } else {
                let v = match dev.read_block(bi + bc - 1) {
                    Ok(v) => v,
                    Err(_) => return Err(()),
                };
                let n = self.u8_length - (bc - 1) * BLOCK_SIZE;
                let ghost base = content@;
                let mut w: usize = 0;
                let mut k: usize = 0;
                assert(v@.take(0) =~= Seq::<u8>::empty());
                while k < BLOCK_SIZE && w + char_width_of(v[k]) <= n
                    invariant
                        v@.len() == 512,
                        k <= 512,
                        w == utf8_width(v@.take(k as int)),
                        w <= n,
                        w <= 2 * k,
                        content@ == base + latin1(v@.take(k as int)),
                    decreases 512 - k,
                {
                    proof {
                        lemma_width_step(v@, k as int);
                    }
                    push_char(&mut content, v[k] as char);
                    w = w + char_width_of(v[k]);
                    k = k + 1;
                    assert(content@ =~= base + latin1(v@.take(k as int)));
                }
                proof {
                    if k < 512 {
                        lemma_width_step(v@, k as int);
                    }
                    lemma_kept(v@, n as int, k as int);
                }
            }
        }
        Ok(content)
    }

    /// Creates a file named `name` holding `content` on `dev`; see
    /// [`BlockDevice::insert_file`].
    pub fn create_file(dev: &mut BlockDevice, name: String, content: &String) -> (r: Result<
        File,
        (),
    >)
        requires
            insert_allowed(old(dev)@, name@, encode_utf8(content@)),
        ensures
            final(dev).wf(),
            insert_outcome(old(dev)@, final(dev)@, name@, encode_utf8(content@), opt_file_view(r.ok())),
    {
        match dev.insert_file(name, content) {
            Ok(f) => {
                return Ok(f);
            },
            Err(_) => {},
        }
        Err(())
    }

    /// The file named `name`, looked up in the bucket its name hashes to.
    pub fn get_file(dev: &BlockDevice, name: &String) -> (r: Result<File, ()>)
        requires
            char_sum(name@) <= usize::MAX,
        ensures
            match r {
                Ok(f) => lookup(dev@, name@) == Some(f@),
                Err(_) => lookup(dev@, name@) is None,
            },
    {
        match dev.get_file_meta_data_base_on_name(name) {
            Ok(f) => {
                return Ok(f);
            },
            Err(_) => Err(()),
        }
    }
}

/// The views of a sequence of files.
pub open spec fn file_views(fs: Seq<File>) -> Seq<FileView> {
    Seq::new(fs.len(), |i: int| fs[i]@)
}

/// The view of an optional file.
pub open spec fn opt_file_view(o: Option<File>) -> Option<FileView> {
    match o {
        Some(f) => Some(f@),
        None => None,
    }
}

} // verus!
