//! A tiny block file system living on a 4096-block disk.

pub mod block_device;
pub mod file;
pub mod laws;
pub mod layout;
pub mod vfs;

pub use block_device::BitMap;
pub use block_device::BlockDevice;
pub use file::File;
pub use vfs::VFS;
use file::opt_file_view;

use vstd::prelude::*;
use crate::fs::layout::{disk_len, insert_outcome, FileView, char_sum, lemma_char_sum_bound, lemma_encode_len};
use vstd::utf8::encode_utf8;

verus! {

/// Number of blocks on the disk.
pub const BLOCK_NUM: usize = 4096;
/// Number of leading blocks that hold file metadata (the hash buckets).
pub const SUPER_BLOCKS_NUM: usize = 255;
/// Index of the block holding the free-block bitmap.
pub const UNUSED_BLOCKS_BITMAP_INDEX: usize = 255;
/// Size of one block in bytes.
pub const BLOCK_SIZE: usize = 512;

/// A freshly formatted disk: all zeros but for the bitmap, which marks the
/// first 256 blocks (the metadata blocks and the bitmap block) as used.
pub open spec fn formatted_disk() -> Seq<u8> {
    Seq::new(
        disk_len() as nat,
        |p: int|
            if 255 * 512 <= p < 255 * 512 + 32 {
                0xFFu8
            } else {
                0u8
            },
    )
}

/// The disk `d` is what formatting and then creating the two sample files
/// gives.
pub open spec fn initialized(d: Seq<u8>) -> bool {
    exists|mid: Seq<u8>, r1: Option<FileView>, r2: Option<FileView>|
        insert_outcome(
            formatted_disk(),
            mid,
            "myfile"@,
            encode_utf8("test short file"@),
            r1,
        ) && insert_outcome(mid, d, "poem"@, encode_utf8(POEM@), r2)
}

/// Contents of the second sample file.
pub const POEM: &'static str = "If by Life You Were Deceived:
If by life you were deceived,
Don't be dismal,don't be wild!
In the day of grief,be mild:
Merry days will come,believe.
Heart is living in tomorrow;
Present is dejected here:
In a moment,passes sorrow;
That which passes will be dear.";

/// Formats the disk (see [`formatted_disk`]) and creates two sample files,
/// `myfile` and `poem`.
pub fn init(dev: &mut BlockDevice)
    ensures
        final(dev).wf(),
        initialized(final(dev)@),
{
    proof {
        use_type_invariant(&*dev);
    }
    let mut buf = vec![0u8; BLOCK_SIZE];
    for i in 0..32
        invariant
            buf@.len() == 512,
            forall|k: int| 0 <= k < 512 ==> #[trigger] buf@[k] == if k < i { 0xFFu8 } else { 0u8 },
    {
        buf.set(i, 0xFF);
    }
    refresh_disk(dev);
    match dev.write_block(255, buf.as_slice()) {
        Ok(_) => (),
        Err(_) => (),
    }
    assert(dev@ =~= formatted_disk());
    let content = String::from_str("test short file");
    let name = String::from_str("myfile");
    proof {
        reveal_strlit("test short file");
        reveal_strlit("myfile");
        lemma_char_sum_bound(name@);
        lemma_encode_len(name@);
        lemma_encode_len(content@);
    }
    let ghost d0 = dev@;
    let r1 = File::create_file(dev, name, &content);
    let ghost mid = dev@;
    let content = String::from_str(POEM);
    let name = String::from_str("poem");
    proof {
        reveal_strlit("poem");
        lemma_char_sum_bound(name@);
        lemma_encode_len(name@);
        lemma_encode_len(content@);
        assert(content@.len() < 1000) by {
            reveal_strlit("If by Life You Were Deceived:
If by life you were deceived,
Don't be dismal,don't be wild!
In the day of grief,be mild:
Merry days will come,believe.
Heart is living in tomorrow;
Present is dejected here:
In a moment,passes sorrow;
That which passes will be dear.");
        }
    }
    let r2 = File::create_file(dev, name, &content);
    assert(insert_outcome(d0, mid, "myfile"@, encode_utf8("test short file"@), opt_file_view(r1.ok())));
}

/// Zeroes every block of the disk.
pub fn refresh_disk(dev: &mut BlockDevice)
    ensures
        final(dev).wf(),
        final(dev)@ == Seq::new(disk_len() as nat, |p: int| 0u8),
{
    proof {
        use_type_invariant(&*dev);
    }
    let buf = vec![0u8; BLOCK_SIZE];
    for i in 0..BLOCK_NUM
        invariant
            dev.wf(),
            buf@.len() == 512,
            forall|k: int| 0 <= k < 512 ==> #[trigger] buf@[k] == 0u8,
            forall|p: int| 0 <= p < i * 512 ==> #[trigger] dev@[p] == 0u8,
    {
        match dev.write_block(i, buf.as_slice()) {
            Ok(_) => {},
            Err(_) => {},
        }
    }
    assert(dev@ =~= Seq::new(disk_len() as nat, |p: int| 0u8));
}

} // verus!
