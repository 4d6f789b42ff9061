use vstd::prelude::*;
use crate::fs::block_device::BlockDevice;
use crate::fs::file::{File, file_views, opt_file_view};
use crate::fs::layout::{
    FileView, files_on_disk, lookup, char_sum, readable, file_content, insert_allowed,
    insert_outcome,
};
use vstd::utf8::encode_utf8;

verus! {

/// The file-system interface the console uses.
pub struct VFS;

/// The names of a sequence of files.
pub open spec fn names_of(fs: Seq<FileView>) -> Seq<Seq<char>> {
    Seq::new(fs.len(), |i: int| fs[i].name)
}

/// The character sequences of a sequence of strings.
pub open spec fn string_views(ss: Seq<String>) -> Seq<Seq<char>> {
    Seq::new(ss.len(), |i: int| ss[i]@)
}

/// Law: the names of a list of files are as many as the files, and name `k`
/// is the name of file `k`, for every `k`.
pub proof fn names_match_files(fs: Seq<FileView>)
    ensures
        names_of(fs).len() == fs.len(),
        forall|k: int| 0 <= k < fs.len() ==> #[trigger] names_of(fs)[k] == fs[k].name,
{
}

impl VFS {
    /// The names of all files on the disk, in listing order.
    pub fn get_file_names(dev: &BlockDevice) -> (r: Vec<String>)
        ensures
            string_views(r@) == names_of(files_on_disk(dev@)),
            r@.len() == files_on_disk(dev@).len(),
            forall|k: int|
                0 <= k < r@.len() ==> #[trigger] r@[k]@ == files_on_disk(dev@)[k].name,
    {
        let files = match dev.get_files() {
            Ok(files) => files,
            Err(_) => {
                proof {
                    assert(false);
                }
                Vec::new()
            },
        };
        let mut file_names: Vec<String> = Vec::with_capacity(files.len());
        let count = files.len();
        for i in 0..count
            invariant
                count == files@.len(),
                file_views(files@) == files_on_disk(dev@),
                string_views(file_names@) == names_of(file_views(files@)).take(i as int),
        {
            let ghost before = file_names@;
            let n = files[i].name.clone();
            file_names.push(n);
            assert(string_views(before).len() == i);
            assert forall|k: int| 0 <= k < i + 1 implies #[trigger] string_views(file_names@)[k]
                == names_of(file_views(files@))[k] by {
                if k < i {
                    assert(string_views(before)[k] == names_of(file_views(files@)).take(
                        i as int,
                    )[k]);
                }
            }
            assert(string_views(file_names@) =~= names_of(file_views(files@)).take(i + 1));
        }
        assert(names_of(file_views(files@)).take(files@.len() as int) =~= names_of(
            file_views(files@),
        ));
        proof {
            names_match_files(files_on_disk(dev@));
            assert forall|k: int| 0 <= k < file_names@.len() implies #[trigger] file_names@[k]@
                == files_on_disk(dev@)[k].name by {
                assert(string_views(file_names@)[k] == file_names@[k]@);
            }
        }
        return file_names;
    }

    /// The contents of the file named `name`, or `None` when no such file is listed.
    pub fn read_file(dev: &BlockDevice, name: &String) -> (r: Option<String>)
        requires
            char_sum(name@) <= usize::MAX,
            lookup(dev@, name@) matches Some(f) ==> readable(dev@, f),
        ensures
            match r {
                Some(s) => lookup(dev@, name@) matches Some(f) && s@ == file_content(dev@, f),
                None => lookup(dev@, name@) is None,
            },
    {
        match VFS::get_file_handle(dev, name) {
            Some(f) => {
                match f.read_content(dev) {
                    Ok(s) => Some(s),
                    _ => None,
                }
            },
            None => None,
        }
    }

    /// The metadata of the file named `name`, if it is listed.
    pub fn get_file_handle(dev: &BlockDevice, name: &String) -> (r: Option<File>)
        requires
            char_sum(name@) <= usize::MAX,
        ensures
            opt_file_view(r) == lookup(dev@, name@),
    {
        match dev.get_file_meta_data_base_on_name(name) {
            Ok(f) => {
                return Some(f);
            },
            Err(_) => None,
        }
    }

    /// Creates a file named `name` holding `content`; see
    /// [`BlockDevice::insert_file`].
    pub fn create_file(dev: &mut BlockDevice, name: &String, content: &String) -> (r: Result<
        File,
        (),
    >)
        requires
            insert_allowed(old(dev)@, name@, encode_utf8(content@)),
        ensures
            final(dev).wf(),
            insert_outcome(old(dev)@, final(dev)@, name@, encode_utf8(content@), opt_file_view(r.ok())),
    {
        dev.insert_file(name.clone(), content)
    }
}

} // verus!
