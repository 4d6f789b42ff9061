use ryzc::fs::block_device::{transfrom_to_u32_array, transfrom_to_u8_array, UnusedBlocks, META_INFO_LEN};
use ryzc::fs::{BitMap, BlockDevice, File, BLOCK_NUM, BLOCK_SIZE, POEM, VFS};

fn formatted() -> BlockDevice {
    let mut dev = BlockDevice::new();
    let mut buf = vec![0u8; BLOCK_SIZE];
    for b in buf.iter_mut().take(32) {
        *b = 0xFF;
    }
    dev.write_block(255, &buf).unwrap();
    dev
}

fn runs(dev: &BlockDevice) -> Vec<(usize, usize)> {
    UnusedBlocks::parse_bit_map_block(dev)
        .unwrap()
        .iter()
        .map(|u| (u.block_index, u.count))
        .collect()
}

#[test]
fn bitmap_bits_are_most_significant_first() {
    let b = BitMap::new(vec![0x80, 0x01]);
    assert!(b.check_exists(0));
    assert!(!b.check_exists(1));
    assert!(!b.check_exists(7));
    assert!(!b.check_exists(8));
    assert!(b.check_exists(15));
}

#[test]
fn bitmap_set_then_clear() {
    let mut b = BitMap::new(vec![0, 0]);
    b.set_2_exist(3);
    assert_eq!(b.v, vec![0x10, 0]);
    assert!(b.check_exists(3));
    b.set_2_exist(9);
    assert_eq!(b.v, vec![0x10, 0x40]);
    b.set_2_exist(3);
    assert_eq!(b.v, vec![0x10, 0x40]);
    b.set_2_not_exist(3);
    assert_eq!(b.v, vec![0, 0x40]);
    assert!(!b.check_exists(3));
    assert!(b.check_exists(9));
}

#[test]
fn blocks_read_back_what_was_written() {
    let mut dev = BlockDevice::new();
    let data: Vec<u8> = (0..BLOCK_SIZE).map(|i| (i % 251) as u8).collect();
    dev.write_block(4095, &data).unwrap();
    assert_eq!(dev.read_block(4095).unwrap(), data);
    assert_eq!(dev.read_block(4094).unwrap(), vec![0u8; BLOCK_SIZE]);
    dev.clear_block(4095).unwrap();
    assert_eq!(dev.read_block(4095).unwrap(), vec![0u8; BLOCK_SIZE]);
}

#[test]
fn fresh_disk_is_one_free_run() {
    let dev = BlockDevice::new();
    assert_eq!(runs(&dev), vec![(0, BLOCK_NUM)]);
    assert!(dev.get_files().unwrap().is_empty());
    assert!(dev.init().unwrap().is_empty());
}

#[test]
fn formatted_disk_reserves_first_blocks() {
    let dev = formatted();
    assert_eq!(runs(&dev), vec![(256, 3840)]);
    assert_eq!(UnusedBlocks::get_unused_bitmap_block(&dev).unwrap()[..33], {
        let mut v = vec![0xFFu8; 32];
        v.push(0);
        v
    }[..]);
}

#[test]
fn free_runs_are_split_by_used_blocks() {
    let mut dev = formatted();
    UnusedBlocks::use_blocks(&mut dev, 300, 10).unwrap();
    UnusedBlocks::use_blocks(&mut dev, 4095, 1).unwrap();
    assert_eq!(runs(&dev), vec![(256, 44), (310, 3785)]);
    let fit = UnusedBlocks::get_usable_blocks_for_size(&dev, 44).unwrap();
    assert_eq!((fit.block_index, fit.count), (310, 3785));
    let fit = UnusedBlocks::get_usable_blocks_for_size(&dev, 43).unwrap();
    assert_eq!((fit.block_index, fit.count), (256, 44));
    assert!(UnusedBlocks::get_usable_blocks_for_size(&dev, 3785).is_none());
    let u = UnusedBlocks::new(7, 3);
    assert_eq!((u.block_index, u.count), (7, 3));
}

#[test]
fn names_hash_to_code_point_sum() {
    assert_eq!(BlockDevice::hash_file_name(&String::from("myfile")), 136);
    assert_eq!(BlockDevice::hash_file_name(&String::from("poem")), 178);
    assert_eq!(BlockDevice::hash_file_name(&String::from("")), 0);
    assert_eq!(BlockDevice::hash_file_name(&String::from("\u{ff}")), 0);
}

#[test]
fn init_creates_the_sample_files() {
    let mut dev = BlockDevice::new();
    ryzc::fs::init(&mut dev);
    let files = dev.get_files().unwrap();
    assert_eq!(files.len(), 2);
    assert_eq!(files[0].name, "myfile");
    assert_eq!((files[0].block_index, files[0].block_count, files[0].u8_length), (256, 1, 15));
    assert_eq!(files[1].name, "poem");
    assert_eq!((files[1].block_index, files[1].block_count), (257, 1));
    assert_eq!(files[1].u8_length, POEM.len());
    assert_eq!(VFS::get_file_names(&dev), vec![String::from("myfile"), String::from("poem")]);
    assert_eq!(VFS::read_file(&dev, &String::from("myfile")), Some(String::from("test short file")));
    assert_eq!(VFS::read_file(&dev, &String::from("poem")), Some(String::from(POEM)));
    assert_eq!(VFS::read_file(&dev, &String::from("nothing")), None);
    assert_eq!(runs(&dev), vec![(258, 3838)]);
}

#[test]
fn metadata_entry_layout() {
    let mut dev = BlockDevice::new();
    ryzc::fs::init(&mut dev);
    let block = dev.read_block(136).unwrap();
    let mut expected = vec![1u8, 0, 0, 1, 0, 15];
    expected.extend_from_slice(b"myfile");
    expected.resize(META_INFO_LEN, 0);
    assert_eq!(&block[..META_INFO_LEN], &expected[..]);
    assert!(block[META_INFO_LEN..].iter().all(|b| *b == 0));
    let data = dev.read_block(256).unwrap();
    assert_eq!(&data[..15], b"test short file");
    assert!(data[15..].iter().all(|b| *b == 0));
}

#[test]
fn duplicate_names_are_refused() {
    let mut dev = formatted();
    let f = File::create_file(&mut dev, String::from("a"), &String::from("one")).unwrap();
    assert_eq!((f.block_index, f.block_count, f.u8_length), (256, 1, 3));
    let before = dev.read_block(255).unwrap();
    assert!(File::create_file(&mut dev, String::from("a"), &String::from("two")).is_err());
    assert!(VFS::create_file(&mut dev, &String::from("a"), &String::from("two")).is_err());
    assert_eq!(dev.read_block(255).unwrap(), before);
    assert_eq!(VFS::read_file(&dev, &String::from("a")), Some(String::from("one")));
    assert!(dev.check_file_name_exist(&f));
}

#[test]
fn creating_fails_without_a_large_enough_run() {
    let mut dev = formatted();
    UnusedBlocks::use_blocks(&mut dev, 258, 3838).unwrap();
    // Blocks 256 and 257 are free, but a run must be strictly longer than the file.
    assert!(dev.insert_file(String::from("x"), &String::from("y".repeat(600))).is_err());
    let f = dev.insert_file(String::from("x"), &String::from("small")).unwrap();
    assert_eq!(f.block_index, 256);
    assert!(dev.insert_file(String::from("z"), &String::from("small")).is_err());
}

#[test]
fn multi_block_files_read_back() {
    let mut dev = formatted();
    let content: String = (0..1000).map(|i| (b'a' + (i % 26) as u8) as char).collect();
    let f = VFS::create_file(&mut dev, &String::from("long"), &content).unwrap();
    assert_eq!((f.block_index, f.block_count, f.u8_length), (256, 2, 1000));
    assert_eq!(VFS::read_file(&dev, &String::from("long")), Some(content.clone()));
    let exact = "q".repeat(512);
    let g = VFS::create_file(&mut dev, &String::from("exact"), &exact).unwrap();
    assert_eq!((g.block_index, g.block_count), (258, 2));
    assert_eq!(VFS::read_file(&dev, &String::from("exact")), Some(exact));
    assert_eq!(g.read_content(&dev), Ok("q".repeat(512)));
}

#[test]
fn empty_file_reads_back_empty() {
    let mut dev = formatted();
    let f = dev.insert_file(String::from("e"), &String::new()).unwrap();
    assert_eq!((f.block_count, f.u8_length), (1, 0));
    assert_eq!(VFS::read_file(&dev, &String::from("e")), Some(String::new()));
}

#[test]
fn bytes_read_back_as_code_points() {
    let mut dev = formatted();
    dev.insert_file(String::from("u"), &String::from("\u{e9}")).unwrap();
    let f = VFS::get_file_handle(&dev, &String::from("u")).unwrap();
    assert_eq!(f.u8_length, 2);
    assert!(f.is_readable(&dev));
    // The two UTF-8 bytes become two characters, cut down to two bytes of UTF-8.
    assert_eq!(VFS::read_file(&dev, &String::from("u")), Some(String::from("\u{c3}")));
    let cut = File { block_index: f.block_index, name: f.name.clone(), block_count: 1, u8_length: 1 };
    assert!(!cut.is_readable(&dev));
    let past = File { block_index: 4095, name: String::from("p"), block_count: 2, u8_length: 600 };
    assert!(!past.is_readable(&dev));
}

#[test]
fn long_lengths_are_stored_modulo_65536() {
    let mut dev = formatted();
    let content = "w".repeat(70000);
    let f = dev.insert_file(String::from("big"), &content).unwrap();
    assert_eq!((f.block_count, f.u8_length), (137, 70000));
    let stored = File::get_file(&dev, &String::from("big")).unwrap();
    assert_eq!((stored.block_index, stored.block_count, stored.u8_length), (256, 137, 70000 % 65536));
    assert!(!stored.is_readable(&dev));
}

#[test]
fn full_bucket_keeps_data_but_loses_the_entry() {
    let mut dev = formatted();
    let letters = ['a', 'b', 'c', 'd'];
    let mut names = Vec::new();
    for a in letters {
        for b in letters {
            for c in letters {
                for d in letters {
                    if a != b && a != c && a != d && b != c && b != d && c != d {
                        names.push([a, b, c, d].iter().collect::<String>());
                    }
                }
            }
        }
    }
    for (i, n) in names.iter().take(16).enumerate() {
        let f = dev.insert_file(n.clone(), &String::from("x")).unwrap();
        assert_eq!(f.block_index, 256 + i);
    }
    let lost = dev.insert_file(names[16].clone(), &String::from("x")).unwrap();
    assert_eq!(lost.block_index, 272);
    assert!(VFS::get_file_handle(&dev, &names[16]).is_none());
    assert_eq!(dev.get_files().unwrap().len(), 16);
    assert_eq!(runs(&dev), vec![(273, 3823)]);
}

#[test]
fn entries_pointing_into_metadata_blocks_are_ignored() {
    let mut dev = formatted();
    let mut block = vec![0u8; BLOCK_SIZE];
    block[1] = 200;
    block[6] = b'h';
    block[32] = 1;
    block[33] = 44;
    block[34] = 0;
    block[35] = 1;
    block[37] = 3;
    block[38] = b'o';
    block[39] = b'k';
    dev.write_block(0, &block).unwrap();
    let files = dev.get_files().unwrap();
    assert_eq!(files.len(), 1);
    assert_eq!((files[0].block_index, files[0].name.as_str(), files[0].u8_length), (300, "ok", 3));
    assert_eq!(dev.get_file_meta_data_base_on_name(&String::from("ok")).map(|f| f.block_index), Err(()));
}

#[test]
fn refresh_disk_zeroes_everything() {
    let mut dev = BlockDevice::new();
    ryzc::fs::init(&mut dev);
    ryzc::fs::refresh_disk(&mut dev);
    assert_eq!(runs(&dev), vec![(0, BLOCK_NUM)]);
    assert!(dev.get_files().unwrap().is_empty());
}

#[test]
fn words_and_bytes_copy_only_their_first_element() {
    let mut words = [7u32, 9];
    transfrom_to_u32_array(&[1, 2, 3, 4, 5, 6, 7, 8], &mut words);
    assert_eq!(words, [0x0403_0201, 9]);
    let mut bytes = [9u8; 8];
    transfrom_to_u8_array(&mut bytes, &[0x1122_3344, 5]);
    assert_eq!(bytes, [0x44, 9, 9, 9, 9, 9, 9, 9]);
}

#[test]
fn unused_blocks_of_the_device() {
    let mut dev = formatted();
    dev.insert_file(String::from("f"), &String::from("data")).unwrap();
    let r: Vec<(usize, usize)> =
        dev.get_unused_blocks().unwrap().iter().map(|u| (u.block_index, u.count)).collect();
    assert_eq!(r, vec![(257, 3839)]);
}

#[test]
fn writing_a_block_leaves_the_others() {
    let mut dev = BlockDevice::new();
    dev.write_block(10, &vec![5u8; BLOCK_SIZE]).unwrap();
    dev.write_block(11, &vec![6u8; BLOCK_SIZE]).unwrap();
    assert_eq!(dev.read_block(10).unwrap(), vec![5u8; BLOCK_SIZE]);
    assert_eq!(dev.read_block(11).unwrap(), vec![6u8; BLOCK_SIZE]);
    assert_eq!(dev.read_block(9).unwrap(), vec![0u8; BLOCK_SIZE]);
}

#[test]
fn a_file_found_by_name_is_listed() {
    let mut dev = BlockDevice::new();
    ryzc::fs::init(&mut dev);
    let found = File::get_file(&dev, &String::from("poem")).unwrap();
    let listed = dev.get_files().unwrap();
    assert!(listed.iter().any(|f| f.name == found.name
        && f.block_index == found.block_index
        && f.block_count == found.block_count
        && f.u8_length == found.u8_length));
}

#[test]
fn inserted_file_reads_back_whatever_its_length() {
    let mut dev = formatted();
    let content = "w".repeat(70000);
    let f = dev.insert_file(String::from("big"), &content).unwrap();
    assert!(f.block_index >= 256);
    assert!(f.is_readable(&dev));
    assert_eq!(f.read_content(&dev), Ok(content));
}

#[test]
fn a_saved_file_is_found_by_name() {
    let mut dev = formatted();
    let f = File { block_index: 300, name: String::from("saved"), block_count: 2, u8_length: 700 };
    dev.save_file_data(&f, &"s".repeat(700)).unwrap();
    let g = dev.get_file_meta_data_base_on_name(&String::from("saved")).unwrap();
    assert_eq!((g.block_index, g.name.as_str(), g.block_count, g.u8_length), (300, "saved", 2, 700));
    assert!(dev.check_file_name_exist(&f));
    assert_eq!(g.read_content(&dev), Ok("s".repeat(700)));
}

#[test]
fn hashing_ignores_character_order() {
    let a = BlockDevice::hash_file_name(&String::from("myfile"));
    let b = BlockDevice::hash_file_name(&String::from("elifym"));
    assert_eq!(a, b);
    assert!(a < 255);
}
