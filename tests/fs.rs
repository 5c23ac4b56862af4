use easy_os::bitmap::Bitmap;
use easy_os::block_cache::BlockCacheManager;
use easy_os::block_dev::{BlockDevice, RamDisk};
use easy_os::efs::EasyFileSystem;
use easy_os::layout::{DirEntry, DiskInode, DiskInodeType, SuperBlock, EFS_MAGIC};

fn grow(efs: &mut EasyFileSystem<RamDisk>, inode: &mut DiskInode, new_size: u32) {
    let needed = inode.blocks_num_needed(new_size);
    let mut v = Vec::new();
    for _ in 0..needed {
        v.push(efs.alloc_data().unwrap());
    }
    inode.increase_size(new_size, v, &mut efs.cache, &mut efs.block_device);
}

#[test]
fn mkfs_then_open_gives_empty_root() {
    let efs = EasyFileSystem::create(RamDisk::new(4096), 4096, 1);
    assert_eq!(efs.inode_area_start_block, 2);
    assert_eq!(efs.data_area_start_block, 1 + 1 + 1024 + 1);
    let dev = efs.block_device;
    let mut efs = EasyFileSystem::open(dev).unwrap();
    let sb = SuperBlock::load(&mut efs.cache, &mut efs.block_device);
    assert_eq!(sb.magic(), EFS_MAGIC);
    assert_eq!(sb.magic(), 0x3b800001);
    assert!(sb.is_valid());
    assert_eq!(sb.total_blocks, 4096);
    assert_eq!(sb.inode_bitmap_blocks, 1);
    assert_eq!(sb.inode_area_blocks, 1024);
    assert_eq!(sb.data_bitmap_blocks, 1);
    assert_eq!(sb.data_area_blocks, 4096 - 1 - 1 - 1024 - 1);
    let (block, offset) = efs.get_disk_inode_pos(0);
    assert_eq!((block, offset), (2, 0));
    let root = DiskInode::load(block as usize, offset, &mut efs.cache, &mut efs.block_device);
    assert!(root.is_dir());
    assert!(!root.is_file());
    assert_eq!(root.size, 0);
    assert_eq!(root.data_blocks(), 0);
}

#[test]
fn open_rejects_unformatted_disk() {
    assert!(EasyFileSystem::open(RamDisk::new(16)).is_none());
    assert!(EasyFileSystem::open(RamDisk::new(0)).is_none());
}

#[test]
fn inode_positions_pack_four_per_block() {
    let efs = EasyFileSystem::create(RamDisk::new(4096), 4096, 1);
    assert_eq!(efs.get_disk_inode_pos(1), (2, 128));
    assert_eq!(efs.get_disk_inode_pos(3), (2, 384));
    assert_eq!(efs.get_disk_inode_pos(4), (3, 0));
    assert_eq!(efs.get_data_block_id(5), efs.data_area_start_block + 5);
}

#[test]
fn inode_ids_are_handed_out_in_order() {
    let mut efs = EasyFileSystem::create(RamDisk::new(4096), 4096, 1);
    assert_eq!(efs.alloc_inode(), Some(1));
    assert_eq!(efs.alloc_inode(), Some(2));
}

#[test]
fn data_blocks_are_recycled_and_zeroed() {
    let mut efs = EasyFileSystem::create(RamDisk::new(4096), 4096, 1);
    let start = efs.data_area_start_block;
    let a = efs.alloc_data().unwrap();
    let b = efs.alloc_data().unwrap();
    assert_eq!(a, start);
    assert_eq!(b, start + 1);
    efs.cache.write_byte(a as usize, 7, 0xaa, &mut efs.block_device);
    efs.dealloc_data(a);
    assert_eq!(efs.cache.read_byte(a as usize, 7, &mut efs.block_device), 0);
    assert_eq!(efs.alloc_data(), Some(a));
}

#[test]
fn create_write_read_hello() {
    let mut efs = EasyFileSystem::create(RamDisk::new(4096), 4096, 1);
    let mut inode = DiskInode::new(DiskInodeType::File);
    let text = b"Hello, world!";
    grow(&mut efs, &mut inode, 13);
    let written = inode.write_at(0, text, &mut efs.cache, &mut efs.block_device);
    assert_eq!(written, 13);
    let mut buf = [0u8; 100];
    let read = inode.read_at(0, &mut buf, &mut efs.cache, &mut efs.block_device);
    assert_eq!(read, 13);
    assert_eq!(&buf[..13], text);
    assert!(buf[13..].iter().all(|b| *b == 0));
}

#[test]
fn read_past_end_returns_nothing() {
    let mut efs = EasyFileSystem::create(RamDisk::new(4096), 4096, 1);
    let mut inode = DiskInode::new(DiskInodeType::File);
    grow(&mut efs, &mut inode, 10);
    let mut buf = [7u8; 4];
    assert_eq!(inode.read_at(10, &mut buf, &mut efs.cache, &mut efs.block_device), 0);
    assert_eq!(inode.read_at(50, &mut buf, &mut efs.cache, &mut efs.block_device), 0);
    assert_eq!(buf, [7u8; 4]);
    assert_eq!(inode.read_at(8, &mut buf, &mut efs.cache, &mut efs.block_device), 2);
}

#[test]
fn grow_across_indirect_boundary() {
    let mut efs = EasyFileSystem::create(RamDisk::new(4096), 4096, 1);
    let mut inode = DiskInode::new(DiskInodeType::File);
    let first: Vec<u8> = (0..14 * 1024).map(|i| (i % 251) as u8).collect();
    grow(&mut efs, &mut inode, 14 * 1024);
    assert_eq!(inode.data_blocks(), 28);
    assert_eq!(inode.write_at(0, &first, &mut efs.cache, &mut efs.block_device), 14 * 1024);
    let second: Vec<u8> = (0..512).map(|i| (i % 13 + 100) as u8).collect();
    assert_eq!(inode.blocks_num_needed(14336 + 512), 2);
    grow(&mut efs, &mut inode, 14336 + 512);
    assert_eq!(inode.write_at(14336, &second, &mut efs.cache, &mut efs.block_device), 512);
    assert_eq!(DiskInode::total_blocks(inode.size), 30);
    efs.cache.sync_all(&mut efs.block_device);
    let mut buf = vec![0u8; 512];
    assert_eq!(inode.read_at(14336, &mut buf, &mut efs.cache, &mut efs.block_device), 512);
    assert_eq!(buf, second);
    let mut head = vec![0u8; 14 * 1024];
    assert_eq!(inode.read_at(0, &mut head, &mut efs.cache, &mut efs.block_device), 14 * 1024);
    assert_eq!(head, first);
}

#[test]
fn store_then_load_inode() {
    let mut efs = EasyFileSystem::create(RamDisk::new(4096), 4096, 1);
    let mut inode = DiskInode::new(DiskInodeType::File);
    grow(&mut efs, &mut inode, 3000);
    let (block, offset) = efs.get_disk_inode_pos(1);
    inode.store(block as usize, offset, &mut efs.cache, &mut efs.block_device);
    let back = DiskInode::load(block as usize, offset, &mut efs.cache, &mut efs.block_device);
    assert_eq!(back.size, 3000);
    assert_eq!(back.direct, inode.direct);
    assert!(back.is_file());
}

#[test]
fn double_indirect_addressing_matches_claim_order() {
    let mut efs = EasyFileSystem::create(RamDisk::new(4096), 4096, 1);
    let mut inode = DiskInode::new(DiskInodeType::File);
    let size: u32 = 300 * 512;
    let needed = inode.blocks_num_needed(size);
    assert_eq!(needed, 300 + 1 + 1 + 2);
    let mut v = Vec::new();
    for _ in 0..needed {
        v.push(efs.alloc_data().unwrap());
    }
    inode.increase_size(size, v.clone(), &mut efs.cache, &mut efs.block_device);
    assert_eq!(inode.get_block_id(0, &mut efs.cache, &mut efs.block_device), v[0]);
    assert_eq!(inode.get_block_id(27, &mut efs.cache, &mut efs.block_device), v[27]);
    assert_eq!(inode.indirect1, v[28]);
    assert_eq!(inode.get_block_id(28, &mut efs.cache, &mut efs.block_device), v[29]);
    assert_eq!(inode.get_block_id(155, &mut efs.cache, &mut efs.block_device), v[156]);
    assert_eq!(inode.indirect2, v[157]);
    assert_eq!(inode.get_block_id(156, &mut efs.cache, &mut efs.block_device), v[159]);
    assert_eq!(inode.get_block_id(284, &mut efs.cache, &mut efs.block_device), v[288]);
    let cleared = inode.clear_size(&mut efs.cache, &mut efs.block_device);
    assert_eq!(cleared, v);
    assert_eq!(inode.size, 0);
    assert_eq!(inode.indirect1, 0);
    assert_eq!(inode.indirect2, 0);
}

#[test]
fn total_blocks_counts_index_blocks() {
    assert_eq!(DiskInode::total_blocks(0), 0);
    assert_eq!(DiskInode::total_blocks(1), 1);
    assert_eq!(DiskInode::total_blocks(512), 1);
    assert_eq!(DiskInode::total_blocks(513), 2);
    assert_eq!(DiskInode::total_blocks(28 * 512), 28);
    assert_eq!(DiskInode::total_blocks(28 * 512 + 1), 30);
    assert_eq!(DiskInode::total_blocks(156 * 512), 157);
    assert_eq!(DiskInode::total_blocks(157 * 512), 160);
    assert_eq!(DiskInode::_data_blocks(u32::MAX), 8388608);
}

#[test]
fn bitmap_allocates_lowest_clear_bit() {
    let mut dev = RamDisk::new(8);
    let mut cache = BlockCacheManager::new();
    let bm = Bitmap::new(2, 2);
    assert_eq!(bm.maximum(), 8192);
    for i in 0..70 {
        assert_eq!(bm.allocate(&mut cache, &mut dev), Some(i));
    }
    bm.dealloc(&mut cache, &mut dev, 3);
    bm.dealloc(&mut cache, &mut dev, 65);
    assert_eq!(bm.allocate(&mut cache, &mut dev), Some(3));
    assert_eq!(bm.allocate(&mut cache, &mut dev), Some(65));
    assert_eq!(bm.allocate(&mut cache, &mut dev), Some(70));
}

#[test]
fn bitmap_reports_full() {
    let mut dev = RamDisk::new(2);
    let mut cache = BlockCacheManager::new();
    let bm = Bitmap::new(1, 1);
    for i in 0..4096 {
        assert_eq!(bm.allocate(&mut cache, &mut dev), Some(i));
    }
    assert_eq!(bm.allocate(&mut cache, &mut dev), None);
    bm.dealloc(&mut cache, &mut dev, 4095);
    assert_eq!(bm.allocate(&mut cache, &mut dev), Some(4095));
}

#[test]
fn decomposition_splits_bit_index() {
    assert_eq!(easy_os::bitmap::decomposition(4096 + 8 * 3 + 5), (1, 3, 5));
    assert_eq!(easy_os::bitmap::decomposition(7), (0, 0, 7));
}

#[test]
fn cache_writes_back_on_eviction_and_sync() {
    let mut dev = RamDisk::new(40);
    let mut cache = BlockCacheManager::new();
    for b in 0..20usize {
        cache.write_byte(b, 0, b as u8 + 1, &mut dev);
    }
    // the oldest blocks were evicted and written back
    let mut buf = [0u8; 512];
    dev.read_block(0, &mut buf);
    assert_eq!(buf[0], 1);
    for b in 0..20usize {
        assert_eq!(cache.read_byte(b, 0, &mut dev), b as u8 + 1);
    }
    cache.write_u32(19, 8, 0xdeadbeef, &mut dev);
    dev.read_block(19, &mut buf);
    assert_eq!(buf[8], 0);
    cache.sync_all(&mut dev);
    dev.read_block(19, &mut buf);
    assert_eq!(&buf[8..12], &[0xef, 0xbe, 0xad, 0xde]);
    assert_eq!(cache.read_u32(19, 8, &mut dev), 0xdeadbeef);
}

#[test]
fn dir_entry_round_trip() {
    let e = DirEntry::new("filea", 7);
    assert_eq!(e.name(), b"filea".to_vec());
    assert_eq!(e.inode_number(), 7);
    let long = DirEntry::new("abcdefghijklmnopqrstuvwxyz0", 1);
    assert_eq!(long.name().len(), 27);
    let empty = DirEntry::empty();
    assert_eq!(empty.name(), Vec::<u8>::new());
    assert_eq!(empty.inode_number(), 0);
}

#[test]
fn superblock_initialize_sets_magic() {
    let mut sb = SuperBlock::empty();
    assert!(!sb.is_valid());
    sb.initialize(10, 1, 2, 3, 4);
    assert!(sb.is_valid());
    assert_eq!(sb.data_area_blocks, 4);
}

fn root_of(efs: &mut EasyFileSystem<RamDisk>) -> DiskInode {
    efs.root_inode()
}

/// Creates an empty file named `name` in the root directory and returns its inode number.
fn create_in_root(efs: &mut EasyFileSystem<RamDisk>, name: &str) -> u32 {
    let mut root = root_of(efs);
    assert!(root.is_dir());
    assert_eq!(root.find_inode_id(name.as_bytes(), &mut efs.cache, &mut efs.block_device), None);
    let id = efs.alloc_inode().unwrap();
    let (block, offset) = efs.get_disk_inode_pos(id);
    DiskInode::new(DiskInodeType::File).store(block as usize, offset, &mut efs.cache, &mut efs.block_device);
    let old_size = root.size;
    grow(efs, &mut root, old_size + 32);
    let entry = DirEntry::new(name, id).as_bytes();
    assert_eq!(root.write_at(old_size as usize, &entry, &mut efs.cache, &mut efs.block_device), 32);
    let (rb, ro) = efs.get_disk_inode_pos(0);
    root.store(rb as usize, ro, &mut efs.cache, &mut efs.block_device);
    id
}

#[test]
fn root_directory_starts_empty() {
    let efs = EasyFileSystem::create(RamDisk::new(4096), 4096, 1);
    let mut efs = EasyFileSystem::open(efs.block_device).unwrap();
    let root = root_of(&mut efs);
    assert!(root.ls(&mut efs.cache, &mut efs.block_device).is_empty());
}

#[test]
fn create_file_write_close_reopen_read() {
    let mut efs = EasyFileSystem::create(RamDisk::new(4096), 4096, 1);
    let id = create_in_root(&mut efs, "filea");
    assert_eq!(id, 1);
    let root = root_of(&mut efs);
    assert_eq!(root.ls(&mut efs.cache, &mut efs.block_device), vec![b"filea".to_vec()]);
    let found = root.find_inode_id(b"filea", &mut efs.cache, &mut efs.block_device).unwrap();
    assert_eq!(found, id);
    let (block, offset) = efs.get_disk_inode_pos(found);
    let mut file = DiskInode::load(block as usize, offset, &mut efs.cache, &mut efs.block_device);
    grow(&mut efs, &mut file, 13);
    assert_eq!(file.write_at(0, b"Hello, world!", &mut efs.cache, &mut efs.block_device), 13);
    file.store(block as usize, offset, &mut efs.cache, &mut efs.block_device);
    efs.cache.sync_all(&mut efs.block_device);
    let mut efs = EasyFileSystem::open(efs.block_device).unwrap();
    let root = root_of(&mut efs);
    let found = root.find_inode_id(b"filea", &mut efs.cache, &mut efs.block_device).unwrap();
    let (block, offset) = efs.get_disk_inode_pos(found);
    let file = DiskInode::load(block as usize, offset, &mut efs.cache, &mut efs.block_device);
    let mut buf = [0u8; 100];
    assert_eq!(file.read_at(0, &mut buf, &mut efs.cache, &mut efs.block_device), 13);
    assert_eq!(&buf[..13], b"Hello, world!");
    assert_eq!(root.find_inode_id(b"fileb", &mut efs.cache, &mut efs.block_device), None);
}

#[test]
fn dir_entry_bytes_hold_name_and_inode() {
    let bytes = DirEntry::new("ab", 0x01020304).as_bytes();
    assert_eq!(bytes.len(), 32);
    assert_eq!(&bytes[..3], b"ab\0");
    assert_eq!(&bytes[28..], &[4, 3, 2, 1]);
}

#[test]
fn read_all_returns_whole_file() {
    let mut efs = EasyFileSystem::create(RamDisk::new(4096), 4096, 1);
    let mut inode = DiskInode::new(DiskInodeType::File);
    let data: Vec<u8> = (0..1300).map(|i| (i % 7) as u8).collect();
    grow(&mut efs, &mut inode, 1300);
    inode.write_at(0, &data, &mut efs.cache, &mut efs.block_device);
    assert_eq!(inode.read_all(&mut efs.cache, &mut efs.block_device), data);
    let empty = DiskInode::new(DiskInodeType::File);
    assert!(empty.read_all(&mut efs.cache, &mut efs.block_device).is_empty());
}

#[test]
fn data_allocation_stops_at_the_end_of_the_file_system() {
    let mut efs = EasyFileSystem::create(RamDisk::new(1100), 1040, 1);
    let start = efs.data_area_start_block;
    assert_eq!(efs.total_blocks, 1040);
    let mut got = Vec::new();
    while let Some(b) = efs.alloc_data() {
        got.push(b);
    }
    assert_eq!(got.len() as u32, 1040 - start);
    assert_eq!(*got.last().unwrap(), 1039);
    efs.dealloc_data(got[3]);
    assert_eq!(efs.alloc_data(), Some(got[3]));
}
