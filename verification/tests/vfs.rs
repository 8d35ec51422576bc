use kernel_core::devfs::{device_of, DevFS, Device};
use std::cell::RefCell;
use std::rc::Rc;
use kernel_core::kmsg::{KernelMessage, KernelMessageLevel};
use kernel_core::rand::{RandomGenerator, MT19937};
use kernel_core::vfs::{starts_with, File, FileSystem, FileType, VirtualFileSystem};

fn path(parts: &[&str]) -> Vec<String> {
    parts.iter().map(|s| s.to_string()).collect()
}

fn devfs() -> DevFS {
    DevFS::new(MT19937::new(0), KernelMessage::default())
}

/// A file system that tells what it was asked to open: the file's number
/// is its own tag times 100 plus the number of components of the path.
struct Probe {
    tag: u64,
}

impl FileSystem for Probe {
    fn create(&mut self, _path: &[String]) -> Result<File, ()> {
        Err(())
    }
    fn open(&mut self, path: &[String]) -> Result<File, ()> {
        if path.iter().any(|c| c == "missing") {
            return Err(());
        }
        Ok(File { fd: self.tag * 100 + path.len() as u64, kind: FileType::RegularFile })
    }
    fn write(&mut self, _fd: &File, _buf: &[u8]) -> Result<u64, ()> {
        Err(())
    }
    fn read(&mut self, _fd: &File, _buf: &mut [u8], _offset: u64) -> Result<u64, ()> {
        Err(())
    }
    fn remove(&mut self, _path: &[String]) -> Result<(), ()> {
        Err(())
    }
    fn rename(&mut self, _src: &[String], _dst: &[String]) -> Result<(), ()> {
        Err(())
    }
    fn close(&mut self, _fd: &File) -> Result<(), ()> {
        Ok(())
    }
    fn list_dir(&mut self) -> Result<Vec<String>, ()> {
        Ok(Vec::new())
    }
}

/// A file system of devices that the test keeps a hand on while it is mounted.
struct Shared(Rc<RefCell<DevFS>>);

impl FileSystem for Shared {
    fn create(&mut self, path: &[String]) -> Result<File, ()> {
        self.0.borrow_mut().create(path)
    }
    fn open(&mut self, path: &[String]) -> Result<File, ()> {
        self.0.borrow_mut().open(path)
    }
    fn write(&mut self, fd: &File, buf: &[u8]) -> Result<u64, ()> {
        self.0.borrow_mut().write(fd, buf)
    }
    fn read(&mut self, fd: &File, buf: &mut [u8], offset: u64) -> Result<u64, ()> {
        self.0.borrow_mut().read(fd, buf, offset)
    }
    fn remove(&mut self, path: &[String]) -> Result<(), ()> {
        self.0.borrow_mut().remove(path)
    }
    fn rename(&mut self, src: &[String], dst: &[String]) -> Result<(), ()> {
        self.0.borrow_mut().rename(src, dst)
    }
    fn close(&mut self, fd: &File) -> Result<(), ()> {
        self.0.borrow_mut().close(fd)
    }
    fn list_dir(&mut self) -> Result<Vec<String>, ()> {
        self.0.borrow_mut().list_dir()
    }
}

/// A file system that writes down every path that it is asked to open.
struct Recorder(Rc<RefCell<Vec<Vec<String>>>>);

impl FileSystem for Recorder {
    fn create(&mut self, _path: &[String]) -> Result<File, ()> {
        Err(())
    }
    fn open(&mut self, path: &[String]) -> Result<File, ()> {
        self.0.borrow_mut().push(path.to_vec());
        Ok(File { fd: 7, kind: FileType::RegularFile })
    }
    fn write(&mut self, _fd: &File, _buf: &[u8]) -> Result<u64, ()> {
        Err(())
    }
    fn read(&mut self, _fd: &File, _buf: &mut [u8], _offset: u64) -> Result<u64, ()> {
        Err(())
    }
    fn remove(&mut self, _path: &[String]) -> Result<(), ()> {
        Err(())
    }
    fn rename(&mut self, _src: &[String], _dst: &[String]) -> Result<(), ()> {
        Err(())
    }
    fn close(&mut self, _fd: &File) -> Result<(), ()> {
        Ok(())
    }
    fn list_dir(&mut self) -> Result<Vec<String>, ()> {
        Ok(Vec::new())
    }
}

#[test]
fn open_asks_the_routed_file_system_once_and_no_other() {
    let (first, second) = (Rc::new(RefCell::new(Vec::new())), Rc::new(RefCell::new(Vec::new())));
    let mut vfs = VirtualFileSystem::default();
    vfs.mount(Box::new(Recorder(first.clone())), &path(&["a"]));
    vfs.mount(Box::new(Recorder(second.clone())), &path(&["a", "b"]));
    assert_eq!(vfs.open(&path(&["a", "b", "c"])), Ok(File { fd: 7, kind: FileType::RegularFile }));
    assert!(first.borrow().is_empty());
    assert_eq!(*second.borrow(), vec![path(&["c"])]);
    assert_eq!(vfs.mount_points, vec![path(&["a"]), path(&["a", "b"])]);
    assert_eq!(vfs.mounted_fs.len(), 2);
}

#[test]
fn open_without_match_asks_no_file_system() {
    let dev = Rc::new(RefCell::new(devfs()));
    let mut vfs = VirtualFileSystem::default();
    vfs.mount(Box::new(Shared(dev.clone())), &path(&["dev"]));
    assert_eq!(vfs.open(&path(&["tmp", "null"])), Err(()));
    assert!(dev.borrow().fds.is_empty());
    assert_eq!(dev.borrow().next_fd, 1);
}

#[test]
fn open_through_the_table_binds_the_number_to_the_device() {
    let dev = Rc::new(RefCell::new(devfs()));
    let mut vfs = VirtualFileSystem::default();
    vfs.mount(Box::new(Shared(dev.clone())), &path(&["dev"]));
    let f = vfs.open(&path(&["dev", "null"])).unwrap();
    assert_eq!(f, File { fd: 1, kind: FileType::CharDev });
    assert_eq!(dev.borrow().fds.len(), 1);
    assert_eq!(dev.borrow().fds.get(&f.fd).map(String::as_str), Some("null"));
    assert_eq!(device_of(&dev.borrow().fds[&f.fd]), Some(Device::Null));
    // a failed open in the routed file system binds nothing
    assert_eq!(vfs.open(&path(&["dev", "tty"])), Err(()));
    assert_eq!(dev.borrow().fds.len(), 1);
}

#[test]
fn devfs_keeps_the_first_component_only() {
    let mut fs = devfs();
    let f = fs.open(&path(&["kmsg", "and", "more"])).unwrap();
    assert_eq!(fs.fds.get(&f.fd).map(String::as_str), Some("kmsg"));
}

#[test]
fn devfs_serves_no_file_of_an_unknown_name() {
    let mut fs = devfs();
    fs.fds.insert(9, "tty".to_string());
    let f = File { fd: 9, kind: FileType::CharDev };
    let mut buf = vec![3u8; 2];
    assert_eq!(fs.read(&f, &mut buf, 0), Err(()));
    assert_eq!(buf, vec![3u8; 2]);
    assert_eq!(fs.write(&f, b"x"), Err(()));
}

#[test]
fn starts_with_compares_component_by_component() {
    assert!(starts_with(&path(&["a", "b", "c"]), &path(&["a", "b"])));
    assert!(starts_with(&path(&["a", "b"]), &path(&["a", "b"])));
    assert!(starts_with(&path(&["a"]), &path(&[])));
    assert!(!starts_with(&path(&["a"]), &path(&["a", "b"])));
    assert!(!starts_with(&path(&["a", "x", "c"]), &path(&["a", "b"])));
    assert!(!starts_with(&path(&["ab"]), &path(&["a"])));
}

#[test]
fn scenario_longest_prefix_wins() {
    let mut vfs = VirtualFileSystem::default();
    vfs.mount(Box::new(Probe { tag: 1 }), &path(&["a"]));
    vfs.mount(Box::new(Probe { tag: 2 }), &path(&["a", "b"]));
    assert_eq!(vfs.route(&path(&["a", "b", "c"])), Some((1, 2)));
    // the second file system was asked to open ["c"]
    assert_eq!(vfs.open(&path(&["a", "b", "c"])).unwrap().fd, 201);
    assert_eq!(vfs.route(&path(&["a", "x", "c"])), Some((0, 1)));
    assert_eq!(vfs.open(&path(&["a", "x", "c"])).unwrap().fd, 102);
}

#[test]
fn longest_prefix_does_not_depend_on_mount_order() {
    let mut vfs = VirtualFileSystem::default();
    vfs.mount(Box::new(Probe { tag: 2 }), &path(&["a", "b"]));
    vfs.mount(Box::new(Probe { tag: 1 }), &path(&["a"]));
    assert_eq!(vfs.route(&path(&["a", "b", "c"])), Some((0, 2)));
    assert_eq!(vfs.open(&path(&["a", "b", "c"])).unwrap().fd, 201);
}

#[test]
fn first_of_equally_long_mount_points_wins() {
    let mut vfs = VirtualFileSystem::default();
    vfs.mount(Box::new(Probe { tag: 1 }), &path(&["a"]));
    vfs.mount(Box::new(Probe { tag: 2 }), &path(&["a"]));
    assert_eq!(vfs.route(&path(&["a", "f"])), Some((0, 1)));
    assert_eq!(vfs.open(&path(&["a", "f"])).unwrap().fd, 101);
}

#[test]
fn open_without_matching_mount_point_fails() {
    let mut vfs = VirtualFileSystem::default();
    assert_eq!(vfs.open(&path(&["a"])), Err(()));
    vfs.mount(Box::new(Probe { tag: 1 }), &path(&["a", "b"]));
    assert_eq!(vfs.route(&path(&["a"])), None);
    assert_eq!(vfs.open(&path(&["a"])), Err(()));
    assert_eq!(vfs.open(&path(&["b", "a", "b"])), Err(()));
    assert_eq!(vfs.open(&path(&[])), Err(()));
}

#[test]
fn open_hands_on_the_failure_of_the_file_system() {
    let mut vfs = VirtualFileSystem::default();
    vfs.mount(Box::new(Probe { tag: 1 }), &path(&["a"]));
    assert_eq!(vfs.open(&path(&["a", "missing"])), Err(()));
}

#[test]
fn mount_at_the_root_matches_every_path() {
    let mut vfs = VirtualFileSystem::default();
    vfs.mount(Box::new(Probe { tag: 7 }), &path(&[]));
    assert_eq!(vfs.route(&path(&["x", "y"])), Some((0, 0)));
    assert_eq!(vfs.open(&path(&["x", "y"])).unwrap().fd, 702);
    vfs.mount(Box::new(Probe { tag: 8 }), &path(&["x"]));
    assert_eq!(vfs.open(&path(&["x", "y"])).unwrap().fd, 801);
}

#[test]
fn mount_appends_both_columns() {
    let mut vfs = VirtualFileSystem::default();
    vfs.mount(Box::new(Probe { tag: 1 }), &path(&["a"]));
    vfs.mount(Box::new(Probe { tag: 2 }), &path(&["b", "c"]));
    assert_eq!(vfs.mount_points, vec![path(&["a"]), path(&["b", "c"])]);
    assert_eq!(vfs.mounted_fs.len(), 2);
}

#[test]
fn umount_takes_out_the_first_entry_under_the_prefix() {
    let mut vfs = VirtualFileSystem::default();
    vfs.mount(Box::new(Probe { tag: 1 }), &path(&["a"]));
    vfs.mount(Box::new(Probe { tag: 2 }), &path(&["b", "c"]));
    vfs.mount(Box::new(Probe { tag: 3 }), &path(&["b"]));
    vfs.umount(&path(&["b"]));
    assert_eq!(vfs.mount_points, vec![path(&["a"]), path(&["b"])]);
    assert_eq!(vfs.mounted_fs.len(), 2);
    // the file system that was mounted at ["b"] is still the one at ["b"]
    assert_eq!(vfs.open(&path(&["b", "f"])).unwrap().fd, 301);
    vfs.umount(&path(&["zzz"]));
    assert_eq!(vfs.mount_points.len(), 2);
    vfs.umount(&path(&[]));
    assert_eq!(vfs.mount_points, vec![path(&["b"])]);
    assert_eq!(vfs.open(&path(&["a", "f"])), Err(()));
}

#[test]
fn scenario_mount_dev_open_null_write() {
    let mut vfs = VirtualFileSystem::default();
    vfs.mount(Box::new(devfs()), &path(&["dev"]));
    let f = vfs.open(&path(&["dev", "null"])).unwrap();
    assert_eq!(f.kind, FileType::CharDev);
    assert_eq!(f.fd, 1);
    assert_eq!(vfs.mounted_fs[0].write(&f, &[1, 2, 3, 4, 5]), Ok(5));
}

#[test]
fn scenario_open_zero_read_eight_bytes() {
    let mut fs = devfs();
    let f = fs.open(&path(&["zero"])).unwrap();
    assert_eq!(f, File { fd: 1, kind: FileType::CharDev });
    let mut buf = vec![0xffu8; 8];
    assert_eq!(fs.read(&f, &mut buf, 0), Ok(8));
    assert_eq!(buf, vec![0u8; 8]);
}

#[test]
fn devfs_opens_its_five_devices_only() {
    let mut fs = devfs();
    for (i, name) in ["zero", "null", "kmsg", "random", "urandom"].iter().enumerate() {
        let f = fs.open(&path(&[name])).unwrap();
        assert_eq!(f.fd, i as u64 + 1);
        assert_eq!(f.kind, FileType::CharDev);
    }
    assert_eq!(fs.fds.get(&1).map(String::as_str), Some("zero"));
    assert_eq!(fs.fds.get(&2).map(String::as_str), Some("null"));
    assert_eq!(fs.fds.get(&3).map(String::as_str), Some("kmsg"));
    assert_eq!(fs.fds.get(&4).map(String::as_str), Some("random"));
    assert_eq!(fs.fds.get(&5).map(String::as_str), Some("urandom"));
    assert_eq!(fs.open(&path(&["tty"])), Err(()));
    assert_eq!(fs.open(&path(&["Zero"])), Err(()));
    assert_eq!(fs.open(&path(&[])), Err(()));
    assert_eq!(fs.fds.len(), 5);
}

#[test]
fn devfs_file_numbers_grow_across_close() {
    let mut fs = devfs();
    let a = fs.open(&path(&["zero"])).unwrap();
    let b = fs.open(&path(&["null"])).unwrap();
    assert_eq!(fs.close(&a), Ok(()));
    let c = fs.open(&path(&["kmsg"])).unwrap();
    assert_eq!((a.fd, b.fd, c.fd), (1, 2, 3));
    assert_eq!(fs.fds.get(&2).map(String::as_str), Some("null"));
    assert_eq!(fs.fds.get(&1), None);
}

#[test]
fn devfs_open_fails_when_numbers_run_out() {
    let mut fs = devfs();
    fs.next_fd = u64::MAX;
    assert_eq!(fs.open(&path(&["zero"])), Err(()));
    assert_eq!(fs.next_fd, u64::MAX);
}

#[test]
fn devfs_unsupported_operations_fail() {
    let mut fs = devfs();
    assert_eq!(fs.create(&path(&["x"])), Err(()));
    assert_eq!(fs.remove(&path(&["zero"])), Err(()));
    assert_eq!(fs.rename(&path(&["zero"]), &path(&["one"])), Err(()));
    assert_eq!(fs.list_dir(), Ok(path(&["zero", "null", "kmsg", "random", "urandom"])));
}

#[test]
fn devfs_write_only_to_null() {
    let mut fs = devfs();
    let zero = fs.open(&path(&["zero"])).unwrap();
    let null = fs.open(&path(&["null"])).unwrap();
    assert_eq!(fs.write(&zero, b"abc"), Err(()));
    assert_eq!(fs.write(&null, b""), Ok(0));
    assert_eq!(fs.write(&null, b"hello"), Ok(5));
    assert_eq!(fs.write(&File { fd: 99, kind: FileType::CharDev }, b"x"), Err(()));
}

#[test]
fn devfs_read_null_or_closed_fails() {
    let mut fs = devfs();
    let null = fs.open(&path(&["null"])).unwrap();
    let zero = fs.open(&path(&["zero"])).unwrap();
    let mut buf = vec![7u8; 4];
    assert_eq!(fs.read(&null, &mut buf, 0), Err(()));
    assert_eq!(buf, vec![7u8; 4]);
    fs.close(&zero).unwrap();
    assert_eq!(fs.read(&zero, &mut buf, 0), Err(()));
    assert_eq!(buf, vec![7u8; 4]);
}

#[test]
fn devfs_read_random_takes_the_generators_bytes() {
    let mut fs = devfs();
    let r = fs.open(&path(&["random"])).unwrap();
    let u = fs.open(&path(&["urandom"])).unwrap();
    let mut buf = vec![0u8; 6];
    assert_eq!(fs.read(&r, &mut buf, 0), Ok(6));
    let mut g = MT19937::new(0);
    let mut expect = vec![0u8; 6];
    g.gen_bytes(&mut expect);
    assert_eq!(buf, expect);
    assert_eq!(&buf[..4], &2357136044u32.to_be_bytes());
    let mut more = vec![0u8; 4];
    assert_eq!(fs.read(&u, &mut more, 1234), Ok(4));
    let mut expect_more = vec![0u8; 4];
    g.gen_bytes(&mut expect_more);
    assert_eq!(more, expect_more);
}

#[test]
fn devfs_read_kmsg_from_offset() {
    let mut log = KernelMessage::default();
    log.add_message(1_000_001, KernelMessageLevel::Debug, "first");
    log.add_message(2_500_000, KernelMessageLevel::Error, "second");
    let all = "[    1.000001] first[    2.500000] second";
    let mut fs = DevFS::new(MT19937::new(0), log);
    let k = fs.open(&path(&["kmsg"])).unwrap();

    let mut buf = vec![0u8; 64];
    assert_eq!(fs.read(&k, &mut buf, 0), Ok(all.len() as u64));
    assert_eq!(&buf[..all.len()], all.as_bytes());
    assert!(buf[all.len()..].iter().all(|b| *b == 0));

    let mut small = vec![0u8; 10];
    assert_eq!(fs.read(&k, &mut small, 0), Ok(10));
    assert_eq!(small, all.as_bytes()[..10]);

    // across the border between the two messages
    let mut mid = vec![0u8; 12];
    assert_eq!(fs.read(&k, &mut mid, 15), Ok(12));
    assert_eq!(mid, all.as_bytes()[15..27]);

    let mut tail = vec![9u8; 12];
    let from = all.len() as u64 - 5;
    assert_eq!(fs.read(&k, &mut tail, from), Ok(5));
    assert_eq!(&tail[..5], b"econd");
    assert_eq!(&tail[5..], &[9u8; 7]);

    let mut none = vec![9u8; 4];
    assert_eq!(fs.read(&k, &mut none, all.len() as u64), Ok(0));
    assert_eq!(fs.read(&k, &mut none, u64::MAX), Ok(0));
    assert_eq!(none, vec![9u8; 4]);
}

#[test]
fn devfs_read_empty_kmsg() {
    let mut fs = devfs();
    let k = fs.open(&path(&["kmsg"])).unwrap();
    let mut buf = vec![1u8; 3];
    assert_eq!(fs.read(&k, &mut buf, 0), Ok(0));
    assert_eq!(buf, vec![1u8; 3]);
}
