//! The file system of devices: zero, null, the kernel's messages, and two
//! sources of random bytes.

use crate::kmsg::KernelMessage;
use crate::rand::{be_byte, RandomGenerator, MT19937};
use crate::vfs::{path_view, File, FileSystem, FileType};
use std::collections::BTreeMap;
use vstd::prelude::*;
use vstd::utf8::encode_utf8;

verus! {

/// A device of the file system.
#[derive(Clone, Copy, Debug, PartialEq, Eq, Structural)]
pub enum Device {
    /// Reads as zeros.
    Zero,
    /// Takes whatever is written.
    Null,
    /// Reads as the kernel's message log.
    Kmsg,
    /// Reads as random bytes.
    Random,
    /// Reads as random bytes.
    Urandom,
}

/// The device of the name `name`.
pub open spec fn device_named(name: Seq<char>) -> Option<Device> {
    if name == "zero"@ {
        Some(Device::Zero)
    } else if name == "null"@ {
        Some(Device::Null)
    } else if name == "kmsg"@ {
        Some(Device::Kmsg)
    } else if name == "random"@ {
        Some(Device::Random)
    } else if name == "urandom"@ {
        Some(Device::Urandom)
    } else {
        None
    }
}

/// The device of the name `name`.
pub fn device_of(name: &String) -> (d: Option<Device>)
    ensures
        d == device_named(name@),
{
    if *name == "zero".to_owned() {
        Some(Device::Zero)
    } else if *name == "null".to_owned() {
        Some(Device::Null)
    } else if *name == "kmsg".to_owned() {
        Some(Device::Kmsg)
    } else if *name == "random".to_owned() {
        Some(Device::Random)
    } else if *name == "urandom".to_owned() {
        Some(Device::Urandom)
    } else {
        None
    }
}

/// The bytes of the lines of a log, one line after the other.
pub open spec fn log_bytes(lines: Seq<Seq<char>>) -> Seq<u8>
    decreases lines.len(),
{
    if lines.len() == 0 {
        Seq::<u8>::empty()
    } else {
        log_bytes(lines.drop_last()) + encode_utf8(lines.last())
    }
}

/// Number of bytes that a read of `len` bytes at `offset` gets of `total` bytes.
pub open spec fn read_len(total: int, offset: int, len: int) -> int {
    if total <= offset {
        0
    } else if total - offset < len {
        total - offset
    } else {
        len
    }
}

/// Copies the bytes of the log from `offset` on into `buf`, as many as
/// there are and as `buf` takes, and tells their number.
pub fn read_log(kmsg: &KernelMessage, buf: &mut [u8], offset: u64) -> (n: usize)
    ensures
        final(buf)@.len() == old(buf)@.len(),
        n == read_len(log_bytes(kmsg.lines()).len() as int, offset as int, old(buf)@.len() as int),
        forall|j: int| 0 <= j < n ==> final(buf)@[j] == log_bytes(kmsg.lines())[offset + j],
        forall|j: int| n <= j < old(buf)@.len() ==> final(buf)@[j] == old(buf)@[j],
{
    let ghost lines = kmsg.lines();
    let size = buf.len();
    let mut skip: u64 = offset;
    let mut buf_off: usize = 0;
    let mut k: usize = 0;
    while k < kmsg.msgs.len()
        invariant
            k <= kmsg.msgs@.len(),
            lines == kmsg.lines(),
            buf@.len() == size,
            size == old(buf)@.len(),
            buf_off <= size,
            skip == (if offset >= log_bytes(lines.take(k as int)).len() {
                offset - log_bytes(lines.take(k as int)).len()
            } else {
                0
            }),
            buf_off == read_len(
                log_bytes(lines.take(k as int)).len() as int,
                offset as int,
                size as int,
            ),
            forall|j: int|
                0 <= j < buf_off ==> buf@[j] == log_bytes(lines.take(k as int))[offset + j],
            forall|j: int| buf_off <= j < size ==> buf@[j] == old(buf)@[j],
        decreases kmsg.msgs@.len() - k,
    {
        let ghost pre = log_bytes(lines.take(k as int));
        let text = kmsg.msgs[k].render();
        let bytes = text.as_str().as_bytes();
        proof {
            assert(lines.take(k + 1).drop_last() =~= lines.take(k as int));
            assert(lines.take(k + 1).last() == lines[k as int]);
            assert(bytes@ == encode_utf8(lines[k as int]));
            assert(log_bytes(lines.take(k + 1)) == pre + bytes@);
        }
        let m = bytes.len();
        if skip >= m as u64 {
            skip -= m as u64;
        } else {
            let start = skip as usize;
            let avail = m - start;
            let n = if size - buf_off < avail {
                size - buf_off
            } else {
                avail
            };
            let ghost base = buf@;
            let mut t: usize = 0;
            while t < n
                invariant
                    t <= n,
                    n <= size - buf_off,
                    start + n <= m,
                    m == bytes@.len(),
                    buf@.len() == size,
                    base.len() == size,
                    forall|j: int| 0 <= j < buf_off ==> buf@[j] == base[j],
                    forall|j: int| buf_off <= j < buf_off + t ==> buf@[j] == bytes@[start + (j - buf_off)],
                    forall|j: int| buf_off + t <= j < size ==> buf@[j] == base[j],
                decreases n - t,
            {
                buf[buf_off + t] = bytes[start + t];
                t += 1;
            }
            proof {
                let next = pre + bytes@;
                assert forall|j: int| 0 <= j < buf_off + n implies buf@[j] == next[offset + j] by {
                    if j < buf_off {
                        assert(buf@[j] == base[j]);
                        assert(next[offset + j] == pre[offset + j]);
                    } else {
                        assert(buf@[j] == bytes@[start + (j - buf_off)]);
                        assert(offset + j == pre.len() + start + (j - buf_off));
                        assert(next[offset + j] == bytes@[offset + j - pre.len()]);
                    }
                }
            }
            buf_off += n;
            skip = 0;
        }
        k += 1;
    }
    proof {
        assert(lines.take(k as int) =~= lines);
    }
    buf_off
}

/// The file system of devices.
pub struct DevFS {
    /// The name of the device of each open file.
    pub fds: BTreeMap<u64, String>,
    /// The number that the next open file gets.
    pub next_fd: u64,
    /// The generator behind the random devices.
    pub rng: MT19937,
    /// The log behind the message device.
    pub kmsg: KernelMessage,
}

impl DevFS {
    /// A file system of devices without open files, with the generator `rng` and the log `kmsg`.
    pub fn new(rng: MT19937, kmsg: KernelMessage) -> (fs: Self)
        ensures
            fs.fds@ == Map::<u64, String>::empty(),
            fs.next_fd == 1,
            fs.rng == rng,
            fs.kmsg == kmsg,
    {
        DevFS { fds: BTreeMap::new(), next_fd: 1, rng, kmsg }
    }

    /// The device behind the file of the number `fd`; none where no such
    /// file is open or its name is that of no device.
    pub open spec fn device(&self, fd: u64) -> Option<Device> {
        if self.fds@.contains_key(fd) {
            device_named(self.fds@[fd]@)
        } else {
            None
        }
    }
}

impl FileSystem for DevFS {
    open spec fn files(&self) -> Map<u64, Seq<Seq<char>>> {
        Map::new(|fd: u64| self.fds@.contains_key(fd), |fd: u64| seq![self.fds@[fd]@])
    }

    open spec fn target(&self, path: Seq<Seq<char>>) -> Seq<Seq<char>> {
        seq![path[0]]
    }

    open spec fn open_result(&self, path: Seq<Seq<char>>) -> Result<File, ()> {
        if path.len() > 0 && device_named(path[0]) is Some && self.next_fd < u64::MAX {
            Ok(File { fd: self.next_fd, kind: FileType::CharDev })
        } else {
            Err(())
        }
    }

    /// Nothing can be created among the devices.
    fn create(&mut self, path: &[String]) -> (r: Result<File, ()>)
        ensures
            r is Err,
            *final(self) == *old(self),
    {
        Err(())
    }

    /// Opens the device that the first component of `path` names, under a
    /// number that no file had before, and keeps the name under that number.
    fn open(&mut self, path: &[String]) -> (r: Result<File, ()>)
        ensures
            r matches Ok(f) ==> {
                &&& final(self).fds@ == old(self).fds@.insert(f.fd, path@[0])
                &&& final(self).next_fd == f.fd + 1
            },
            r is Err ==> final(self).fds@ == old(self).fds@ && final(self).next_fd == old(
                self,
            ).next_fd,
            final(self).rng == old(self).rng,
            final(self).kmsg == old(self).kmsg,
    {
        if path.len() == 0 {
            return Err(());
        }
        assert(path_view(path@)[0] == path@[0]@);
        match device_of(&path[0]) {
            Some(_) => {
                if self.next_fd == u64::MAX {
                    return Err(());
                }
                let fd = self.next_fd;
                self.next_fd = fd + 1;
                self.fds.insert(fd, path[0].clone());
                proof {
                    assert(self.files() =~= old(self).files().insert(fd, seq![path@[0]@]));
                }
                Ok(File { fd, kind: FileType::CharDev })
            },
            None => Err(()),
        }
    }

    /// The null device takes all of `buf`; nothing else can be written.
    fn write(&mut self, fd: &File, buf: &[u8]) -> (r: Result<u64, ()>)
        ensures
            *final(self) == *old(self),
            r == (if old(self).device(fd.fd) == Some(Device::Null) {
                Ok::<u64, ()>(buf@.len() as u64)
            } else {
                Err(())
            }),
    {
        match self.fds.get(&fd.fd) {
            Some(name) => match device_of(name) {
                Some(Device::Null) => Ok(buf.len() as u64),
                _ => Err(()),
            },
            None => Err(()),
        }
    }

    /// Reads zeros from the zero device, the bytes of the log from `offset`
    /// on from the message device, and the bytes of the generator's next
    /// words from the random devices. Nothing else can be read.
    fn read(&mut self, fd: &File, buf: &mut [u8], offset: u64) -> (r: Result<u64, ()>)
        ensures
            final(self).fds@ == old(self).fds@,
            final(self).next_fd == old(self).next_fd,
            final(self).kmsg == old(self).kmsg,
            match old(self).device(fd.fd) {
                None | Some(Device::Null) => {
                    &&& r is Err
                    &&& final(buf)@ == old(buf)@
                    &&& final(self).rng == old(self).rng
                },
                Some(Device::Zero) => {
                    &&& r == Ok::<u64, ()>(old(buf)@.len() as u64)
                    &&& forall|j: int| 0 <= j < old(buf)@.len() ==> final(buf)@[j] == 0
                    &&& final(self).rng == old(self).rng
                },
                Some(Device::Kmsg) => {
                    &&& r == Ok::<u64, ()>(
                        read_len(
                            log_bytes(old(self).kmsg.lines()).len() as int,
                            offset as int,
                            old(buf)@.len() as int,
                        ) as u64,
                    )
                    &&& forall|j: int|
                        0 <= j < r->Ok_0 ==> final(buf)@[j] == log_bytes(old(self).kmsg.lines())[offset
                            + j]
                    &&& forall|j: int| r->Ok_0 <= j < old(buf)@.len() ==> final(buf)@[j] == old(buf)@[j]
                    &&& final(self).rng == old(self).rng
                },
                Some(Device::Random) | Some(Device::Urandom) => {
                    &&& r == Ok::<u64, ()>(old(buf)@.len() as u64)
                    &&& forall|p: int|
                        0 <= p < old(buf)@.len() ==> #[trigger] final(buf)@[p] == be_byte(
                            old(self).rng.output((p / 4) as nat),
                            p % 4,
                        )
                    &&& forall|i: nat| #[trigger]
                        final(self).rng.output(i) == old(self).rng.output(
                            i + ((old(buf)@.len() + 3) / 4) as nat,
                        )
                },
            },
    {
        let device = match self.fds.get(&fd.fd) {
            Some(name) => device_of(name),
            None => None,
        };
        match device {
            Some(Device::Zero) => {
                let mut i: usize = 0;
                while i < buf.len()
                    invariant
                        buf@.len() == old(buf)@.len(),
                        i <= buf@.len(),
                        forall|j: int| 0 <= j < i ==> buf@[j] == 0,
                    decreases buf@.len() - i,
                {
                    buf[i] = 0;
                    i += 1;
                }
                Ok(buf.len() as u64)
            },
            Some(Device::Kmsg) => {
                let n = read_log(&self.kmsg, buf, offset);
                Ok(n as u64)
            },
            Some(Device::Random) | Some(Device::Urandom) => {
                self.rng.gen_bytes(buf);
                Ok(buf.len() as u64)
            },
            Some(Device::Null) | None => Err(()),
        }
    }

    /// Nothing can be removed from the devices.
    fn remove(&mut self, path: &[String]) -> (r: Result<(), ()>)
        ensures
            r is Err,
            *final(self) == *old(self),
    {
        Err(())
    }

    /// No device can be renamed.
    fn rename(&mut self, src: &[String], dst: &[String]) -> (r: Result<(), ()>)
        ensures
            r is Err,
            *final(self) == *old(self),
    {
        Err(())
    }

    /// Closes the file: its number stands for no device any more.
    fn close(&mut self, fd: &File) -> (r: Result<(), ()>)
        ensures
            r is Ok,
            final(self).fds@ == old(self).fds@.remove(fd.fd),
            final(self).next_fd == old(self).next_fd,
            final(self).rng == old(self).rng,
            final(self).kmsg == old(self).kmsg,
    {
        self.fds.remove(&fd.fd);
        Ok(())
    }

    /// The names of the devices.
    fn list_dir(&mut self) -> (r: Result<Vec<String>, ()>)
        ensures
            *final(self) == *old(self),
            r matches Ok(names) && names@.len() == 5 && names@[0]@ == "zero"@ && names@[1]@
                == "null"@ && names@[2]@ == "kmsg"@ && names@[3]@ == "random"@ && names@[4]@
                == "urandom"@,
    {
        let mut names: Vec<String> = Vec::new();
        names.push("zero".to_owned());
        names.push("null".to_owned());
        names.push("kmsg".to_owned());
        names.push("random".to_owned());
        names.push("urandom".to_owned());
        Ok(names)
    }
}

} // verus!
