use sqfs::shared_position_file::{Positioned, SharedWriteAt};
use sqfs::sparse::{NoHoles, SparseRead};
use std::io;
use std::sync::Mutex;

/// A file in memory that takes at most `step` bytes with each write.
struct Memory {
    bytes: Mutex<Vec<u8>>,
    step: usize,
    flushes: Mutex<u32>,
}

impl Memory {
    fn new(step: usize) -> Memory {
        Memory { bytes: Mutex::new(Vec::new()), step, flushes: Mutex::new(0) }
    }

    fn put(&self, buf: &[u8], pos: u64) {
        let mut bytes = self.bytes.lock().unwrap();
        let end = pos as usize + buf.len();
        if bytes.len() < end {
            bytes.resize(end, 0);
        }
        bytes[pos as usize..end].copy_from_slice(buf);
    }
}

impl SharedWriteAt for Memory {
    fn write_at(&self, buf: &[u8], pos: u64) -> io::Result<usize> {
        let taken = buf.len().min(self.step);
        self.put(&buf[..taken], pos);
        Ok(taken)
    }

    fn write_all_at(&self, buf: &[u8], pos: u64) -> io::Result<()> {
        self.put(buf, pos);
        Ok(())
    }

    fn flush(&self) -> io::Result<()> {
        *self.flushes.lock().unwrap() += 1;
        Ok(())
    }
}

/// A file that refuses every write.
struct Broken;

impl SharedWriteAt for Broken {
    fn write_at(&self, _buf: &[u8], _pos: u64) -> io::Result<usize> {
        Err(io::Error::new(io::ErrorKind::Other, "refused"))
    }

    fn write_all_at(&self, _buf: &[u8], _pos: u64) -> io::Result<()> {
        Err(io::Error::new(io::ErrorKind::Other, "refused"))
    }

    fn flush(&self) -> io::Result<()> {
        Ok(())
    }
}

#[test]
fn positioned_starts_at_zero() {
    let file = Positioned::new(Memory::new(4));
    assert_eq!(file.position(), 0);
}

#[test]
fn positioned_write_moves_by_what_was_written() {
    let mut file = Positioned::new(Memory::new(4));
    assert_eq!(file.write(b"abcdefgh").unwrap(), 4);
    assert_eq!(file.position(), 4);
    assert_eq!(file.write(b"xy").unwrap(), 2);
    assert_eq!(file.position(), 6);
    let memory = file.into_inner();
    assert_eq!(&memory.bytes.lock().unwrap()[..], b"abcdxy");
}

#[test]
fn positioned_write_all_moves_by_the_length() {
    let mut file = Positioned::with_position(Memory::new(1), 3);
    assert_eq!(file.position(), 3);
    file.write_all(b"hello").unwrap();
    assert_eq!(file.position(), 8);
    file.write_all(b"").unwrap();
    assert_eq!(file.position(), 8);
    let memory = file.into_inner();
    assert_eq!(&memory.bytes.lock().unwrap()[..], b"\0\0\0hello");
}

#[test]
fn positioned_flush_keeps_the_position() {
    let mut file = Positioned::with_position(Memory::new(8), 17);
    file.flush().unwrap();
    assert_eq!(file.position(), 17);
    assert_eq!(*file.into_inner().flushes.lock().unwrap(), 1);
}

#[test]
fn failed_write_keeps_the_position() {
    let mut file = Positioned::with_position(Broken, 5);
    assert!(file.write(b"abc").is_err());
    assert_eq!(file.position(), 5);
    assert!(file.write_all(b"abc").is_err());
    assert_eq!(file.position(), 5);
}

#[test]
fn source_without_holes_skips_nothing() {
    let mut source = NoHoles::new(vec![1u8, 2, 3]);
    assert_eq!(source.skip_hole().unwrap(), 0);
    assert_eq!(source.skip_hole().unwrap(), 0);
    assert_eq!(source.get_ref(), &vec![1u8, 2, 3]);
    source.get_mut().push(4);
    assert_eq!(source.get_ref().len(), 4);
    assert_eq!(source.into_inner(), vec![1u8, 2, 3, 4]);
}

/// A source that reports one hole of a given length and none after it.
struct OneHole {
    left: u64,
}

impl SparseRead for OneHole {
    fn spec_finds_holes(&self) -> bool {
        true
    }

    fn skip_hole(&mut self) -> io::Result<u64> {
        let skipped = self.left;
        self.left = 0;
        Ok(skipped)
    }
}

/// A source that says nothing of holes.
struct Plain;

impl SparseRead for Plain {}

#[test]
fn sources_may_skip_their_holes() {
    let mut source = OneHole { left: 4096 };
    assert_eq!(source.skip_hole().unwrap(), 4096);
    assert_eq!(source.skip_hole().unwrap(), 0);
    let mut plain = Plain;
    assert_eq!(plain.skip_hole().unwrap(), 0);
}
