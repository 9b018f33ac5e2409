//! Capturing memory images: bounded streams, sparse maps, sparse archives.

use smolvm_hip::archive::append_sparse;
use smolvm_hip::capture::ExactStream;
use smolvm_hip::extents::{extend_map, scan_extents, MAX_EXTENTS};
use smolvm_hip::stream::{Action, IoError, IoErrorKind, Stream};
use std::cell::RefCell;
use std::io::{Cursor, Read, Seek, SeekFrom};

fn failed(e: std::io::Error) -> IoError {
    let kind = match e.kind() {
        std::io::ErrorKind::UnexpectedEof => IoErrorKind::UnexpectedEof,
        std::io::ErrorKind::Interrupted => IoErrorKind::Interrupted,
        _ => IoErrorKind::Other,
    };
    IoError::new(kind, &e.to_string())
}

fn read_once(source: &mut impl Read, n: usize) -> std::io::Result<Vec<u8>> {
    let mut buffer = vec![0; n];
    let read = source.read(&mut buffer)?;
    buffer.truncate(read);
    Ok(buffer)
}

/// Carries out the reading actions on a source of the standard library.
fn reading<R: Read + Seek>(source: &RefCell<R>, action: Action) -> Result<Vec<u8>, IoError> {
    let mut source = source.borrow_mut();
    match action {
        Action::ReadExact(n) => {
            let mut buffer = vec![0; n];
            source.read_exact(&mut buffer).map_err(failed)?;
            Ok(buffer)
        }
        Action::Read(n) => read_once(&mut *source, n).map_err(failed),
        Action::ReadUninterrupted(n) => loop {
            match read_once(&mut *source, n) {
                Err(e) if e.kind() == std::io::ErrorKind::Interrupted => {}
                outcome => return outcome.map_err(failed),
            }
        },
        Action::Seek(offset) => {
            source.seek(SeekFrom::Start(offset)).map_err(failed)?;
            Ok(Vec::new())
        }
        _ => Err(IoError::new(IoErrorKind::Unsupported, "read only")),
    }
}

/// A sink that forgets what is written to it.
fn sink(action: Action) -> Result<Vec<u8>, IoError> {
    match action {
        Action::WriteAll(_) | Action::Flush => Ok(Vec::new()),
        _ => Err(IoError::new(IoErrorKind::Unsupported, "write only")),
    }
}

#[test]
fn bounded_stream_rejects_truncation_and_preserves_following_reply() {
    let source = RefCell::new(Cursor::new(&b"short"[..]));
    let mut short = ExactStream {
        source: Stream::new(|action: Action| reading(&source, action)),
        remaining: 16,
    };
    assert_eq!(
        short.copy_to(&mut Stream::new(sink)).unwrap_err().kind,
        IoErrorKind::UnexpectedEof
    );
    let source = RefCell::new(Cursor::new(b"RAM!OK saved\n"));
    let mut valid = ExactStream {
        source: Stream::new(|action: Action| reading(&source, action)),
        remaining: 4,
    };
    assert_eq!(valid.copy_to(&mut Stream::new(sink)).unwrap(), 4);
    assert_eq!(source.borrow().position(), 4);
    let mut reply = String::new();
    source.borrow_mut().read_to_string(&mut reply).unwrap();
    assert_eq!(reply, "OK saved\n");
}

#[test]
fn bounded_stream_reads_no_further_than_its_part() {
    let source = RefCell::new(Cursor::new(b"abcdefgh"));
    let mut part = ExactStream {
        source: Stream::new(|action: Action| reading(&source, action)),
        remaining: 5,
    };
    assert_eq!(part.read(3).unwrap(), b"abc");
    assert_eq!(part.remaining, 2);
    assert_eq!(part.read(0).unwrap(), b"");
    assert_eq!(part.read(100).unwrap(), b"de");
    assert_eq!(part.read(100).unwrap(), b"");
    assert_eq!(source.borrow().position(), 5);
    part.remaining = 10;
    assert_eq!(part.read(100).unwrap(), b"fgh");
    let e = part.read(100).unwrap_err();
    assert_eq!((e.kind, e.message.as_str()), (IoErrorKind::UnexpectedEof, "short RAM stream"));
    assert_eq!(part.remaining, 7);
}

/// A source of which every other read is interrupted.
struct Restless<'a> {
    bytes: &'a [u8],
    interrupt: bool,
}

impl Read for Restless<'_> {
    fn read(&mut self, buffer: &mut [u8]) -> std::io::Result<usize> {
        self.interrupt = !self.interrupt;
        if self.interrupt {
            return Err(std::io::ErrorKind::Interrupted.into());
        }
        let n = buffer.len().min(3);
        self.bytes.read(&mut buffer[..n])
    }
}

impl Seek for Restless<'_> {
    fn seek(&mut self, _: SeekFrom) -> std::io::Result<u64> {
        Err(std::io::ErrorKind::Unsupported.into())
    }
}

#[test]
fn interruptions_end_a_read_but_not_a_copy() {
    let source = RefCell::new(Restless { bytes: b"0123456789", interrupt: false });
    let mut part = ExactStream {
        source: Stream::new(|action: Action| reading(&source, action)),
        remaining: 8,
    };
    assert_eq!(part.read(2).unwrap_err().kind, IoErrorKind::Interrupted);
    assert_eq!(part.remaining, 8);
    assert_eq!(part.read(2).unwrap(), b"01");
    let copied = RefCell::new(Vec::new());
    let mut sink = Stream::new(|action: Action| {
        if let Action::WriteAll(bytes) = action {
            copied.borrow_mut().extend_from_slice(bytes);
        }
        Ok(Vec::new())
    });
    assert_eq!(part.copy_to(&mut sink).unwrap(), 6);
    assert_eq!(*copied.borrow(), b"234567");
    assert_eq!(source.borrow().bytes, b"89");
}

/// The sparse map of `bytes`, and the archive that holds them as a sparse file.
fn packed(bytes: &[u8]) -> (Vec<(u64, u64)>, Vec<u8>) {
    let logical = bytes.len() as u64;
    let source = RefCell::new(Cursor::new(bytes));
    let mut image = Stream::new(|action: Action| reading(&source, action));
    let extents = scan_extents(&mut image, logical).unwrap();
    let builder = RefCell::new(tar::Builder::new(Vec::new()));
    let mut archive = Stream::new(|action: Action| {
        if let Action::WriteAll(bytes) = action {
            builder.borrow_mut().get_mut().extend_from_slice(bytes);
        }
        Ok(Vec::new())
    });
    append_sparse(&mut archive, &mut image, logical, &extents).unwrap();
    (extents, builder.into_inner().into_inner().unwrap())
}

#[test]
fn scanned_sparse_map_roundtrips_fragmented_and_allocated_zero_pages() {
    for chunks in [1, 3, 61] {
        let mut bytes = vec![0; chunks * 65536 + 13];
        for index in (0..chunks).step_by(2) {
            bytes[index * 65536] = 42;
        }
        let (extents, packed) = packed(&bytes);
        assert_eq!(extents.len(), chunks / 2 + 2);
        let mut archive = tar::Archive::new(&packed[..]);
        let mut entries = archive.entries().unwrap();
        let mut entry = entries.next().unwrap().unwrap();
        assert_eq!(entry.path().unwrap().to_str().unwrap(), "checkpoint/memory.bin");
        assert_eq!(entry.header().mode().unwrap(), 0o600);
        assert_eq!(entry.header().size().unwrap(), bytes.len() as u64);
        let mut restored = Vec::new();
        entry.read_to_end(&mut restored).unwrap();
        assert!(restored == bytes);
        drop(entry);
        assert!(entries.next().is_none());
    }
    let source = RefCell::new(Cursor::new(&b"short"[..]));
    let mut reader = Stream::new(|action: Action| reading(&source, action));
    assert_eq!(
        scan_extents(&mut reader, 65536).unwrap_err().kind,
        IoErrorKind::UnexpectedEof
    );
}

#[test]
fn sparse_maps_of_small_images() {
    assert_eq!(packed(&[]).0, vec![(0, 0)]);
    assert_eq!(packed(&[0; 70000]).0, vec![(70000, 0)]);
    assert_eq!(packed(&[7]).0, vec![(0, 1), (1, 0)]);
    let mut bytes = vec![0; 4 * 65536];
    bytes[65536] = 1;
    bytes[3 * 65536 - 1] = 1;
    assert_eq!(packed(&bytes).0, vec![(65536, 131072), (262144, 0)]);
}

#[test]
fn too_many_extents_are_refused() {
    let mut extents = vec![(0, 65536); MAX_EXTENTS];
    assert!(extend_map(&mut extents, 131072, &[0, 0]).is_ok());
    assert!(extend_map(&mut extents, 65536, &[1]).is_ok());
    assert_eq!(extents[MAX_EXTENTS - 1], (0, 65537));
    let e = extend_map(&mut extents, 131072, &[0, 1]).unwrap_err();
    assert_eq!(e.kind, IoErrorKind::Other);
    assert_eq!(e.message, "prototype sparse map limit exceeded");
    assert_eq!(extents.len(), MAX_EXTENTS);
}

#[test]
fn archive_of_a_small_image_byte_for_byte() {
    let (_, packed) = packed(b"RAM!");
    assert_eq!(packed.len(), 512 + 512 + 1024);
    assert_eq!(&packed[..22], b"checkpoint/memory.bin\0");
    assert_eq!(&packed[100..108], b"0000600\0");
    assert_eq!(&packed[124..136], b"00000000004\0");
    assert_eq!(packed[156], b'S');
    assert_eq!(&packed[257..265], b"ustar  \0");
    assert_eq!(&packed[386..410], b"00000000000\x0000000000004\0");
    assert_eq!(&packed[410..434], b"00000000004\x0000000000000\0");
    assert_eq!(packed[482], 0);
    assert_eq!(&packed[483..495], b"00000000004\0");
    assert_eq!(&packed[512..516], b"RAM!");
    assert!(packed[516..].iter().all(|b| *b == 0));
}

#[test]
fn large_sizes_take_the_binary_form() {
    let written = RefCell::new(Vec::new());
    let mut archive = Stream::new(|action: Action| {
        if let Action::WriteAll(bytes) = action {
            written.borrow_mut().extend_from_slice(bytes);
        }
        Ok(Vec::new())
    });
    let mut source = Stream::new(|_: Action| Ok(Vec::new()));
    append_sparse(&mut archive, &mut source, 1 << 40, &[(1 << 40, 0)]).unwrap();
    let header = written.borrow();
    assert_eq!(&header[483..495], &[0x80, 0, 0, 0, 0, 0, 1, 0, 0, 0, 0, 0]);
    assert_eq!(tar::Header::from_byte_slice(&header[..512]).size().unwrap(), 1 << 40);
}

#[test]
fn a_failing_archive_or_source_ends_the_append() {
    let mut full = Stream::new(|_: Action| Err(IoError::new(IoErrorKind::WriteZero, "full")));
    let source = RefCell::new(Cursor::new(&b"RAM!"[..]));
    let mut image = Stream::new(|action: Action| reading(&source, action));
    let e = append_sparse(&mut full, &mut image, 4, &[(0, 4), (4, 0)]).unwrap_err();
    assert_eq!(e.kind, IoErrorKind::WriteZero);
    assert_eq!(source.borrow().position(), 0);
    let e = append_sparse(&mut Stream::new(sink), &mut image, 9, &[(0, 9), (9, 0)]).unwrap_err();
    assert_eq!(e.message, "short RAM stream");
}
