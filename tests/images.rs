use simplefs::{
    DirEntry, Error, FileSystem, FilesystemHeader, RamStorage, SimpleFsBuilder, ENTRY_SIZE,
    HEADER_SIZE, SIGNATURE,
};

use bytes::Bytes;

const CAPACITY: usize = 4096 * 128;

fn read_full_file(fs: &FileSystem<RamStorage>, index: usize) -> Vec<u8> {
    let mut file = fs.open(index).expect("file open");
    let mut buf = Vec::new();
    buf.resize(file.total_size(), 0);

    let bytes_read = file.read(&mut buf).expect("read");
    assert_eq!(bytes_read, buf.len());
    return buf;
}

#[test]
fn test_empty_fs_build() {
    let builder: SimpleFsBuilder = SimpleFsBuilder::new(CAPACITY);

    let image_bytes = builder.finalize().expect("empty fs image");
    assert_eq!(image_bytes.len(), HEADER_SIZE);

    let header =
        FilesystemHeader::from_bytes(&mut &image_bytes.clone()[..]).expect("parsing fs header");
    let signature = header.signature;
    let num_files = header.num_files;
    assert_eq!(signature, SIGNATURE);
    assert_eq!(num_files, 0);

    let fs = FileSystem::mount(RamStorage::new(image_bytes)).expect("filesystem mount");
    assert_eq!(fs.get_num_files(), 0);
    let status = fs.open(0).expect_err("open non-existent file");
    assert_eq!(status, Error::InvalidFileIndex);
}

#[test]
fn test_single_file_fs_build() {
    let filedata = vec![
        1, 2, 3, 4, 5, 6, 7, 8, 9, 10, 11, 12, 13, 14, 15, 16, 17, 18, 19, 20, 21,
    ];

    let mut builder: SimpleFsBuilder = SimpleFsBuilder::new(CAPACITY);
    builder.add_file(filedata.clone());

    let image_bytes = builder.finalize().expect("fs image");
    assert_eq!(image_bytes.len(), HEADER_SIZE + ENTRY_SIZE + filedata.len());

    let header =
        FilesystemHeader::from_bytes(&mut &image_bytes.clone()[..]).expect("parsing fs header");
    let signature = header.signature;
    let num_files = header.num_files;
    assert_eq!(signature, SIGNATURE);
    assert_eq!(num_files, 1);

    let fs = FileSystem::mount(RamStorage::new(image_bytes)).expect("filesystem mount");
    assert_eq!(fs.get_num_files(), 1);
    let buf = read_full_file(&fs, 0);
    assert_eq!(filedata, buf);
}

#[test]
fn single_file_image_is_byte_exact() {
    let filedata: Vec<u8> = (1..=21).collect();
    let mut builder = SimpleFsBuilder::new(64);
    builder.add_file(filedata.clone());
    let image = builder.finalize().expect("fs image");
    assert_eq!(image.len(), 39);
    let mut expected: Vec<u8> = b"SimpleFS".to_vec();
    expected.extend_from_slice(&[0, 1]);
    expected.extend_from_slice(&[0, 0, 0, 18, 0, 0, 0, 21]);
    expected.extend_from_slice(&filedata);
    assert_eq!(&image[..], &expected[..]);

    let fs = FileSystem::mount(RamStorage::new(image)).expect("mount");
    assert_eq!(fs.get_num_files(), 1);
    let file = fs.open(0).expect("open");
    assert_eq!(file.total_size(), 21);
    assert_eq!(read_full_file(&fs, 0), filedata);
}

#[test]
fn empty_image_is_ten_bytes() {
    let image = SimpleFsBuilder::new(10).finalize().expect("image");
    assert_eq!(&image[..], b"SimpleFS\0\0");
    let fs = FileSystem::mount(RamStorage::new(image)).expect("mount");
    assert_eq!(fs.get_num_files(), 0);
    assert_eq!(fs.open(0).err(), Some(Error::InvalidFileIndex));
}

#[test]
fn several_files_round_trip() {
    let files: Vec<Vec<u8>> = vec![vec![], vec![7], vec![1, 2, 3, 4, 5], vec![], vec![9; 300]];
    let mut builder = SimpleFsBuilder::new(CAPACITY);
    for f in &files {
        builder.add_file(f.clone());
    }
    let image = builder.finalize().expect("image");
    assert_eq!(image.len(), 10 + 8 * 5 + 306);
    let header = FilesystemHeader::from_bytes(&mut &image[..]).expect("header");
    assert_eq!(header.signature, SIGNATURE);
    assert_eq!(header.num_files, 5);
    let fs = FileSystem::mount(RamStorage::new(image)).expect("mount");
    assert_eq!(fs.get_num_files() as usize, files.len());
    for (i, f) in files.iter().enumerate() {
        assert_eq!(&read_full_file(&fs, i), f);
    }
}

#[test]
fn open_past_the_count_is_an_invalid_index() {
    let mut builder = SimpleFsBuilder::new(CAPACITY);
    builder.add_file(vec![1, 2]);
    builder.add_file(vec![3]);
    let fs = FileSystem::mount(RamStorage::new(builder.finalize().expect("image"))).expect("mount");
    assert!(fs.open(1).is_ok());
    assert_eq!(fs.open(2).err(), Some(Error::InvalidFileIndex));
    assert_eq!(fs.open(1000).err(), Some(Error::InvalidFileIndex));
}

#[test]
fn small_reads_add_up_to_the_whole_file() {
    let data: Vec<u8> = (0..100u8).collect();
    let mut builder = SimpleFsBuilder::new(CAPACITY);
    builder.add_file(data.clone());
    let fs = FileSystem::mount(RamStorage::new(builder.finalize().expect("image"))).expect("mount");
    let mut file = fs.open(0).expect("open");
    let mut got = Vec::new();
    let mut total = 0;
    loop {
        let mut chunk = [0u8; 7];
        let n = file.read(&mut chunk).expect("read");
        if n == 0 {
            break;
        }
        assert!(n <= 7);
        total += n;
        got.extend_from_slice(&chunk[..n]);
    }
    assert_eq!(total, file.total_size());
    assert_eq!(got, data);
    let mut more = [0u8; 4];
    assert_eq!(file.read(&mut more), Ok(0));
    assert_eq!(more, [0u8; 4]);
}

#[test]
fn read_leaves_the_rest_of_the_buffer() {
    let mut builder = SimpleFsBuilder::new(CAPACITY);
    builder.add_file(vec![5, 6, 7]);
    let fs = FileSystem::mount(RamStorage::new(builder.finalize().expect("image"))).expect("mount");
    let mut file = fs.open(0).expect("open");
    let mut buf = [0xAAu8; 5];
    assert_eq!(file.read(&mut buf), Ok(3));
    assert_eq!(buf, [5, 6, 7, 0xAA, 0xAA]);
}

#[test]
fn mount_rejects_a_short_buffer() {
    let storage = RamStorage::new(Bytes::from(b"SimpleFS\0".to_vec()));
    assert_eq!(FileSystem::mount(storage).err(), Some(Error::CorruptedFileSystem));
    let empty = RamStorage::new(Bytes::new());
    assert_eq!(FileSystem::mount(empty).err(), Some(Error::CorruptedFileSystem));
}

#[test]
fn mount_rejects_a_wrong_signature() {
    let storage = RamStorage::new(Bytes::from(b"SimpleFX\0\0".to_vec()));
    assert_eq!(FileSystem::mount(storage).err(), Some(Error::InvalidSignature));
}

#[test]
fn mount_rejects_a_directory_that_does_not_fit() {
    let mut image: Vec<u8> = b"SimpleFS\0\x02".to_vec();
    image.extend_from_slice(&[0, 0, 0, 26, 0, 0, 0, 0]);
    image.extend_from_slice(&[0, 0, 0, 26, 0, 0, 0]);
    let storage = RamStorage::new(Bytes::from(image));
    assert_eq!(FileSystem::mount(storage).err(), Some(Error::CorruptedFileSystem));
}

#[test]
fn open_rejects_an_entry_past_the_end() {
    let mut image: Vec<u8> = b"SimpleFS\0\x01".to_vec();
    image.extend_from_slice(&[0, 0, 0, 18, 0, 0, 0, 5]);
    image.extend_from_slice(&[1, 2, 3, 4]);
    let fs = FileSystem::mount(RamStorage::new(Bytes::from(image))).expect("mount");
    assert_eq!(fs.get_num_files(), 1);
    assert_eq!(fs.open(0).err(), Some(Error::CorruptedFileSystem));
}

#[test]
fn header_encodes_big_endian() {
    let header = FilesystemHeader {
        signature: 0x0102030405060708,
        num_files: 0x0a0b,
    };
    let mut out = vec![0xff];
    header.to_bytes(&mut out);
    assert_eq!(out, vec![0xff, 1, 2, 3, 4, 5, 6, 7, 8, 0x0a, 0x0b]);
    let mut reader: &[u8] = &[1, 2, 3, 4, 5, 6, 7, 8, 0x0a, 0x0b, 0x99];
    let back = FilesystemHeader::from_bytes(&mut reader).expect("header");
    assert_eq!(back.signature, 0x0102030405060708);
    assert_eq!(back.num_files, 0x0a0b);
    assert_eq!(reader, &[0x99]);
}

#[test]
fn header_needs_ten_bytes() {
    let mut reader: &[u8] = &[1, 2, 3, 4, 5, 6, 7, 8, 9];
    assert!(FilesystemHeader::from_bytes(&mut reader).is_none());
    assert_eq!(reader.len(), 9);
}

#[test]
fn entry_round_trips() {
    let entry = DirEntry {
        offset: 0xdeadbeef,
        length: 0x00010203,
    };
    let mut out = Vec::new();
    entry.to_bytes(&mut out);
    assert_eq!(out, vec![0xde, 0xad, 0xbe, 0xef, 0, 1, 2, 3]);
    out.push(42);
    let mut reader: &[u8] = &out;
    let back = DirEntry::from_bytes(&mut reader).expect("entry");
    assert_eq!((back.offset, back.length), (0xdeadbeef, 0x00010203));
    assert_eq!(reader, &[42]);
    let mut short: &[u8] = &[1, 2, 3, 4, 5, 6, 7];
    assert!(DirEntry::from_bytes(&mut short).is_none());
    assert_eq!(short.len(), 7);
}

#[test]
fn backend_error_converts() {
    assert_eq!(Error::<u8>::from(3), Error::Storage(3));
}
