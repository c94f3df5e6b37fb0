use installer::errors::InstallError;
use installer::extract::FsAction;
use installer::unzip_to;
use std::io::Write;

const TEMP_FILE_NAME: &str = "hello_world.txt";

fn generate_zip_bytes() -> Vec<u8> {
    let cursor = std::io::Cursor::new(Vec::new());
    let mut zip_writer = zip::write::ZipWriter::new(cursor);

    let options = zip::write::FileOptions::default()
        .compression_method(zip::CompressionMethod::Stored)
        .unix_permissions(0o644);
    zip_writer.start_file(TEMP_FILE_NAME, options).unwrap();
    zip_writer.write_all(b"Hello, World!").unwrap();

    zip_writer.finish().unwrap().into_inner()
}

#[test]
fn unzip_to_success() {
    let bytes = generate_zip_bytes();

    let actions = unzip_to("test.zip", "test_folder", bytes).unwrap();

    let mut written: Option<(&String, &Vec<u8>)> = None;
    let mut mode: Option<u32> = None;
    for action in &actions {
        match action {
            FsAction::WriteFile(path, data) => written = Some((path, data)),
            FsAction::SetMode(_, m) => mode = Some(*m),
            _ => {}
        }
    }

    let (path, data) = written.unwrap();
    assert_eq!("test_folder/hello_world.txt", path.as_str());
    assert_eq!(b"Hello, World!".to_vec(), *data);
    assert_eq!(0o644, mode.unwrap() & 0o777);
}

/// Extracting an archive into the directory it already sits in plans
/// neither a copy nor a removal: the source archive survives.
#[test]
fn same_location_keeps_archive() {
    let bytes = generate_zip_bytes();

    let actions = unzip_to("test_folder/test.zip", "test_folder", bytes).unwrap();

    for action in &actions {
        match action {
            FsAction::RemoveFile(_) => panic!("the source archive would be removed"),
            FsAction::CopyFile(_, _) => panic!("a needless copy is planned"),
            _ => {}
        }
    }
}

#[test]
fn different_location_copies_then_removes_copy() {
    let bytes = generate_zip_bytes();

    let actions = unzip_to("downloads/test.zip", "test_folder", bytes).unwrap();

    let mut copied_to: Option<String> = None;
    let mut removed: Option<String> = None;
    for action in &actions {
        match action {
            FsAction::CopyFile(from, to) => {
                assert_eq!("downloads/test.zip", from.as_str());
                copied_to = Some(to.clone());
            }
            FsAction::RemoveFile(path) => removed = Some(path.clone()),
            _ => {}
        }
    }

    assert_eq!(Some("test_folder/test.zip".to_string()), copied_to);
    assert_eq!(copied_to, removed);
}

#[test]
fn traversal_entry_names_are_sanitized() {
    let cursor = std::io::Cursor::new(Vec::new());
    let mut zip_writer = zip::write::ZipWriter::new(cursor);
    let options = zip::write::FileOptions::default()
        .compression_method(zip::CompressionMethod::Stored);
    zip_writer.start_file("../../escape.txt", options).unwrap();
    zip_writer.write_all(b"out").unwrap();
    let bytes = zip_writer.finish().unwrap().into_inner();

    let actions = unzip_to("test.zip", "test_folder", bytes).unwrap();

    let mut paths: Vec<String> = Vec::new();
    for action in &actions {
        if let FsAction::WriteFile(path, _) = action {
            paths.push(path.clone());
        }
    }
    assert_eq!(vec!["test_folder/escape.txt".to_string()], paths);
}

#[test]
fn garbage_bytes_are_malformed() {
    let r = unzip_to("test.zip", "test_folder", vec![1, 2, 3, 4]);

    assert!(matches!(r, Err(InstallError::Malformed)));
}

fn push_u16(out: &mut Vec<u8>, v: u16) {
    out.extend_from_slice(&v.to_le_bytes());
}

fn push_u32(out: &mut Vec<u8>, v: u32) {
    out.extend_from_slice(&v.to_le_bytes());
}

/// An archive whose one entry carries an AES extra field while its
/// encryption flag is clear: decodable central directory, undecodable
/// entry.  Such bytes must surface a failure, not bring the process
/// down.
#[test]
fn encryption_marker_without_flag_is_malformed() {
    let mut bytes: Vec<u8> = Vec::new();
    // local file header: stored, no flags, empty content, name "a"
    push_u32(&mut bytes, 0x04034b50);
    push_u16(&mut bytes, 20); // version needed
    push_u16(&mut bytes, 0); // flags: not encrypted
    push_u16(&mut bytes, 0); // method: stored
    push_u16(&mut bytes, 0); // mod time
    push_u16(&mut bytes, 0); // mod date
    push_u32(&mut bytes, 0); // crc32
    push_u32(&mut bytes, 0); // compressed size
    push_u32(&mut bytes, 0); // uncompressed size
    push_u16(&mut bytes, 1); // name length
    push_u16(&mut bytes, 0); // extra length
    bytes.push(b'a');
    let central_offset = bytes.len() as u32;
    // central directory header with an AES (0x9901) extra field
    push_u32(&mut bytes, 0x02014b50);
    push_u16(&mut bytes, 20); // version made by
    push_u16(&mut bytes, 20); // version needed
    push_u16(&mut bytes, 0); // flags: not encrypted
    push_u16(&mut bytes, 0); // method: stored
    push_u16(&mut bytes, 0); // mod time
    push_u16(&mut bytes, 0); // mod date
    push_u32(&mut bytes, 0); // crc32
    push_u32(&mut bytes, 0); // compressed size
    push_u32(&mut bytes, 0); // uncompressed size
    push_u16(&mut bytes, 1); // name length
    push_u16(&mut bytes, 11); // extra length
    push_u16(&mut bytes, 0); // comment length
    push_u16(&mut bytes, 0); // disk number
    push_u16(&mut bytes, 0); // internal attributes
    push_u32(&mut bytes, 0); // external attributes
    push_u32(&mut bytes, 0); // local header offset
    bytes.push(b'a');
    push_u16(&mut bytes, 0x9901); // AES extra field id
    push_u16(&mut bytes, 7); // field length
    push_u16(&mut bytes, 0x0002); // vendor version AE-2
    push_u16(&mut bytes, 0x4541); // vendor id "AE"
    bytes.push(0x01); // AES-128
    push_u16(&mut bytes, 0); // real method: stored
    let central_size = bytes.len() as u32 - central_offset;
    // end of central directory
    push_u32(&mut bytes, 0x06054b50);
    push_u16(&mut bytes, 0); // disk number
    push_u16(&mut bytes, 0); // central directory disk
    push_u16(&mut bytes, 1); // entries on this disk
    push_u16(&mut bytes, 1); // entries in total
    push_u32(&mut bytes, central_size);
    push_u32(&mut bytes, central_offset);
    push_u16(&mut bytes, 0); // comment length

    let r = unzip_to("test.zip", "test_folder", bytes);

    assert!(matches!(r, Err(InstallError::Malformed)));
}
