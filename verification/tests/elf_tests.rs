use twins::elf::extract;
use twins::errors::ParseError;
use twins::BinaryFile;

/// A minimal but well-formed 64-bit little-endian ELF executable header
/// with no program or section headers.
fn minimal_elf64() -> Vec<u8> {
    let mut b = vec![0u8; 64];
    b[0] = 0x7f;
    b[1] = b'E';
    b[2] = b'L';
    b[3] = b'F';
    b[4] = 2; // 64-bit
    b[5] = 1; // little-endian
    b[6] = 1; // current object-file version
    b[16] = 2; // executable
    b[18] = 0x3e; // x86-64
    b[20] = 1; // current version
    b[52] = 64; // header size
    b[54] = 56; // program-header entry size
    b[58] = 64; // section-header entry size
    b
}

#[test]
fn extract_reads_minimal_binary() {
    let m = extract(&minimal_elf64()).unwrap();
    assert!(m.is_64);
    assert!(!m.is_executable);
    assert_eq!(m.interpreter, None);
    assert_eq!(m.libraries.len(), 0);
}

#[test]
fn extract_rejects_bad_magic() {
    let bytes: Vec<u8> = b"this is not an object file".to_vec();
    assert!(matches!(extract(&bytes), Err(ParseError)));
}

#[test]
fn extract_rejects_truncated_header() {
    let mut bytes = minimal_elf64();
    bytes.truncate(10);
    assert!(extract(&bytes).is_err());
}

#[test]
fn binary_file_display_and_debug_strings() {
    let mut bf = BinaryFile::new("libdemo.so".to_string()).unwrap();
    assert_eq!(bf.display_string(), "libdemo.so");
    assert_eq!(bf.debug_string(), "libdemo.so(None)");
    bf.real_path = Some("/lib/libdemo.so".to_string());
    assert_eq!(bf.debug_string(), "libdemo.so(/lib/libdemo.so)");
}

#[test]
fn binary_file_new_and_set_root() {
    let mut bf = BinaryFile::new("libdemo.so".to_string()).unwrap();
    assert_eq!(bf.name, "libdemo.so");
    assert_eq!(bf.real_path, None);
    assert_eq!(bf.interpreter, None);
    assert!(!bf.is_root);
    assert!(!bf.is_executable);
    bf.set_root();
    assert!(bf.is_root);
    assert_eq!(bf.name, "libdemo.so");
}
