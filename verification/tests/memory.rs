//! The file system in memory.

use bulked::filesystem::errors::FilesystemError;
use bulked::filesystem::memory::MemoryFS;
use bulked::filesystem::FileSystem;

#[test]
fn test_memory_fs_create_and_read() {
    let mut fs = MemoryFS::new();
    let path = "/test/file.txt";
    let content = "hello world";

    fs.add_file(path, content).unwrap();

    assert!(fs.path_exists(path));
    assert!(fs.is_file(path));
    assert_eq!(fs.read_to_string(path).unwrap(), content);
}

#[test]
fn test_memory_fs_nonexistent_file() {
    let fs = MemoryFS::new();
    let path = "/nonexistent.txt";

    assert!(!fs.path_exists(path));
    assert!(fs.read_to_string(path).is_err());
}

#[test]
fn test_memory_fs_remove_file() {
    let mut fs = MemoryFS::new();
    let path = "/test.txt";

    fs.add_file(path, "content").unwrap();
    assert!(fs.path_exists(path));

    fs.remove_file(path).unwrap();
    assert!(!fs.path_exists(path));
}

#[test]
fn test_memory_fs_clear() {
    let mut fs = MemoryFS::new();
    fs.add_file("/file1.txt", "content1").unwrap();
    fs.add_file("/file2.txt", "content2").unwrap();

    assert!(fs.path_exists("/file1.txt"));
    assert!(fs.path_exists("/file2.txt"));

    fs.clear();

    assert!(!fs.path_exists("/file1.txt"));
    assert!(!fs.path_exists("/file2.txt"));
}

#[test]
fn test_memory_fs_write_string() {
    let mut fs = MemoryFS::new();
    let path = "/test.txt";
    let content = "Hello, world!";

    fs.write_string(path, content).unwrap();

    assert!(fs.path_exists(path));
    assert_eq!(fs.read_to_string(path).unwrap(), content);
}

#[test]
fn test_memory_fs_write_overwrites_existing() {
    let mut fs = MemoryFS::new();
    let path = "/test.txt";

    fs.write_string(path, "initial").unwrap();
    assert_eq!(fs.read_to_string(path).unwrap(), "initial");

    fs.write_string(path, "updated").unwrap();
    assert_eq!(fs.read_to_string(path).unwrap(), "updated");
}

fn check_filesystem_contract<F: FileSystem>(fs: F, test_file: &str, test_content: &str) {
    assert!(fs.path_exists(test_file), "File should exist");
    assert!(fs.is_file(test_file), "Should be identified as file");

    let content = fs.read_to_string(test_file).expect("Should read existing file");
    assert_eq!(content, test_content);

    let nonexistent = "/nonexistent.txt";
    assert!(!fs.path_exists(nonexistent), "Nonexistent file should not exist");
    assert!(
        fs.read_to_string(nonexistent).is_err(),
        "Reading nonexistent file should error"
    );
}

#[test]
fn test_memory_fs_satisfies_contract() {
    let mut fs = MemoryFS::new();
    let test_path = "/test/file.txt";
    let test_content = "line 1\nline 2\nline 3\n";

    fs.add_file(test_path, test_content).unwrap();

    check_filesystem_contract(fs, test_path, test_content);
}

#[test]
fn memory_fs_remove_of_a_missing_file_fails() {
    let mut fs = MemoryFS::new();
    fs.add_file("/a", "1").unwrap();
    assert!(matches!(
        fs.remove_file("/b"),
        Err(FilesystemError::FileNotFound { path }) if path == "/b"
    ));
    assert!(fs.has_file("/a"));
    assert!(fs.remove_file("/a").is_ok());
    assert!(matches!(fs.remove_file("/a"), Err(FilesystemError::FileNotFound { .. })));
}

#[test]
fn memory_fs_tells_of_bytes_that_are_no_text() {
    let mut fs = MemoryFS::new();
    fs.add_file_bytes("/bin", &[0xff, 0xfe]).unwrap();
    assert!(fs.path_exists("/bin"));
    assert!(matches!(
        fs.read_file("/bin"),
        Err(FilesystemError::InvalidUtf8 { path }) if path == "/bin"
    ));
    fs.add_file_bytes("/bin", "häh".as_bytes()).unwrap();
    assert_eq!(fs.read_file("/bin").unwrap(), "häh");
    assert!(fs.as_real_path("/bin").is_none());
}

#[test]
fn memory_fs_keeps_files_apart() {
    let mut fs = MemoryFS::default();
    fs.add_file("/a", "1").unwrap();
    fs.add_file("/b", "2").unwrap();
    fs.add_file("/a", "3").unwrap();
    assert_eq!(fs.read_file("/a").unwrap(), "3");
    assert_eq!(fs.read_file("/b").unwrap(), "2");
    fs.remove_file("/a").unwrap();
    assert!(!fs.has_file("/a"));
    assert_eq!(fs.read_file("/b").unwrap(), "2");
}

#[test]
fn memory_files_have_no_path_on_a_disk() {
    let mut fs = MemoryFS::new();
    assert!(!fs.path_exists("/m") && !fs.is_file("/m"));
    fs.write_string("/m", "text").unwrap();
    assert!(fs.path_exists("/m") && fs.is_file("/m"));
    assert!(fs.as_real_path("/m").is_none());
    assert!(fs.as_real_path("/none").is_none());
    assert_eq!(fs.read_to_string("/m").unwrap(), "text");
}
