use rfs::file_system::{FileSystem, FsError};
use rfs::memory::MemFileSystem;
use rfs::path::split_path;

fn bytes(content: &str) -> &[u8] {
    content.as_bytes()
}

#[test]
fn end_to_end_in_memory() {
    let file = "test.txt";
    let mut file_system = MemFileSystem::new();
    file_system.create_file(file, bytes("abc")).unwrap();
    file_system.write_file(file, bytes("xyz")).unwrap();
    file_system.write_file(file, bytes("\nHello, world!")).unwrap();
    let content = file_system.read_file(file).unwrap();
    assert_eq!(content, "abcxyz\nHello, world!");
    file_system.delete_file(file).unwrap();
    let test_dir = "test_dir";
    file_system.create_dir(test_dir).unwrap();
    file_system
        .create_file(&(test_dir.to_owned() + "/" + file), bytes("Hello, Rust"))
        .unwrap();
    file_system.delete_dir(test_dir).unwrap();
    assert!(!file_system.read_file(&(test_dir.to_owned() + "/" + file)).is_ok());
}

#[test]
fn create_append_read_gives_concatenation() {
    let mut fs = MemFileSystem::new();
    fs.create_file("notes", bytes("first ")).unwrap();
    fs.write_file("notes", bytes("second")).unwrap();
    assert_eq!(fs.read_file("notes"), Ok("first second".to_string()));
}

#[test]
fn create_append_read_with_empty_parts() {
    let mut fs = MemFileSystem::new();
    fs.create_file("e", bytes("")).unwrap();
    fs.write_file("e", bytes("")).unwrap();
    assert_eq!(fs.read_file("e"), Ok(String::new()));
}

#[test]
fn multibyte_text_split_across_appends_is_decoded() {
    let mut fs = MemFileSystem::new();
    let word = "h\u{e9}llo";
    let b = word.as_bytes();
    fs.create_file("w", &b[..2]).unwrap();
    fs.write_file("w", &b[2..]).unwrap();
    assert_eq!(fs.read_file("w"), Ok(word.to_string()));
}

#[test]
fn reading_bytes_that_are_not_text_fails() {
    let mut fs = MemFileSystem::new();
    fs.create_file("bin", &[0x66, 0xff, 0x6f]).unwrap();
    assert_eq!(fs.read_file("bin"), Err(FsError::InvalidData));
}

#[test]
fn creating_a_file_again_overwrites_it() {
    let mut fs = MemFileSystem::new();
    fs.create_file("f", bytes("long content")).unwrap();
    fs.create_file("f", bytes("new")).unwrap();
    assert_eq!(fs.read_file("f"), Ok("new".to_string()));
}

#[test]
fn reading_a_file_never_created_is_not_found() {
    let mut fs = MemFileSystem::new();
    assert_eq!(fs.read_file("missing.txt"), Err(FsError::NotFound));
    fs.create_dir("d").unwrap();
    assert_eq!(fs.read_file("d/missing.txt"), Err(FsError::NotFound));
    assert_eq!(fs.read_file("nodir/missing.txt"), Err(FsError::NotFound));
}

#[test]
fn create_dir_makes_every_intermediate() {
    let mut fs = MemFileSystem::new();
    assert_eq!(fs.create_dir("a/b/c"), Ok(()));
    assert_eq!(fs.create_file("a/one", bytes("1")), Ok(()));
    assert_eq!(fs.create_file("a/b/two", bytes("2")), Ok(()));
    assert_eq!(fs.create_file("a/b/c/three", bytes("3")), Ok(()));
    assert_eq!(fs.read_file("a/b/two"), Ok("2".to_string()));
    assert_eq!(fs.create_dir("a/b"), Ok(()));
    assert_eq!(fs.read_file("a/b/c/three"), Ok("3".to_string()));
}

#[test]
fn create_dir_through_a_file_fails() {
    let mut fs = MemFileSystem::new();
    fs.create_file("f", bytes("x")).unwrap();
    assert_eq!(fs.create_dir("f/sub"), Err(FsError::NotADirectory));
    assert_eq!(fs.create_dir("f"), Err(FsError::AlreadyExists));
    assert_eq!(fs.read_file("f"), Ok("x".to_string()));
}

#[test]
fn delete_dir_removes_everything_inside() {
    let mut fs = MemFileSystem::new();
    fs.create_dir("top/mid/low").unwrap();
    fs.create_file("top/a", bytes("a")).unwrap();
    fs.create_file("top/mid/low/b", bytes("b")).unwrap();
    fs.create_file("other", bytes("kept")).unwrap();
    assert_eq!(fs.delete_dir("top"), Ok(()));
    assert_eq!(fs.read_file("top/a"), Err(FsError::NotFound));
    assert_eq!(fs.read_file("top/mid/low/b"), Err(FsError::NotFound));
    assert_eq!(fs.delete_dir("top"), Err(FsError::NotFound));
    assert_eq!(fs.read_file("other"), Ok("kept".to_string()));
}

#[test]
fn delete_dir_on_a_file_or_the_root_fails() {
    let mut fs = MemFileSystem::new();
    fs.create_file("f", bytes("x")).unwrap();
    assert_eq!(fs.delete_dir("f"), Err(FsError::NotADirectory));
    assert_eq!(fs.delete_dir("/"), Err(FsError::PermissionDenied));
    assert_eq!(fs.delete_dir(""), Err(FsError::PermissionDenied));
}

#[test]
fn deleting_a_missing_file_fails() {
    let mut fs = MemFileSystem::new();
    assert_eq!(fs.delete_file("ghost.txt"), Err(FsError::NotFound));
    fs.create_file("once", bytes("1")).unwrap();
    assert_eq!(fs.delete_file("once"), Ok(()));
    assert_eq!(fs.delete_file("once"), Err(FsError::NotFound));
}

#[test]
fn deleting_a_directory_as_a_file_fails() {
    let mut fs = MemFileSystem::new();
    fs.create_dir("d").unwrap();
    assert_eq!(fs.delete_file("d"), Err(FsError::IsADirectory));
    assert_eq!(fs.read_file("d"), Err(FsError::IsADirectory));
    assert_eq!(fs.create_file("d", bytes("x")), Err(FsError::IsADirectory));
}

#[test]
fn appending_to_a_missing_file_is_not_found() {
    let mut fs = MemFileSystem::new();
    assert_eq!(fs.write_file("absent", bytes("x")), Err(FsError::NotFound));
    assert_eq!(fs.read_file("absent"), Err(FsError::NotFound));
}

#[test]
fn a_file_on_the_way_is_not_a_directory() {
    let mut fs = MemFileSystem::new();
    fs.create_file("f", bytes("x")).unwrap();
    assert_eq!(fs.read_file("f/g"), Err(FsError::NotADirectory));
    assert_eq!(fs.write_file("f/g", bytes("y")), Err(FsError::NotADirectory));
    assert_eq!(fs.create_file("f/g", bytes("y")), Err(FsError::NotADirectory));
}

#[test]
fn creating_a_file_in_a_missing_directory_is_not_found() {
    let mut fs = MemFileSystem::new();
    assert_eq!(fs.create_file("no/such/file", bytes("x")), Err(FsError::NotFound));
}

#[test]
fn repeated_separators_name_the_same_file() {
    let mut fs = MemFileSystem::new();
    fs.create_dir("a").unwrap();
    fs.create_file("/a//b/", bytes("same")).unwrap();
    assert_eq!(fs.read_file("a/b"), Ok("same".to_string()));
}

#[test]
fn split_path_drops_empty_segments() {
    let expected: Vec<Vec<u8>> = vec![b"a".to_vec(), b"bc".to_vec()];
    assert_eq!(split_path("/a//bc/"), expected);
    assert_eq!(split_path("a/bc"), expected);
    assert!(split_path("").is_empty());
    assert!(split_path("///").is_empty());
}
