use zill::fs::VirtualFs;

#[test]
fn test_vfs_basic() {
    let mut fs = VirtualFs::new(100, 1024);
    let root_path = "/";

    // Check root exists
    assert!(fs.stat(root_path).is_ok());

    // Create file
    let file_path = "/test.txt";
    fs.create_file(file_path, b"hello".to_vec()).unwrap();

    // Read file
    assert_eq!(fs.read(file_path).unwrap(), b"hello");

    // List dir
    let children = fs.list_dir(root_path).unwrap();
    assert_eq!(children, vec!["test.txt".to_string()]);
}

#[test]
fn test_mkdir_p() {
    let mut fs = VirtualFs::new(100, 1024);
    fs.mkdir_p("/a/b/c").unwrap();

    assert!(fs.stat("/a").unwrap().is_dir());
    assert!(fs.stat("/a/b").unwrap().is_dir());
    assert!(fs.stat("/a/b/c").unwrap().is_dir());

    let children = fs.list_dir("/a/b").unwrap();
    assert_eq!(children, vec!["c".to_string()]);
}

#[test]
fn test_canonicalize() {
    let fs = VirtualFs::new(100, 1024);
    let cwd = "/home/user";

    assert_eq!(fs.canonicalize("file.txt", cwd), "/home/user/file.txt".to_string());
    assert_eq!(fs.canonicalize("../other", cwd), "/home/other".to_string());
    assert_eq!(fs.canonicalize("/abs/path", cwd), "/abs/path".to_string());
    assert_eq!(fs.canonicalize("../../../..", cwd), "/".to_string());
}

#[test]
fn test_limits() {
    let mut fs = VirtualFs::new(2, 10); // Root is 1 node

    // This should work (adds /test.txt)
    assert!(fs.create_file("/test.txt", b"1234567890".to_vec()).is_ok());

    // This should fail (exceeds max_nodes)
    assert!(fs.create_file("/other.txt", b"small".to_vec()).is_err());

    // This should fail (exceeds max_file_size)
    let mut big_fs = VirtualFs::new(100, 5);
    assert!(big_fs.create_file("/big.txt", b"123456".to_vec()).is_err());
}
