use rcloneflix::resolve::{
    build_stream_url, compose_relative, find_fuse_local_path, get_stream_url, parse_remote_root,
    serve_base_url,
};

#[test]
fn remote_root_splits_at_the_first_colon() {
    let (name, path) = parse_remote_root(b"gdrive:/Movies");
    assert_eq!(name, b"gdrive".to_vec());
    assert_eq!(path, b"/Movies".to_vec());
}

#[test]
fn remote_root_without_subpath_is_the_root() {
    let (name, path) = parse_remote_root(b"gdrive:");
    assert_eq!(name, b"gdrive".to_vec());
    assert_eq!(path, b"/".to_vec());
}

#[test]
fn remote_root_without_colon_is_all_name() {
    let (name, path) = parse_remote_root(b"plain");
    assert_eq!(name, b"plain".to_vec());
    assert_eq!(path, b"/".to_vec());
}

#[test]
fn relative_path_is_joined_and_trimmed() {
    assert_eq!(
        compose_relative(b"/Movies/", b"/Action/file.mkv"),
        b"Movies/Action/file.mkv".to_vec()
    );
    assert_eq!(compose_relative(b"", b"file.mkv"), b"file.mkv".to_vec());
    assert_eq!(compose_relative(b"/", b"/x"), b"x".to_vec());
}

#[test]
fn fuse_mount_of_the_remote_is_found() {
    let mounts = b"proc /proc proc rw 0 0\n\
                   gdrive: /mnt/gdrive fuse.rclone rw,nosuid 0 0\n\
                   other /mnt/other ext4 rw 0 0\n";
    let candidates = find_fuse_local_path(mounts, b"gdrive", b"/Movies/file.mkv");
    assert_eq!(candidates, vec![b"/mnt/gdrive/Movies/file.mkv".to_vec()]);
}

#[test]
fn fuse_mount_matching_ignores_ascii_case() {
    let mounts = b"GDrive: /mnt/g fuse rw 0 0\n";
    let candidates = find_fuse_local_path(mounts, b"gdrive", b"x");
    assert_eq!(candidates, vec![b"/mnt/g/x".to_vec()]);
}

#[test]
fn non_fuse_mounts_never_match() {
    let mounts = b"gdrive: /mnt/gdrive ext4 rw 0 0\n";
    let candidates = find_fuse_local_path(mounts, b"gdrive", b"x");
    assert_eq!(candidates, Vec::<Vec<u8>>::new());
}

#[test]
fn malformed_mount_line_ends_the_scan() {
    let mounts = b"gdrive: /mnt/a fuse rw 0 0\nbroken\ngdrive: /mnt/b fuse rw 0 0\n";
    let candidates = find_fuse_local_path(mounts, b"gdrive", b"x");
    assert_eq!(candidates, vec![b"/mnt/a/x".to_vec()]);
}

#[test]
fn stream_url_encodes_the_path() {
    let url = build_stream_url(8080, b"Movies/My File.mkv");
    assert_eq!(url, b"http://127.0.0.1:8080/Movies/My%20File.mkv".to_vec());
}

#[test]
fn serve_base_url_names_the_loopback_port() {
    assert_eq!(serve_base_url(65535), b"http://127.0.0.1:65535".to_vec());
    assert_eq!(serve_base_url(80), b"http://127.0.0.1:80".to_vec());
}

#[test]
fn legacy_stream_url_keeps_the_path_as_it_is() {
    assert_eq!(
        get_stream_url(8765, b"gdrive:/Movies/file.mkv"),
        b"http://localhost:8765/gdrive:/Movies/file.mkv".to_vec()
    );
}
