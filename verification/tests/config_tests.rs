use rcloneflix::config::{parse_rclone_config, version_first_line, ConfigError};

#[test]
fn remotes_are_sections_with_a_type() {
    let content = b"[gdrive]\ntype = drive\nscope = drive\n\n[s3remote]\ntype=s3\n";
    let remotes = parse_rclone_config(content).unwrap();
    assert_eq!(remotes.len(), 2);
    assert_eq!(remotes[0].name, b"gdrive".to_vec());
    assert_eq!(remotes[0].remote_type, b"drive".to_vec());
    assert_eq!(remotes[1].name, b"s3remote".to_vec());
    assert_eq!(remotes[1].remote_type, b"s3".to_vec());
}

#[test]
fn a_section_without_a_type_is_skipped() {
    let content = b"[plain]\nuser = x\n\n[good]\ntype = sftp\n";
    let remotes = parse_rclone_config(content).unwrap();
    assert_eq!(remotes.len(), 1);
    assert_eq!(remotes[0].name, b"good".to_vec());
}

#[test]
fn surrounding_whitespace_is_trimmed() {
    let content = b"  [padded]  \n   type   =   drive   \n";
    let remotes = parse_rclone_config(content).unwrap();
    assert_eq!(remotes[0].name, b"padded".to_vec());
    assert_eq!(remotes[0].remote_type, b"drive".to_vec());
}

#[test]
fn an_empty_configuration_is_an_error() {
    assert_eq!(parse_rclone_config(b"").unwrap_err(), ConfigError::NoRemotes);
    assert_eq!(
        parse_rclone_config(b"just = noise\n").unwrap_err(),
        ConfigError::NoRemotes
    );
}

#[test]
fn a_later_type_line_wins_within_a_section() {
    let content = b"[r]\ntype = a\ntype = b\n";
    let remotes = parse_rclone_config(content).unwrap();
    assert_eq!(remotes[0].remote_type, b"b".to_vec());
}

#[test]
fn version_output_yields_its_first_line() {
    assert_eq!(
        version_first_line(b"rclone v1.65.0\n- os/version: linux\n"),
        b"rclone v1.65.0".to_vec()
    );
    assert_eq!(version_first_line(b""), b"rclone unknown".to_vec());
}
