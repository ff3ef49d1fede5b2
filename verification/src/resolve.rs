//! Source resolution and stream-URL building.
//!
//! A request names a remote root (`remote:sub/path`) and a file below it.
//! Resolution composes the file's relative path, looks for an active FUSE
//! mount of the remote in the OS mount table, and — when none serves the
//! file — builds the loopback URL under which the serving helper exposes
//! it. Reading the mount table and checking that a file exists is the
//! caller's I/O; everything here is pure text work.

use vstd::prelude::*;
use vstd::slice::{slice_subrange, slice_to_vec};

use crate::bytes::{
    contains_seq, index_of_first, leading_run, lemma_index_of_first_props,
    lemma_leading_run_props, lemma_trailing_run_props, seq_ieq, split_fields_spec,
    split_lines_spec, trailing_run, COLON,
};
use crate::bytes::{
    contains_bytes, eq_ignore_ascii_case, find_byte, leading_run_len, split_fields, split_lines,
    trailing_run_len,
};
use crate::encode::{encode_path_spec, percent_encode_path, DIGIT_0, SLASH};

verus! {

/// The decimal digits of a non-negative number, most significant first.
pub open spec fn decimal_of(n: int) -> Seq<u8>
    recommends
        n >= 0,
    decreases n,
{
    if n <= 9 {
        seq![(DIGIT_0 + n) as u8]
    } else {
        decimal_of(n / 10) + seq![(DIGIT_0 + n % 10) as u8]
    }
}

/// Append the decimal digits of a number.
fn push_decimal(out: &mut Vec<u8>, n: u64)
    ensures
        final(out)@ == old(out)@ + decimal_of(n as int),
    decreases n,
{
    if n <= 9 {
        out.push(DIGIT_0 + (n as u8));
        proof {
            assert(out@ =~= old(out)@ + decimal_of(n as int));
        }
    } else {
        push_decimal(out, n / 10);
        out.push(DIGIT_0 + ((n % 10) as u8));
        proof {
            assert(out@ =~= old(out)@ + decimal_of(n as int));
        }
    }
}

/// The scheme-and-host prefix of a helper URL: `http://127.0.0.1:`.
pub open spec fn loopback_prefix() -> Seq<u8> {
    seq![
        0x68u8,
        0x74,
        0x74,
        0x70,
        0x3A,
        0x2F,
        0x2F,
        0x31,
        0x32,
        0x37,
        0x2E,
        0x30,
        0x2E,
        0x30,
        0x2E,
        0x31,
        0x3A,
    ]
}

fn push_loopback_prefix(out: &mut Vec<u8>)
    ensures
        final(out)@ == old(out)@ + loopback_prefix(),
{
    out.push(0x68);
    out.push(0x74);
    out.push(0x74);
    out.push(0x70);
    out.push(0x3A);
    out.push(0x2F);
    out.push(0x2F);
    out.push(0x31);
    out.push(0x32);
    out.push(0x37);
    out.push(0x2E);
    out.push(0x30);
    out.push(0x2E);
    out.push(0x30);
    out.push(0x2E);
    out.push(0x31);
    out.push(0x3A);
    proof {
        assert(out@ =~= old(out)@ + loopback_prefix());
    }
}

/// The scheme-and-host prefix `http://localhost:`.
pub open spec fn localhost_prefix() -> Seq<u8> {
    seq![
        0x68u8,
        0x74,
        0x74,
        0x70,
        0x3A,
        0x2F,
        0x2F,
        0x6C,
        0x6F,
        0x63,
        0x61,
        0x6C,
        0x68,
        0x6F,
        0x73,
        0x74,
        0x3A,
    ]
}

fn push_localhost_prefix(out: &mut Vec<u8>)
    ensures
        final(out)@ == old(out)@ + localhost_prefix(),
{
    out.push(0x68);
    out.push(0x74);
    out.push(0x74);
    out.push(0x70);
    out.push(0x3A);
    out.push(0x2F);
    out.push(0x2F);
    out.push(0x6C);
    out.push(0x6F);
    out.push(0x63);
    out.push(0x61);
    out.push(0x6C);
    out.push(0x68);
    out.push(0x6F);
    out.push(0x73);
    out.push(0x74);
    out.push(0x3A);
    proof {
        assert(out@ =~= old(out)@ + localhost_prefix());
    }
}

/// The base URL of the helper serving on a loopback port:
/// `http://127.0.0.1:<port>`.
pub open spec fn serve_base_url_spec(port: u16) -> Seq<u8> {
    loopback_prefix() + decimal_of(port as int)
}

/// Build the base URL of the helper serving on a loopback port.
pub fn serve_base_url(port: u16) -> (r: Vec<u8>)
    ensures
        r@ == serve_base_url_spec(port),
{
    let mut out: Vec<u8> = Vec::new();
    push_loopback_prefix(&mut out);
    push_decimal(&mut out, port as u64);
    proof {
        assert(out@ =~= serve_base_url_spec(port));
    }
    out
}

/// The URL under which the helper on a loopback port serves a relative
/// path: the base URL, one slash, the percent-encoded path.
pub open spec fn stream_url_spec(port: u16, path: Seq<u8>) -> Seq<u8> {
    serve_base_url_spec(port) + seq![SLASH] + encode_path_spec(path)
}

/// Build the stream URL for the file at `relative_path` below the helper's
/// root, encoding the path so that it survives the URL unharmed.
pub fn build_stream_url(port: u16, relative_path: &[u8]) -> (r: Vec<u8>)
    ensures
        r@ == stream_url_spec(port, relative_path@),
{
    let mut out = serve_base_url(port);
    out.push(SLASH);
    let mut enc = percent_encode_path(relative_path);
    out.append(&mut enc);
    proof {
        assert(out@ =~= stream_url_spec(port, relative_path@));
    }
    out
}

/// The placeholder stream URL `http://localhost:<port>/<remote_path>`, the
/// path taken as it is.
pub fn get_stream_url(port: u16, remote_path: &[u8]) -> (r: Vec<u8>)
    ensures
        r@ == localhost_prefix() + decimal_of(port as int) + seq![SLASH] + remote_path@,
{
    let mut out: Vec<u8> = Vec::new();
    push_localhost_prefix(&mut out);
    push_decimal(&mut out, port as u64);
    out.push(SLASH);
    let mut p = slice_to_vec(remote_path);
    out.append(&mut p);
    proof {
        assert(out@ =~= localhost_prefix() + decimal_of(port as int) + seq![SLASH]
            + remote_path@);
    }
    out
}

/// Split `remote:sub/path` at the first colon into the remote's name and
/// its subpath: a missing or empty subpath is the root `/`, and a string
/// without a colon is all name.
pub fn parse_remote_root(remote_root: &[u8]) -> (r: (Vec<u8>, Vec<u8>))
    ensures
        match index_of_first(remote_root@, COLON) {
            Some(i) => r.0@ == remote_root@.take(i) && r.1@ == (if i + 1 == remote_root@.len() {
                seq![SLASH]
            } else {
                remote_root@.skip(i + 1)
            }),
            None => r.0@ == remote_root@ && r.1@ == seq![SLASH],
        },
{
    let mut root_slash: Vec<u8> = Vec::new();
    root_slash.push(SLASH);
    let n = remote_root.len();
    match find_byte(remote_root, COLON) {
        Some(i) => {
            proof {
                lemma_index_of_first_props(remote_root@, COLON);
                assert(i < n);
            }
            let name = slice_to_vec(slice_subrange(remote_root, 0, i));
            if i + 1 == n {
                proof {
                    assert(root_slash@ =~= seq![SLASH]);
                }
                (name, root_slash)
            } else {
                let path = slice_to_vec(slice_subrange(remote_root, i + 1, n));
                (name, path)
            }
        },
        None => {
            proof {
                assert(root_slash@ =~= seq![SLASH]);
            }
            (slice_to_vec(remote_root), root_slash)
        },
    }
}

/// A byte string stripped of leading slashes.
pub open spec fn trim_start_slashes_spec(s: Seq<u8>) -> Seq<u8> {
    s.skip(leading_run(s, SLASH))
}

/// A byte string stripped of leading and trailing slashes.
pub open spec fn trim_slashes_spec(s: Seq<u8>) -> Seq<u8> {
    if leading_run(s, SLASH) + trailing_run(s, SLASH) >= s.len() {
        Seq::empty()
    } else {
        s.subrange(leading_run(s, SLASH), s.len() - trailing_run(s, SLASH))
    }
}

fn trim_start_slashes(s: &[u8]) -> (r: Vec<u8>)
    ensures
        r@ == trim_start_slashes_spec(s@),
{
    proof {
        lemma_leading_run_props(s@, SLASH);
    }
    let k = leading_run_len(s, SLASH);
    let r = slice_to_vec(slice_subrange(s, k, s.len()));
    proof {
        assert(s@.subrange(k as int, s@.len() as int) =~= trim_start_slashes_spec(s@));
    }
    r
}

fn trim_slashes(s: &[u8]) -> (r: Vec<u8>)
    ensures
        r@ == trim_slashes_spec(s@),
{
    proof {
        lemma_leading_run_props(s@, SLASH);
        lemma_trailing_run_props(s@, SLASH);
    }
    let l = leading_run_len(s, SLASH);
    let t = trailing_run_len(s, SLASH);
    if l >= s.len() - t {
        let r: Vec<u8> = Vec::new();
        proof {
            assert(r@ =~= trim_slashes_spec(s@));
        }
        r
    } else {
        slice_to_vec(slice_subrange(s, l, s.len() - t))
    }
}

/// The relative path of the requested file below the remote: the root's
/// subpath and the file path joined with one slash, surrounding slashes
/// stripped at the join and at the start.
pub open spec fn compose_relative_spec(root_sub: Seq<u8>, file: Seq<u8>) -> Seq<u8> {
    trim_start_slashes_spec(
        trim_slashes_spec(root_sub) + seq![SLASH] + trim_start_slashes_spec(file),
    )
}

/// Compose the full relative path of the requested file from the remote
/// root's subpath and the file's path below it.
pub fn compose_relative(root_sub: &[u8], file_path: &[u8]) -> (r: Vec<u8>)
    ensures
        r@ == compose_relative_spec(root_sub@, file_path@),
{
    let mut joined = trim_slashes(root_sub);
    joined.push(SLASH);
    let mut f = trim_start_slashes(file_path);
    joined.append(&mut f);
    proof {
        assert(joined@ =~= trim_slashes_spec(root_sub@) + seq![SLASH] + trim_start_slashes_spec(
            file_path@,
        ));
    }
    let r = trim_start_slashes(joined.as_slice());
    r
}

/// The bytes of `fuse`, the filesystem-type marker of a FUSE mount.
pub open spec fn fuse_marker() -> Seq<u8> {
    seq![0x66u8, 0x75, 0x73, 0x65]
}

/// A device field stripped of trailing colons, as mount tables write
/// remotes (`remote:`).
pub open spec fn trim_end_colons(s: Seq<u8>) -> Seq<u8> {
    s.take(s.len() - trailing_run(s, COLON))
}

/// A mount-table line whose filesystem type is FUSE and whose device names
/// the remote, up to ASCII case and a trailing colon.
pub open spec fn line_matches_remote(fields: Seq<Seq<u8>>, remote_name: Seq<u8>) -> bool
    recommends
        fields.len() >= 3,
{
    contains_seq(fields[2], fuse_marker()) && seq_ieq(trim_end_colons(fields[0]), remote_name)
}

/// The local path of the file below a mount point.
pub open spec fn joined_candidate(mount_point: Seq<u8>, rel: Seq<u8>) -> Seq<u8> {
    mount_point + seq![SLASH] + trim_start_slashes_spec(rel)
}

/// The candidate local paths of the file, one for each mount-table line
/// that names a FUSE mount of the remote, in table order; a malformed line
/// with fewer than three fields ends the scan.
pub open spec fn mount_candidates(
    lines: Seq<Seq<u8>>,
    remote_name: Seq<u8>,
    rel: Seq<u8>,
) -> Seq<Seq<u8>>
    decreases lines.len(),
{
    if lines.len() == 0 {
        Seq::empty()
    } else {
        let fields = split_fields_spec(lines[0]);
        if fields.len() < 3 {
            Seq::empty()
        } else {
            (if line_matches_remote(fields, remote_name) {
                seq![joined_candidate(fields[1], rel)]
            } else {
                Seq::empty()
            }) + mount_candidates(lines.drop_first(), remote_name, rel)
        }
    }
}

fn fuse_marker_vec() -> (r: Vec<u8>)
    ensures
        r@ == fuse_marker(),
{
    let mut v: Vec<u8> = Vec::new();
    v.push(0x66);
    v.push(0x75);
    v.push(0x73);
    v.push(0x65);
    proof {
        assert(v@ =~= fuse_marker());
    }
    v
}

fn trim_end_colons_vec(s: &[u8]) -> (r: Vec<u8>)
    ensures
        r@ == trim_end_colons(s@),
{
    proof {
        lemma_trailing_run_props(s@, COLON);
    }
    let t = trailing_run_len(s, COLON);
    let r = slice_to_vec(slice_subrange(s, 0, s.len() - t));
    proof {
        assert(s@.subrange(0, s@.len() - t) =~= trim_end_colons(s@));
    }
    r
}

/// The candidate local paths of the file below an active FUSE mount of the
/// remote, from the mount table's text: for each matching line, the mount
/// point joined with the file's relative path. The caller takes the first
/// candidate that exists on disk; with none, the file must be served.
pub fn find_fuse_local_path(mounts: &[u8], remote_name: &[u8], relative_path: &[u8]) -> (r: Vec<
    Vec<u8>,
>)
    ensures
        r.deep_view() == mount_candidates(split_lines_spec(mounts@), remote_name@, relative_path@),
{
    let ghost all = split_lines_spec(mounts@);
    let lines = split_lines(mounts);
    let fuse = fuse_marker_vec();
    let mut out: Vec<Vec<u8>> = Vec::new();
    let mut i: usize = 0;
    proof {
        assert(all.skip(0) =~= all);
        assert(out.deep_view() + mount_candidates(all, remote_name@, relative_path@)
            =~= mount_candidates(all, remote_name@, relative_path@));
    }
    while i < lines.len()
        invariant
            all == split_lines_spec(mounts@),
            lines.deep_view() == all,
            i <= lines@.len(),
            lines@.len() == all.len(),
            fuse@ == fuse_marker(),
            out.deep_view() + mount_candidates(all.skip(i as int), remote_name@, relative_path@)
                =~= mount_candidates(all, remote_name@, relative_path@),
        decreases lines@.len() - i,
    {
        let ghost pending = all.skip(i as int);
        proof {
            assert(pending[0] == all[i as int]);
            assert(pending.drop_first() =~= all.skip(i + 1));
        }
        let line = &lines[i];
        proof {
            assert(lines.deep_view()[i as int] == lines@[i as int].deep_view());
            assert(line@ =~= lines@[i as int].deep_view());
            assert(line@ == pending[0]);
        }
        let fields = split_fields(line.as_slice());
        let ghost spec_fields = split_fields_spec(pending[0]);
        proof {
            assert(fields.deep_view() == spec_fields);
            assert(fields@.len() == spec_fields.len());
        }
        if fields.len() < 3 {
            proof {
                assert(mount_candidates(pending, remote_name@, relative_path@) =~= Seq::<
                    Seq<u8>,
                >::empty());
                assert(out.deep_view() + mount_candidates(pending, remote_name@, relative_path@)
                    =~= out.deep_view());
                assert(out.deep_view() =~= mount_candidates(all, remote_name@, relative_path@));
            }
            return out;
        }
        let ghost out0 = out.deep_view();
        let fs_type = &fields[2];
        let device = &fields[0];
        proof {
            assert(fields.deep_view()[2] == fields@[2].deep_view());
            assert(fields.deep_view()[0] == fields@[0].deep_view());
            assert(fs_type@ =~= spec_fields[2]);
            assert(device@ =~= spec_fields[0]);
        }
        let matched = if contains_bytes(fs_type.as_slice(), fuse.as_slice()) {
            let dev_trimmed = trim_end_colons_vec(device.as_slice());
            eq_ignore_ascii_case(dev_trimmed.as_slice(), remote_name)
        } else {
            false
        };
        proof {
            assert(matched == line_matches_remote(spec_fields, remote_name@));
        }
        if matched {
            let mount_point = &fields[1];
            proof {
                assert(fields.deep_view()[1] == fields@[1].deep_view());
                assert(mount_point@ =~= spec_fields[1]);
            }
            let mut candidate = slice_to_vec(mount_point.as_slice());
            candidate.push(SLASH);
            let mut rel = trim_start_slashes(relative_path);
            candidate.append(&mut rel);
            proof {
                assert(candidate@ =~= joined_candidate(spec_fields[1], relative_path@));
            }
            out.push(candidate);
            proof {
                assert forall|k: int| 0 <= k < out.deep_view().len() implies out.deep_view()[k]
                    == out0.push(candidate.deep_view())[k] by {
                    if k < out0.len() {
                        assert(out@[k] == out@.drop_last()[k]);
                    }
                }
                assert(out.deep_view() =~= out0.push(candidate.deep_view()));
                assert(candidate.deep_view() =~= candidate@);
            }
        }
        proof {
            let head: Seq<Seq<u8>> = if line_matches_remote(spec_fields, remote_name@) {
                seq![joined_candidate(spec_fields[1], relative_path@)]
            } else {
                Seq::empty()
            };
            assert(mount_candidates(pending, remote_name@, relative_path@) == head
                + mount_candidates(pending.drop_first(), remote_name@, relative_path@));
            assert(out.deep_view() =~= out0 + head);
            assert(out.deep_view() + mount_candidates(
                all.skip(i + 1),
                remote_name@,
                relative_path@,
            ) =~= mount_candidates(all, remote_name@, relative_path@));
        }
        i = i + 1;
    }
    proof {
        assert(all.skip(i as int) =~= Seq::<Seq<u8>>::empty());
        assert(out.deep_view() =~= mount_candidates(all, remote_name@, relative_path@));
    }
    out
}

} // verus!
