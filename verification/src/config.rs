//! Remote-configuration parsing.
//!
//! The remote tool's configuration is an INI-style text: section headers in
//! brackets name remotes, and a `type` key inside a section gives the
//! remote's kind. Parsing collects every section that has a type; reading
//! the file from disk is the caller's I/O.

use vstd::prelude::*;
use vstd::slice::{slice_subrange, slice_to_vec};

use crate::bytes::{
    index_of_first, lemma_index_of_first_props, split_lines_spec, trim_ws_spec, EQ_SIGN,
};
use crate::bytes::{find_byte, split_lines, trim_ws};

verus! {

/// ASCII `[`.
pub const OPEN_BRACKET: u8 = 0x5B;

/// ASCII `]`.
pub const CLOSE_BRACKET: u8 = 0x5D;

/// One remote parsed from the configuration: its name and its type.
#[derive(Debug)]
pub struct RcloneRemote {
    /// The section header's name.
    pub name: Vec<u8>,
    /// The value of the section's `type` key.
    pub remote_type: Vec<u8>,
}

/// One file or directory of a remote listing.
#[derive(Debug)]
pub struct RcloneListItem {
    /// The entry's base name.
    pub name: Vec<u8>,
    /// The entry's path below the listed root.
    pub path: Vec<u8>,
    /// Whether the entry is a directory.
    pub is_dir: bool,
    /// The entry's size in bytes.
    pub size: i64,
    /// The entry's MIME type, when the listing knows one.
    pub mime_type: Option<Vec<u8>>,
}

/// Why a configuration yields no remotes.
#[derive(Clone, Copy, PartialEq, Eq, Structural, Debug)]
pub enum ConfigError {
    /// No section with a `type` key was found.
    NoRemotes,
}

/// The bytes of the key `type`.
pub open spec fn type_key() -> Seq<u8> {
    seq![0x74u8, 0x79, 0x70, 0x65]
}

/// A trimmed line that opens a section: brackets around the name.
pub open spec fn is_header(l: Seq<u8>) -> bool {
    l.len() >= 1 && l[0] == OPEN_BRACKET && l.last() == CLOSE_BRACKET
}

/// The name inside a section header's brackets.
pub open spec fn header_name(l: Seq<u8>) -> Seq<u8>
    recommends
        is_header(l),
{
    l.subrange(1, l.len() - 1)
}

/// A trimmed line that sets the `type` key: any line starting with `type`.
pub open spec fn is_type_line(l: Seq<u8>) -> bool {
    l.len() >= 4 && l.take(4) == type_key()
}

/// The value after the first `=`, trimmed; `None` without an `=`.
pub open spec fn eq_value(l: Seq<u8>) -> Option<Seq<u8>> {
    match index_of_first(l, EQ_SIGN) {
        Some(i) => Some(trim_ws_spec(l.skip(i + 1))),
        None => None,
    }
}

/// The remote a finished section contributes: one entry when both a name
/// and a type were seen.
pub open spec fn pending_remote(sec: Option<Seq<u8>>, ty: Option<Seq<u8>>) -> Seq<
    (Seq<u8>, Seq<u8>),
> {
    match (sec, ty) {
        (Some(s), Some(t)) => seq![(s, t)],
        _ => Seq::empty(),
    }
}

/// The remotes of a configuration, folded line by line: a header closes the
/// previous section and opens a new one, a `type` line with an `=` sets the
/// open section's type, the last section closes at the end.
pub open spec fn config_fold(
    lines: Seq<Seq<u8>>,
    sec: Option<Seq<u8>>,
    ty: Option<Seq<u8>>,
    acc: Seq<(Seq<u8>, Seq<u8>)>,
) -> Seq<(Seq<u8>, Seq<u8>)>
    decreases lines.len(),
{
    if lines.len() == 0 {
        acc + pending_remote(sec, ty)
    } else {
        let l = trim_ws_spec(lines[0]);
        if is_header(l) {
            config_fold(
                lines.drop_first(),
                Some(header_name(l)),
                None,
                acc + pending_remote(sec, ty),
            )
        } else if is_type_line(l) {
            match eq_value(l) {
                Some(v) => config_fold(lines.drop_first(), sec, Some(v), acc),
                None => config_fold(lines.drop_first(), sec, ty, acc),
            }
        } else {
            config_fold(lines.drop_first(), sec, ty, acc)
        }
    }
}

/// The name-and-type pairs of parsed remotes.
pub open spec fn remote_entries(rs: Seq<RcloneRemote>) -> Seq<(Seq<u8>, Seq<u8>)>
    decreases rs.len(),
{
    if rs.len() == 0 {
        Seq::empty()
    } else {
        seq![(rs[0].name@, rs[0].remote_type@)] + remote_entries(rs.drop_first())
    }
}

/// `remote_entries` read pointwise.
pub proof fn lemma_remote_entries_index(rs: Seq<RcloneRemote>, k: int)
    requires
        0 <= k < rs.len(),
    ensures
        remote_entries(rs).len() == rs.len(),
        remote_entries(rs)[k] == (rs[k].name@, rs[k].remote_type@),
    decreases rs.len(),
{
    lemma_remote_entries_len(rs);
    if k > 0 {
        lemma_remote_entries_index(rs.drop_first(), k - 1);
    }
}

/// `remote_entries` keeps the length.
pub proof fn lemma_remote_entries_len(rs: Seq<RcloneRemote>)
    ensures
        remote_entries(rs).len() == rs.len(),
    decreases rs.len(),
{
    if rs.len() > 0 {
        lemma_remote_entries_len(rs.drop_first());
    }
}

fn type_key_vec() -> (r: Vec<u8>)
    ensures
        r@ == type_key(),
{
    let mut v: Vec<u8> = Vec::new();
    v.push(0x74);
    v.push(0x79);
    v.push(0x70);
    v.push(0x65);
    proof {
        assert(v@ =~= type_key());
    }
    v
}

/// Parse an INI-style remote configuration: the remotes are the sections
/// that carry a `type` key, in file order; a configuration without any is
/// an error.
pub fn parse_rclone_config(content: &[u8]) -> (r: Result<Vec<RcloneRemote>, ConfigError>)
    ensures
        ({
            let entries = config_fold(split_lines_spec(content@), None, None, Seq::empty());
            match r {
                Ok(v) => entries.len() > 0 && remote_entries(v@) == entries && v@.len()
                    == entries.len() && (forall|k: int|
                    0 <= k < v@.len() ==> ((#[trigger] v@[k]).name@, v@[k].remote_type@)
                        == entries[k]),
                Err(e) => entries.len() == 0 && e == ConfigError::NoRemotes,
            }
        }),
{
    let ghost all = split_lines_spec(content@);
    let lines = split_lines(content);
    let tkey = type_key_vec();
    let mut out: Vec<RcloneRemote> = Vec::new();
    let mut cur_sec: Option<Vec<u8>> = None;
    let mut cur_type: Option<Vec<u8>> = None;
    let mut i: usize = 0;
    proof {
        assert(all.skip(0) =~= all);
        lemma_remote_entries_len(out@);
        assert(remote_entries(out@) =~= Seq::<(Seq<u8>, Seq<u8>)>::empty());
    }
    while i < lines.len()
        invariant
            all == split_lines_spec(content@),
            lines.deep_view() == all,
            i <= lines@.len(),
            lines@.len() == all.len(),
            tkey@ == type_key(),
            config_fold(all.skip(i as int), cur_sec.deep_view(), cur_type.deep_view(), remote_entries(out@))
                == config_fold(all, None, None, Seq::empty()),
        decreases lines@.len() - i,
    {
        let ghost pending = all.skip(i as int);
        let ghost sec0 = cur_sec.deep_view();
        let ghost ty0 = cur_type.deep_view();
        proof {
            assert(pending[0] == all[i as int]);
            assert(pending.drop_first() =~= all.skip(i + 1));
        }
        let raw_line = &lines[i];
        proof {
            assert(lines.deep_view()[i as int] == lines@[i as int].deep_view());
            assert(raw_line@ =~= lines@[i as int].deep_view());
            assert(raw_line@ == pending[0]);
        }
        let line = trim_ws(raw_line.as_slice());
        let ghost l = trim_ws_spec(pending[0]);
        let n = line.len();
        let header = n >= 1 && line[0] == OPEN_BRACKET && line[n - 1] == CLOSE_BRACKET;
        proof {
            assert(header == is_header(l));
        }
        if header {
            let prev_sec = cur_sec;
            let prev_ty = cur_type;
            match (prev_sec, prev_ty) {
                (Some(name), Some(rtype)) => {
                    let ghost nm = name@;
                    let ghost tp = rtype@;
                    proof {
                        assert(name.deep_view() =~= nm);
                        assert(rtype.deep_view() =~= tp);
                        assert(sec0 == Some(name.deep_view()));
                        assert(ty0 == Some(rtype.deep_view()));
                        assert(pending_remote(sec0, ty0) =~= seq![(nm, tp)]);
                    }
                    let ghost out0 = out@;
                    out.push(RcloneRemote { name, remote_type: rtype });
                    proof {
                        lemma_remote_entries_snoc(out0, out@);
                        assert(out@.last().name@ == nm);
                        assert(out@.last().remote_type@ == tp);
                        assert(remote_entries(out@) =~= remote_entries(out0) + pending_remote(
                            sec0,
                            ty0,
                        ));
                    }
                },
                _ => {
                    proof {
                        assert(pending_remote(sec0, ty0) =~= Seq::<(Seq<u8>, Seq<u8>)>::empty());
                        assert(remote_entries(out@) + pending_remote(sec0, ty0) =~= remote_entries(
                            out@,
                        ));
                    }
                },
            }
            let name_inner = slice_to_vec(slice_subrange(line.as_slice(), 1, n - 1));
            proof {
                assert(name_inner@ =~= header_name(l));
                assert(name_inner.deep_view() =~= header_name(l));
            }
            cur_sec = Some(name_inner);
            cur_type = None;
            proof {
                assert(cur_sec.deep_view() == Some(header_name(l)));
            }
        } else {
            let is_type = n >= 4 && line[0] == 0x74 && line[1] == 0x79 && line[2] == 0x70
                && line[3] == 0x65;
            proof {
                if is_type {
                    assert(l.take(4) =~= type_key());
                } else {
                    if is_type_line(l) {
                        assert(l.take(4) == type_key());
                        assert(l.take(4)[0] == 0x74 && l.take(4)[1] == 0x79 && l.take(4)[2] == 0x70
                            && l.take(4)[3] == 0x65);
                        assert(false);
                    }
                }
            }
            if is_type {
                match find_byte(line.as_slice(), EQ_SIGN) {
                    Some(eq_i) => {
                        proof {
                            lemma_index_of_first_props(line@, EQ_SIGN);
                        }
                        let v = trim_ws(slice_subrange(line.as_slice(), eq_i + 1, n));
                        proof {
                            assert(line@.subrange(eq_i + 1, n as int) =~= line@.skip(eq_i + 1));
                            assert(v.deep_view() =~= v@);
                        }
                        cur_type = Some(v);
                        proof {
                            assert(cur_type.deep_view() == eq_value(l));
                        }
                    },
                    None => {
                        proof {
                            assert(eq_value(l) is None);
                        }
                    },
                }
            }
        }
        proof {
            assert(config_fold(
                all.skip(i + 1),
                cur_sec.deep_view(),
                cur_type.deep_view(),
                remote_entries(out@),
            ) == config_fold(all, None, None, Seq::empty()));
        }
        i = i + 1;
    }
    proof {
        assert(all.skip(i as int) =~= Seq::<Seq<u8>>::empty());
    }
    let ghost secf = cur_sec.deep_view();
    let ghost tyf = cur_type.deep_view();
    match (cur_sec, cur_type) {
        (Some(name), Some(rtype)) => {
            let ghost nm = name@;
            let ghost tp = rtype@;
            proof {
                assert(name.deep_view() =~= nm);
                assert(rtype.deep_view() =~= tp);
                assert(secf == Some(name.deep_view()));
                assert(tyf == Some(rtype.deep_view()));
                assert(pending_remote(secf, tyf) =~= seq![(nm, tp)]);
            }
            let ghost out0 = out@;
            out.push(RcloneRemote { name, remote_type: rtype });
            proof {
                lemma_remote_entries_snoc(out0, out@);
                assert(out@.last().name@ == nm);
                assert(out@.last().remote_type@ == tp);
                assert(remote_entries(out@) =~= remote_entries(out0) + pending_remote(secf, tyf));
            }
        },
        _ => {
            proof {
                assert(pending_remote(secf, tyf) =~= Seq::<(Seq<u8>, Seq<u8>)>::empty());
                assert(remote_entries(out@) + pending_remote(secf, tyf) =~= remote_entries(out@));
            }
        },
    }
    proof {
        lemma_remote_entries_len(out@);
        assert(remote_entries(out@) == config_fold(all, None, None, Seq::empty()));
        assert forall|k: int|
            0 <= k < out@.len() implies ((#[trigger] out@[k]).name@, out@[k].remote_type@)
            == remote_entries(out@)[k] by {
            lemma_remote_entries_index(out@, k);
        }
    }
    if out.len() == 0 {
        Err(ConfigError::NoRemotes)
    } else {
        Ok(out)
    }
}

/// Appending one remote appends its entry.
proof fn lemma_remote_entries_snoc(rs0: Seq<RcloneRemote>, rs1: Seq<RcloneRemote>)
    requires
        rs1.len() == rs0.len() + 1,
        forall|k: int| 0 <= k < rs0.len() ==> rs1[k] == rs0[k],
    ensures
        remote_entries(rs1) == remote_entries(rs0).push(
            (rs1.last().name@, rs1.last().remote_type@),
        ),
    decreases rs0.len(),
{
    if rs0.len() == 0 {
        assert(rs1.len() == 1);
        assert(rs1.last() == rs1[0]);
        assert(rs1.drop_first() =~= Seq::<RcloneRemote>::empty());
        assert(remote_entries(rs1) == seq![(rs1[0].name@, rs1[0].remote_type@)]
            + remote_entries(rs1.drop_first()));
        lemma_remote_entries_len(rs1.drop_first());
        assert(remote_entries(rs0) == Seq::<(Seq<u8>, Seq<u8>)>::empty());
        assert(remote_entries(rs1) =~= remote_entries(rs0).push(
            (rs1.last().name@, rs1.last().remote_type@),
        ));
    } else {
        assert(rs1[0] == rs0[0]);
        assert forall|k: int|
            0 <= k < rs0.drop_first().len() implies rs1.drop_first()[k] == rs0.drop_first()[k] by {
            assert(rs1[k + 1] == rs0[k + 1]);
        }
        lemma_remote_entries_snoc(rs0.drop_first(), rs1.drop_first());
        assert(rs1.drop_first().last() == rs1.last());
        lemma_remote_entries_len(rs0);
        lemma_remote_entries_len(rs1);
        lemma_remote_entries_len(rs0.drop_first());
        assert(remote_entries(rs1) == seq![(rs1[0].name@, rs1[0].remote_type@)] + remote_entries(
            rs1.drop_first(),
        ));
        assert(remote_entries(rs0) == seq![(rs0[0].name@, rs0[0].remote_type@)] + remote_entries(
            rs0.drop_first(),
        ));
        assert(remote_entries(rs1) =~= remote_entries(rs0).push(
            (rs1.last().name@, rs1.last().remote_type@),
        ));
    }
}

/// The first line of a tool's version output, or the marker `rclone
/// unknown` when there is none.
pub fn version_first_line(out: &[u8]) -> (r: Vec<u8>)
    ensures
        split_lines_spec(out@).len() > 0 ==> r@ == split_lines_spec(out@)[0],
        split_lines_spec(out@).len() == 0 ==> r@ == unknown_version_marker(),
{
    let lines = split_lines(out);
    if lines.len() > 0 {
        let first = slice_to_vec(lines[0].as_slice());
        proof {
            assert(lines.deep_view()[0] == lines@[0].deep_view());
            assert(first@ =~= split_lines_spec(out@)[0]);
        }
        first
    } else {
        let mut v: Vec<u8> = Vec::new();
        v.push(0x72);
        v.push(0x63);
        v.push(0x6C);
        v.push(0x6F);
        v.push(0x6E);
        v.push(0x65);
        v.push(0x20);
        v.push(0x75);
        v.push(0x6E);
        v.push(0x6B);
        v.push(0x6E);
        v.push(0x6F);
        v.push(0x77);
        v.push(0x6E);
        proof {
            assert(v@ =~= unknown_version_marker());
        }
        v
    }
}

/// The bytes of `rclone unknown`.
pub open spec fn unknown_version_marker() -> Seq<u8> {
    seq![0x72u8, 0x63, 0x6C, 0x6F, 0x6E, 0x65, 0x20, 0x75, 0x6E, 0x6B, 0x6E, 0x6F, 0x77, 0x6E]
}

} // verus!
