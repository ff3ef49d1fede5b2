//! Account sign-in support.
//!
//! Signing in opens the provider's consent page in a browser and catches
//! the redirect on a local socket; the redirect's first request line
//! carries the authorisation code as a query parameter. Parsing that
//! request is the logic here; the browser, the socket and the token store
//! are the caller's I/O.

use vstd::prelude::*;

use crate::bytes::{
    index_of_first, lemma_index_of_first_props, split_fields_spec, split_lines_spec,
    split_on_byte_spec, EQ_SIGN,
};
use crate::bytes::{find_byte, slice_eq, split_fields, split_lines, split_on_byte};

verus! {

/// ASCII `?`.
pub const QMARK: u8 = 0x3F;

/// ASCII `&`.
pub const AMP: u8 = 0x26;

/// A provider account's tokens, as the caller stores and loads them.
pub struct GoogleTokens {
    /// The short-lived access token.
    pub access_token: String,
    /// The long-lived refresh token.
    pub refresh_token: String,
    /// When the access token expires, in seconds since the epoch.
    pub expires_at: u64,
    /// The account's email address.
    pub email: String,
    /// The account's display name.
    pub display_name: String,
}

/// The metadata-service keys the caller stores and loads.
pub struct ApiKeys {
    /// The movie-database key.
    pub tmdb: String,
    /// The adult-database key.
    pub theporndb: String,
}

/// The bytes of the query key `code`.
pub open spec fn code_key() -> Seq<u8> {
    seq![0x63u8, 0x6F, 0x64, 0x65]
}

/// A query parameter's key: what stands before its first `=`, or all of it
/// without one.
pub open spec fn param_key(p: Seq<u8>) -> Seq<u8> {
    match index_of_first(p, EQ_SIGN) {
        Some(i) => p.take(i),
        None => p,
    }
}

/// A query parameter's value: what stands after its first `=`, if any.
pub open spec fn param_value(p: Seq<u8>) -> Option<Seq<u8>> {
    match index_of_first(p, EQ_SIGN) {
        Some(i) => Some(p.skip(i + 1)),
        None => None,
    }
}

/// The code of a parameter list: the first parameter keyed `code` decides —
/// its value, or nothing when it carries none — and without such a
/// parameter there is no code.
pub open spec fn find_code_param(ps: Seq<Seq<u8>>) -> Option<Seq<u8>>
    decreases ps.len(),
{
    if ps.len() == 0 {
        None
    } else if param_key(ps[0]) == code_key() {
        param_value(ps[0])
    } else {
        find_code_param(ps.drop_first())
    }
}

/// The query of a request path: what stands between the path's first `?`
/// and the next one, or to its end; nothing without a `?`.
pub open spec fn query_of(path: Seq<u8>) -> Option<Seq<u8>> {
    match index_of_first(path, QMARK) {
        Some(i) => {
            let rest = path.skip(i + 1);
            match index_of_first(rest, QMARK) {
                Some(j) => Some(rest.take(j)),
                None => Some(rest),
            }
        },
        None => None,
    }
}

/// The authorisation code of a redirect request: on the request's first
/// line, the second whitespace-separated field is the path; the code is
/// the deciding `code` parameter of the path's query.
pub open spec fn extract_code_spec(req: Seq<u8>) -> Option<Seq<u8>> {
    let lines = split_lines_spec(req);
    if lines.len() == 0 {
        None
    } else {
        let fields = split_fields_spec(lines[0]);
        if fields.len() < 2 {
            None
        } else {
            match query_of(fields[1]) {
                Some(q) => find_code_param(split_on_byte_spec(q, AMP)),
                None => None,
            }
        }
    }
}

fn code_key_vec() -> (r: Vec<u8>)
    ensures
        r@ == code_key(),
{
    let mut v: Vec<u8> = Vec::new();
    v.push(0x63);
    v.push(0x6F);
    v.push(0x64);
    v.push(0x65);
    proof {
        assert(v@ =~= code_key());
    }
    v
}

/// Pull the authorisation code out of a redirect's raw HTTP request: the
/// `code` query parameter of the request line's path.
pub fn extract_code(request: &[u8]) -> (r: Option<Vec<u8>>)
    ensures
        match r {
            Some(v) => extract_code_spec(request@) == Some(v@),
            None => extract_code_spec(request@) is None,
        },
{
    let lines = split_lines(request);
    if lines.len() == 0 {
        return None;
    }
    let line = &lines[0];
    proof {
        assert(lines.deep_view()[0] == lines@[0].deep_view());
        assert(line@ =~= split_lines_spec(request@)[0]);
    }
    let fields = split_fields(line.as_slice());
    let ghost fs = split_fields_spec(split_lines_spec(request@)[0]);
    proof {
        assert(fields.deep_view() == fs);
        assert(fields@.len() == fs.len());
    }
    if fields.len() < 2 {
        return None;
    }
    let path = &fields[1];
    proof {
        assert(fields.deep_view()[1] == fields@[1].deep_view());
        assert(path@ =~= fs[1]);
    }
    let n = path.len();
    let qi = match find_byte(path.as_slice(), QMARK) {
        Some(qi) => qi,
        None => {
            return None;
        },
    };
    proof {
        lemma_index_of_first_props(path@, QMARK);
        assert(qi < n);
    }
    let rest = vstd::slice::slice_subrange(path.as_slice(), qi + 1, n);
    proof {
        assert(rest@ =~= fs[1].skip(qi + 1));
    }
    let query = match find_byte(rest, QMARK) {
        Some(qj) => {
            proof {
                lemma_index_of_first_props(rest@, QMARK);
            }
            let q = vstd::slice::slice_subrange(rest, 0, qj);
            proof {
                assert(q@ =~= rest@.take(qj as int));
            }
            q
        },
        None => rest,
    };
    proof {
        assert(query_of(fs[1]) == Some(query@));
    }
    let params = split_on_byte(query, AMP);
    let ghost ps = split_on_byte_spec(query@, AMP);
    proof {
        assert(params.deep_view() == ps);
        assert(params@.len() == ps.len());
    }
    let key = code_key_vec();
    let mut i: usize = 0;
    proof {
        assert(ps.skip(0) =~= ps);
        assert(extract_code_spec(request@) == find_code_param(ps));
    }
    while i < params.len()
        invariant
            extract_code_spec(request@) == find_code_param(ps),
            params.deep_view() == ps,
            i <= params@.len(),
            params@.len() == ps.len(),
            key@ == code_key(),
            find_code_param(ps.skip(i as int)) == find_code_param(ps),
        decreases params@.len() - i,
    {
        let ghost pending = ps.skip(i as int);
        proof {
            assert(pending[0] == ps[i as int]);
            assert(pending.drop_first() =~= ps.skip(i + 1));
        }
        let p = &params[i];
        proof {
            assert(params.deep_view()[i as int] == params@[i as int].deep_view());
            assert(p@ =~= ps[i as int]);
        }
        match find_byte(p.as_slice(), EQ_SIGN) {
            Some(e) => {
                proof {
                    lemma_index_of_first_props(p@, EQ_SIGN);
                }
                let k = vstd::slice::slice_subrange(p.as_slice(), 0, e);
                proof {
                    assert(k@ =~= param_key(ps[i as int]));
                }
                if slice_eq(k, key.as_slice()) {
                    let value = vstd::slice::slice_subrange(p.as_slice(), e + 1, p.len());
                    proof {
                        assert(value@ =~= ps[i as int].skip(e + 1));
                        assert(param_value(ps[i as int]) == Some(value@));
                        assert(find_code_param(pending) == Some(value@));
                    }
                    return Some(vstd::slice::slice_to_vec(value));
                }
            },
            None => {
                proof {
                    assert(param_key(ps[i as int]) =~= ps[i as int]);
                }
                if slice_eq(p.as_slice(), key.as_slice()) {
                    proof {
                        assert(param_key(ps[i as int]) == code_key());
                        assert(param_value(ps[i as int]) is None);
                        assert(find_code_param(pending) is None);
                    }
                    return None;
                }
            },
        }
        proof {
            assert(param_key(ps[i as int]) != code_key());
            assert(find_code_param(ps.skip(i + 1)) == find_code_param(ps));
        }
        i = i + 1;
    }
    proof {
        assert(ps.skip(ps.len() as int) =~= Seq::<Seq<u8>>::empty());
    }
    None
}

} // verus!
