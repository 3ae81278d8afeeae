//! Resolution of the credential file's location: a leading `~` expands to
//! the user's home directory.

use crate::codec::push_bytes;
use crate::errors::RotateError;
use vstd::prelude::*;

verus! {

/// An optional byte string, viewed.
pub open spec fn opt_view(h: Option<Vec<u8>>) -> Option<Seq<u8>> {
    match h {
        None => None,
        Some(v) => Some(v@),
    }
}

/// The expansion of `p` against home directory `h`: `~` alone is the home
/// directory; `~/rest` joins `rest` onto it, without doubling the separator
/// when the home directory already ends in one (the filesystem root);
/// any other path is returned unchanged. A path that needs the home
/// directory fails when none is known.
pub open spec fn expand_spec(p: Seq<u8>, h: Option<Seq<u8>>) -> Option<Seq<u8>> {
    if !(p == seq![126u8] || (p.len() >= 2 && p[0] == 126 && p[1] == 47)) {
        Some(p)
    } else {
        match h {
            None => None,
            Some(hd) => {
                if p == seq![126u8] {
                    Some(hd)
                } else if hd.len() > 0 && hd[hd.len() - 1] == 47 {
                    Some(hd + p.subrange(2, p.len() as int))
                } else {
                    Some(hd + p.subrange(1, p.len() as int))
                }
            },
        }
    }
}

/// Relies on dirs::home_dir: the user's home directory, when one can be
/// determined, as path bytes. The answer depends on the ambient
/// environment, so nothing more is promised of it.
#[verifier::external_body]
fn home_dir_bytes() -> (r: Option<Vec<u8>>) {
    dirs::home_dir().and_then(|p| p.to_str().map(|s| s.as_bytes().to_vec()))
}

/// Expands a leading `~` in `path` against the given home directory.
pub fn expand_tilde_with(path: &[u8], home: Option<Vec<u8>>) -> (r: Result<
    Vec<u8>,
    RotateError,
>)
    ensures
        match r {
            Ok(out) => expand_spec(path@, opt_view(home)) == Some(out@),
            Err(e) => expand_spec(path@, opt_view(home)) is None && e
                == RotateError::PathResolution,
        },
{
    let tilde_only = path.len() == 1 && path[0] == 126;
    let tilde_slash = path.len() >= 2 && path[0] == 126 && path[1] == 47;
    if !tilde_only && !tilde_slash {
        proof {
            assert(path@ != seq![126u8]);
        }
        return Ok(vstd::slice::slice_to_vec(path));
    }
    proof {
        if tilde_only {
            assert(path@ =~= seq![126u8]);
        }
    }
    match home {
        None => Err(RotateError::PathResolution),
        Some(h) => {
            if tilde_only {
                proof {
                    assert(path@ =~= seq![126u8]);
                }
                Ok(h)
            } else {
                proof {
                    assert(path@ != seq![126u8]);
                }
                let mut out = h;
                if out.len() > 0 && out[out.len() - 1] == 47 {
                    push_bytes(&mut out, &path[2..path.len()]);
                } else {
                    push_bytes(&mut out, &path[1..path.len()]);
                }
                Ok(out)
            }
        },
    }
}

/// Resolves the credential file path, expanding a leading `~` against the
/// home directory the environment yields. Which directory that is lies
/// outside the library; the expansion itself always follows `expand_spec`.
pub fn resolve_credential_path(path: &[u8]) -> (r: Result<Vec<u8>, RotateError>)
    ensures
        match r {
            Ok(out) => exists|h: Option<Seq<u8>>| expand_spec(path@, h) == Some(out@),
            Err(e) => expand_spec(path@, None) is None && e == RotateError::PathResolution,
        },
{
    let home = home_dir_bytes();
    let ghost hv: Option<Seq<u8>> = opt_view(home);
    let r = expand_tilde_with(path, home);
    match r {
        Ok(out) => {
            proof {
                assert(expand_spec(path@, hv) == Some(out@));
            }
            Ok(out)
        },
        Err(e) => Err(e),
    }
}

} // verus!
