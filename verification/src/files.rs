//! The file streamer's decision: whether a download request may be served,
//! and with which error it is refused otherwise.

use vstd::prelude::*;
use crate::shared::ServiceError;
use crate::shared::contained_in;
use crate::shared::hidden_name;
use crate::shared::is_hidden;
use crate::shared::is_contained;
use crate::shared::strs_view;

verus! {

/// What the filesystem reports about the download target: whether it is a
/// regular file, and its byte length.
pub struct FileMeta {
    pub is_file: bool,
    pub size: u64,
}

/// Whether a canonical path's base name is hidden. A path with no
/// components has no base name and is never hidden.
pub open spec fn hidden_base_name(target: Seq<Seq<char>>) -> bool {
    target.len() > 0 && hidden_name(target.last())
}

/// Decides a download request from the filesystem's answers about the
/// already-sanitized target: its metadata, and the canonical resolutions of
/// the storage root and of the target, each `None` where resolution failed.
///
/// A missing or non-regular target is not found. A target whose canonical
/// resolution escapes the root, or whose canonical base name is hidden, is
/// forbidden — never "not found". On success the exact byte length is
/// reported, for the length header of the stream.
pub fn download_decision(
    meta: &Option<FileMeta>,
    canonical_root: &Option<Vec<String>>,
    canonical_target: &Option<Vec<String>>,
) -> (r: Result<u64, ServiceError>)
    ensures
        meta is None ==> r == Err::<u64, ServiceError>(ServiceError::NotFound),
        meta matches Some(m) ==> (!m.is_file ==> r == Err::<u64, ServiceError>(
            ServiceError::NotFound,
        )),
        meta matches Some(m) ==> (m.is_file ==> (canonical_target is None ==> r == Err::<
            u64,
            ServiceError,
        >(ServiceError::NotFound))),
        meta matches Some(m) ==> (m.is_file ==> (canonical_target is Some && canonical_root is None
            ==> r == Err::<u64, ServiceError>(ServiceError::InternalIO))),
        meta matches Some(m) ==> (m.is_file ==> (canonical_root matches Some(rt) ==> (
        canonical_target matches Some(tg) ==> r == (
        if !contained_in(strs_view(rt@), strs_view(tg@)) {
            Err::<u64, ServiceError>(ServiceError::Escaped)
        } else if hidden_base_name(strs_view(tg@)) {
            Err::<u64, ServiceError>(ServiceError::Escaped)
        } else {
            Ok::<u64, ServiceError>(m.size)
        })))),
{
    let m = match meta {
        None => {
            return Err(ServiceError::NotFound);
        },
        Some(m) => m,
    };
    if !m.is_file {
        return Err(ServiceError::NotFound);
    }
    let tg = match canonical_target {
        None => {
            return Err(ServiceError::NotFound);
        },
        Some(tg) => tg,
    };
    let rt = match canonical_root {
        None => {
            return Err(ServiceError::InternalIO);
        },
        Some(rt) => rt,
    };
    if !is_contained(rt, tg) {
        return Err(ServiceError::Escaped);
    }
    if tg.len() > 0 && is_hidden(&tg[tg.len() - 1]) {
        proof {
            assert(strs_view(tg@).last() == tg@[tg@.len() - 1]@);
        }
        return Err(ServiceError::Escaped);
    }
    proof {
        assert(strs_view(tg@).len() == tg@.len());
        if tg@.len() > 0 {
            assert(strs_view(tg@).last() == tg@[tg@.len() - 1]@);
        }
    }
    Ok(m.size)
}

} // verus!
