//! The content hash that names an object.

use vstd::prelude::*;
use crate::object::ObjectKind;
use crate::object_id::ObjectId;

verus! {

/// The digest of an object of the given kind whose content is `data`, or
/// `None` where the hash function refuses the content.
pub uninterp spec fn object_digest(kind: ObjectKind, data: Seq<u8>) -> Option<ObjectId>;

/// `gix::objs::compute_hash` with SHA-1: hashes the object header for `kind`
/// followed by `data`. The result depends on these two alone. The hash
/// function reports an error where it detects a collision attack in the
/// input; that is the `None` here.
#[verifier::external_body]
pub(crate) fn digest_object(kind: ObjectKind, data: &Vec<u8>) -> (r: Option<ObjectId>)
    ensures
        r == object_digest(kind, data@),
{
    let object_kind = match kind {
        ObjectKind::Blob => gix::objs::Kind::Blob,
        ObjectKind::Tree => gix::objs::Kind::Tree,
        ObjectKind::Commit => gix::objs::Kind::Commit,
    };
    match gix::objs::compute_hash(gix::hash::Kind::Sha1, object_kind, data) {
        Ok(gix::ObjectId::Sha1(bytes)) => Some(ObjectId { bytes }),
        _ => None,
    }
}

} // verus!
