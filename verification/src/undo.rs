//! The parameters of the snapshot commands, and what they resolve to.

use vstd::prelude::*;
use crate::object_id::{ObjectId, is_hex_id, spells};

verus! {

/// Why parameters are refused.
#[derive(Clone, Copy, Debug, PartialEq, Eq, Structural)]
pub enum ParamError {
    /// The text is not the hexadecimal spelling of an object id.
    InvalidSha,
}

/// The parameters of listing snapshots.
#[derive(Clone, Debug, PartialEq, Eq)]
pub struct ListSnapshotsParams {
    pub project_id: String,
    pub limit: usize,
    pub sha: Option<String>,
    pub exclude_kind: Option<Vec<String>>,
}

/// The parameters of restoring a snapshot.
#[derive(Clone, Debug, PartialEq, Eq)]
pub struct RestoreSnapshotParams {
    pub project_id: String,
    pub sha: String,
}

/// The parameters of showing what a snapshot changed.
#[derive(Clone, Debug, PartialEq, Eq)]
pub struct SnapshotDiffParams {
    pub project_id: String,
    pub sha: String,
}

/// What listing snapshots asks of the operation log: at most `limit`
/// snapshots, starting at `start` or at the newest, without those of the
/// excluded kinds.
#[derive(Clone, Debug, PartialEq, Eq)]
pub struct SnapshotQuery {
    pub limit: usize,
    pub start: Option<ObjectId>,
    pub exclude_kind: Vec<String>,
}

/// The bytes of a text.
pub open spec fn text_bytes(text: &String) -> Seq<u8> {
    vstd::utf8::encode_utf8(text@)
}

/// Reads the id of a snapshot from its hexadecimal spelling.
pub fn parse_sha(sha: &String) -> (r: Result<ObjectId, ParamError>)
    ensures
        r is Ok <==> is_hex_id(text_bytes(sha)),
        r is Ok ==> spells(text_bytes(sha), r.unwrap()),
        r is Err ==> r == Err::<ObjectId, ParamError>(ParamError::InvalidSha),
{
    let bytes = sha.as_str().as_bytes();
    let mut hex: Vec<u8> = Vec::new();
    let mut i: usize = 0;
    while i < bytes.len()
        invariant
            i <= bytes.len(),
            hex@ == bytes@.take(i as int),
        decreases bytes.len() - i,
    {
        hex.push(bytes[i]);
        proof {
            assert(hex@ =~= bytes@.take(i as int + 1));
        }
        i += 1;
    }
    proof {
        assert(bytes@.take(bytes@.len() as int) =~= bytes@);
    }
    match ObjectId::from_hex(&hex) {
        Some(id) => Ok(id),
        None => Err(ParamError::InvalidSha),
    }
}

impl ListSnapshotsParams {
    /// What to ask of the operation log: the limit as given, the start read
    /// from `sha` where there is one, and no kind excluded unless some are
    /// given.
    pub fn resolve(self) -> (r: Result<SnapshotQuery, ParamError>)
        ensures
            match self.sha {
                Some(sha) => {
                    &&& r is Ok <==> is_hex_id(text_bytes(&sha))
                    &&& r is Ok ==> r.unwrap().start is Some && spells(
                        text_bytes(&sha),
                        r.unwrap().start.unwrap(),
                    )
                },
                None => r is Ok && r.unwrap().start is None,
            },
            r is Err ==> r.unwrap_err() == ParamError::InvalidSha,
            r is Ok ==> r.unwrap().limit == self.limit,
            r is Ok ==> (match self.exclude_kind {
                Some(kinds) => r.unwrap().exclude_kind == kinds,
                None => r.unwrap().exclude_kind@.len() == 0,
            }),
    {
        let start = match &self.sha {
            Some(sha) => match parse_sha(sha) {
                Ok(id) => Some(id),
                Err(e) => {
                    return Err(e);
                },
            },
            None => None,
        };
        let exclude_kind = match self.exclude_kind {
            Some(kinds) => kinds,
            None => Vec::new(),
        };
        Ok(SnapshotQuery { limit: self.limit, start, exclude_kind })
    }
}

impl RestoreSnapshotParams {
    /// The snapshot to restore.
    pub fn snapshot(&self) -> (r: Result<ObjectId, ParamError>)
        ensures
            r is Ok <==> is_hex_id(text_bytes(&self.sha)),
            r is Ok ==> spells(text_bytes(&self.sha), r.unwrap()),
            r is Err ==> r == Err::<ObjectId, ParamError>(ParamError::InvalidSha),
    {
        parse_sha(&self.sha)
    }
}

impl SnapshotDiffParams {
    /// The snapshot whose changes to show.
    pub fn snapshot(&self) -> (r: Result<ObjectId, ParamError>)
        ensures
            r is Ok <==> is_hex_id(text_bytes(&self.sha)),
            r is Ok ==> spells(text_bytes(&self.sha), r.unwrap()),
            r is Err ==> r == Err::<ObjectId, ParamError>(ParamError::InvalidSha),
    {
        parse_sha(&self.sha)
    }
}

} // verus!
