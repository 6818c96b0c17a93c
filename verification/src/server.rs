//! The server's per-connection work and its startup engine check.
//!
//! A connection carries one framed request and gets one framed reply; the
//! unverified shell reads the request bytes up to the `#` delimiter, calls
//! [`handle_request`] under the write lock, applies the returned file
//! operations, and writes the reply back.

use vstd::prelude::*;
use crate::codec::{decode_cmd, decode_command, encode_resp, encode_response, lemma_encode_resp_no_delim, no_delim};
use crate::text::str_to_chars;
use crate::protocol::{CmdModel, Command, Error, RespModel, Response};
use crate::store::{apply_ops, KvStore, SegmentOp};
use crate::text::chars_to_string;

verus! {

/// The reply a request must get, given the store's map before it runs.
pub open spec fn reply_spec(m: Map<Seq<char>, Seq<char>>, req: Option<CmdModel>) -> RespModel {
    match req {
        Some(CmdModel::Put { key, value }) => RespModel::SuccessSet,
        Some(CmdModel::Get { key }) => RespModel::SuccessGet {
            value: if m.contains_key(key) {
                Some(m[key])
            } else {
                None
            },
        },
        Some(CmdModel::Rm { key }) => if m.contains_key(key) {
            RespModel::SuccessRm
        } else {
            RespModel::Fail { message: ("Key not found")@ }
        },
        None => RespModel::Fail { message: ("malformed request")@ },
    }
}

/// The store's map after a request ran, given the map before it.
pub open spec fn step_spec(
    m: Map<Seq<char>, Seq<char>>,
    req: Option<CmdModel>,
) -> Map<Seq<char>, Seq<char>> {
    match req {
        Some(CmdModel::Put { key, value }) => m.insert(key, value),
        Some(CmdModel::Rm { key }) => m.remove(key),
        _ => m,
    }
}

/// Serves one decoded-from-the-wire request text (without its trailing
/// `#`): decodes it, runs it against the store, and returns the framed
/// reply text together with the file operations the caller must mirror.
pub fn handle_request(store: &mut KvStore, request: &str) -> (r: (String, Vec<SegmentOp>))
    requires
        old(store).wf(),
    ensures
        final(store).wf(),
        final(store).model() == step_spec(old(store).model(), decode_cmd(request@)),
        final(store).files() == apply_ops(old(store).files(), r.1@),
        r.0@ == encode_resp(reply_spec(old(store).model(), decode_cmd(request@))) + seq!['#'],
        no_delim(encode_resp(reply_spec(old(store).model(), decode_cmd(request@)))),
{
    let ghost pre = *store;
    let chars = str_to_chars(request);
    let mut ops: Vec<SegmentOp> = Vec::new();
    let resp: Response = match decode_command(&chars) {
        Some(Command::Put { key, value }) => {
            match store.set(key, value) {
                Ok(o) => {
                    ops = o;
                    Response::SuccessSet
                },
                Err(e) => Response::Fail(e.message()),
            }
        },
        Some(Command::Get { key }) => {
            match store.get(key) {
                Ok(v) => Response::SuccessGet(v),
                Err(e) => Response::Fail(e.message()),
            }
        },
        Some(Command::Rm { key }) => {
            match store.remove(key) {
                Ok(o) => {
                    ops = o;
                    Response::SuccessRm
                },
                Err(e) => {
                    proof {
                        reveal_strlit("Key not found");
                    }
                    Response::Fail(e.message())
                },
            }
        },
        None => {
            proof {
                reveal_strlit("malformed request");
            }
            Response::Fail(String::from_str("malformed request"))
        },
    };
    proof {
        assert(store.files() =~= apply_ops(pre.files(), ops@));
    }
    proof {
        lemma_encode_resp_no_delim(resp@);
    }
    let mut reply = encode_response(&resp);
    reply.push('#');
    let text = chars_to_string(&reply);
    proof {
        assert(text@ =~= encode_resp(resp@) + seq!['#']);
    }
    (text, ops)
}

/// Which storage engine a store directory belongs to.
pub enum EngineKind {
    Kvs,
    Sled,
}

impl EngineKind {
    /// The engine's name as it appears on the command line and in the
    /// data directory's name.
    pub fn as_str(&self) -> (r: &'static str)
        ensures
            self is Kvs ==> r@ == "kvs"@,
            self is Sled ==> r@ == "sled"@,
    {
        match self {
            EngineKind::Kvs => "kvs",
            EngineKind::Sled => "sled",
        }
    }
}

/// Decides which engine to run: the one asked for, the one whose data is
/// already on disk, or the default. Asking for one engine while another
/// engine's data exists is a fatal configuration error.
pub fn check_engine(
    requested: Option<EngineKind>,
    kvs_exists: bool,
    sled_exists: bool,
) -> (r: Result<EngineKind, Error>)
    ensures
        match r {
            Ok(k) => match requested {
                Some(q) => k == q && (kvs_exists ==> q is Kvs) && (sled_exists && !kvs_exists
                    ==> q is Sled),
                None => if kvs_exists {
                    k is Kvs
                } else if sled_exists {
                    k is Sled
                } else {
                    k is Kvs
                },
            },
            Err(e) => e is EngineMismatch && (match requested {
                Some(q) => (q is Kvs && !kvs_exists && sled_exists) || (q is Sled && kvs_exists),
                None => false,
            }),
        },
{
    let existing: Option<EngineKind> = if kvs_exists {
        Some(EngineKind::Kvs)
    } else if sled_exists {
        Some(EngineKind::Sled)
    } else {
        None
    };
    match (requested, existing) {
        (None, None) => Ok(EngineKind::Kvs),
        (Some(q), None) => Ok(q),
        (None, Some(e)) => Ok(e),
        (Some(q), Some(e)) => {
            match (q, e) {
                (EngineKind::Kvs, EngineKind::Kvs) => Ok(EngineKind::Kvs),
                (EngineKind::Sled, EngineKind::Sled) => Ok(EngineKind::Sled),
                _ => Err(Error::EngineMismatch),
            }
        },
    }
}

} // verus!
