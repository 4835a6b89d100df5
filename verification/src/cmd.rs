use vstd::prelude::*;

use crate::backend::Backend;
use crate::backend::StoreValue;
use crate::frame::FrameV;
use crate::frame::RespArray;
use crate::frame::RespFrame;
use crate::frame::SimpleError;
use crate::frame::SimpleString;
use crate::frame::frames_view;
use crate::frame::fview;
use crate::frame::lemma_frames_view_index;

verus! {

/// A syntactically valid frame that does not form a valid command. An
/// arity fault is told apart from a badly typed or badly valued argument.
#[derive(Debug, Clone, Copy, PartialEq, Eq, Structural)]
pub enum CommandError {
    InvalidCommand,
    WrongArity,
    InvalidArgument,
    InvalidUtf8,
}

/// Replies with its own argument.
#[derive(Debug)]
pub struct Echo {
    pub message: Vec<u8>,
}

/// Adds one member frame to the set under a key.
#[derive(Debug)]
pub struct SAdd {
    pub key: Vec<u8>,
    pub member: RespFrame,
}

/// Asks whether a member stands in the set under a key.
#[derive(Debug)]
pub struct SIsMember {
    pub key: Vec<u8>,
    pub member: Vec<u8>,
}

/// Whether a byte sequence is well-formed UTF-8, as `core::str::from_utf8`
/// decides it: the condition on textual command arguments.
pub uninterp spec fn utf8_valid(s: Seq<u8>) -> bool;

/// Relies on core::str::from_utf8: it returns `Ok` exactly on well-formed
/// UTF-8 input, and the answer depends on the bytes alone.
#[verifier::external_body]
fn check_utf8(b: &[u8]) -> (r: bool)
    ensures
        r == utf8_valid(b@),
{
    core::str::from_utf8(b).is_ok()
}

/// ASCII lower-casing of one byte: command names match case-insensitively.
pub open spec fn lower(b: u8) -> u8 {
    if 65 <= b <= 90 {
        (b + 32) as u8
    } else {
        b
    }
}

pub open spec fn ci_eq(a: Seq<u8>, b: Seq<u8>) -> bool {
    a.len() == b.len() && forall|i: int| 0 <= i < a.len() ==> lower(#[trigger] a[i]) == lower(b[i])
}

/// Whether `f` is a bulk string spelling the command name `name`.
pub open spec fn is_cmd_name(f: FrameV, name: Seq<u8>) -> bool {
    match f {
        FrameV::BulkString(b) => ci_eq(b, name),
        _ => false,
    }
}

pub open spec fn echo_name() -> Seq<u8> {
    seq![101u8, 99u8, 104u8, 111u8]
}

pub open spec fn sadd_name() -> Seq<u8> {
    seq![115u8, 97u8, 100u8, 100u8]
}

pub open spec fn sismember_name() -> Seq<u8> {
    seq![115u8, 105u8, 115u8, 109u8, 101u8, 109u8, 98u8, 101u8, 114u8]
}

/// The `+OK` reply text.
pub open spec fn ok_text() -> Seq<u8> {
    seq![79u8, 75u8]
}

/// The reply text when a key holds a value of another kind.
pub open spec fn wrongtype_text() -> Seq<u8> {
    seq![87u8, 82u8, 79u8, 78u8, 71u8, 84u8, 89u8, 80u8, 69u8]
}

/// Decides case-insensitive equality of two ASCII byte strings.
pub fn ci_eq_x(a: &[u8], b: &[u8]) -> (r: bool)
    ensures
        r == ci_eq(a@, b@),
{
    let n = a.len();
    if n != b.len() {
        return false;
    }
    let mut j: usize = 0;
    while j < n
        invariant
            j <= n,
            n == a@.len(),
            n == b@.len(),
            forall|t: int| 0 <= t < j ==> lower(#[trigger] a@[t]) == lower(b@[t]),
        decreases n - j,
    {
        let ca = *vstd::slice::slice_index_get(a, j);
        let cb = *vstd::slice::slice_index_get(b, j);
        let la: u8 = if 65 <= ca && ca <= 90 {
            ca + 32
        } else {
            ca
        };
        let lb: u8 = if 65 <= cb && cb <= 90 {
            cb + 32
        } else {
            cb
        };
        if la != lb {
            return false;
        }
        j += 1;
    }
    true
}

/// Checks the shape every command shares: `n_args` arguments standing
/// after the command's own name, which must be a matching bulk string.
pub fn validate_command(value: &RespArray, name: &[u8], n_args: usize) -> (r: Result<
    (),
    CommandError,
>)
    requires
        n_args < usize::MAX,
    ensures
        ({
            let fs = frames_view(value.0@);
            match r {
                Ok(_) => fs.len() == n_args + 1 && is_cmd_name(fs[0], name@),
                Err(CommandError::WrongArity) => fs.len() != n_args + 1,
                Err(CommandError::InvalidCommand) => fs.len() == n_args + 1 && !is_cmd_name(
                    fs[0],
                    name@,
                ),
                Err(_) => false,
            }
        }),
{
    proof {
        lemma_frames_view_index(value.0@);
    }
    if value.0.len() != n_args + 1 {
        return Err(CommandError::WrongArity);
    }
    match &value.0[0] {
        RespFrame::BulkString(b) => {
            if ci_eq_x(b.0.as_slice(), name) {
                Ok(())
            } else {
                Err(CommandError::InvalidCommand)
            }
        },
        _ => Err(CommandError::InvalidCommand),
    }
}

/// Hands back the arguments that follow the command name.
pub fn extract_args(value: RespArray, start: usize) -> (r: Vec<RespFrame>)
    requires
        start <= value.0@.len(),
    ensures
        r@ == value.0@.skip(start as int),
{
    let ghost v0 = value.0@;
    let mut v = value.0;
    let mut j: usize = 0;
    while j < start
        invariant
            j <= start,
            start <= v0.len(),
            v@ == v0.skip(j as int),
        decreases start - j,
    {
        let _ = v.remove(0);
        proof {
            assert(v@ =~= v0.skip(j + 1));
        }
        j += 1;
    }
    v
}

impl Echo {
    /// Builds the command from a decoded array frame, checking its shape.
    pub fn try_from(value: RespArray) -> (r: Result<Echo, CommandError>)
        ensures
            ({
                let fs = frames_view(value.0@);
                match r {
                    Ok(c) => fs.len() == 2 && is_cmd_name(fs[0], echo_name()) && fs[1]
                        == FrameV::BulkString(c.message@) && utf8_valid(c.message@),
                    Err(e) => match e {
                        CommandError::WrongArity => fs.len() != 2,
                        CommandError::InvalidCommand => fs.len() == 2 && !is_cmd_name(
                            fs[0],
                            echo_name(),
                        ),
                        CommandError::InvalidArgument => fs.len() == 2 && is_cmd_name(
                            fs[0],
                            echo_name(),
                        ) && !(fs[1] is BulkString),
                        CommandError::InvalidUtf8 => fs.len() == 2 && is_cmd_name(
                            fs[0],
                            echo_name(),
                        ) && fs[1] is BulkString && !utf8_valid(fs[1]->BulkString_0),
                    },
                }
            }),
    {
        proof {
            lemma_frames_view_index(value.0@);
        }
        let name: [u8; 4] = [101, 99, 104, 111];
        if let Err(e) = validate_command(&value, name.as_slice(), 1) {
            return Err(e);
        }
        let mut args = extract_args(value, 1);
        let first = args.remove(0);
        match first {
            RespFrame::BulkString(key) => {
                if check_utf8(key.0.as_slice()) {
                    Ok(Echo { message: key.0 })
                } else {
                    Err(CommandError::InvalidUtf8)
                }
            },
            _ => Err(CommandError::InvalidArgument),
        }
    }
}

impl SAdd {
    /// Builds the command from a decoded array frame: a bulk-string key
    /// and one member frame of any kind.
    pub fn try_from(value: RespArray) -> (r: Result<SAdd, CommandError>)
        ensures
            ({
                let fs = frames_view(value.0@);
                match r {
                    Ok(c) => fs.len() == 3 && is_cmd_name(fs[0], sadd_name()) && fs[1]
                        == FrameV::BulkString(c.key@) && utf8_valid(c.key@) && fs[2] == fview(
                        c.member,
                    ),
                    Err(e) => match e {
                        CommandError::WrongArity => fs.len() != 3,
                        CommandError::InvalidCommand => fs.len() == 3 && !is_cmd_name(
                            fs[0],
                            sadd_name(),
                        ),
                        CommandError::InvalidArgument => fs.len() == 3 && is_cmd_name(
                            fs[0],
                            sadd_name(),
                        ) && !(fs[1] is BulkString),
                        CommandError::InvalidUtf8 => fs.len() == 3 && is_cmd_name(
                            fs[0],
                            sadd_name(),
                        ) && fs[1] is BulkString && !utf8_valid(fs[1]->BulkString_0),
                    },
                }
            }),
    {
        proof {
            lemma_frames_view_index(value.0@);
        }
        let name: [u8; 4] = [115, 97, 100, 100];
        if let Err(e) = validate_command(&value, name.as_slice(), 2) {
            return Err(e);
        }
        let mut args = extract_args(value, 1);
        let first = args.remove(0);
        let second = args.remove(0);
        match first {
            RespFrame::BulkString(key) => {
                if check_utf8(key.0.as_slice()) {
                    Ok(SAdd { key: key.0, member: second })
                } else {
                    Err(CommandError::InvalidUtf8)
                }
            },
            _ => Err(CommandError::InvalidArgument),
        }
    }
}

impl SIsMember {
    /// Builds the command from a decoded array frame: a bulk-string key
    /// and a bulk-string member.
    pub fn try_from(value: RespArray) -> (r: Result<SIsMember, CommandError>)
        ensures
            ({
                let fs = frames_view(value.0@);
                match r {
                    Ok(c) => fs.len() == 3 && is_cmd_name(fs[0], sismember_name()) && fs[1]
                        == FrameV::BulkString(c.key@) && fs[2] == FrameV::BulkString(c.member@)
                        && utf8_valid(c.key@) && utf8_valid(c.member@),
                    Err(e) => match e {
                        CommandError::WrongArity => fs.len() != 3,
                        CommandError::InvalidCommand => fs.len() == 3 && !is_cmd_name(
                            fs[0],
                            sismember_name(),
                        ),
                        CommandError::InvalidArgument => fs.len() == 3 && is_cmd_name(
                            fs[0],
                            sismember_name(),
                        ) && !(fs[1] is BulkString && fs[2] is BulkString),
                        CommandError::InvalidUtf8 => fs.len() == 3 && is_cmd_name(
                            fs[0],
                            sismember_name(),
                        ) && fs[1] is BulkString && fs[2] is BulkString && !(utf8_valid(
                            fs[1]->BulkString_0,
                        ) && utf8_valid(fs[2]->BulkString_0)),
                    },
                }
            }),
    {
        proof {
            lemma_frames_view_index(value.0@);
        }
        let name: [u8; 9] = [115, 105, 115, 109, 101, 109, 98, 101, 114];
        if let Err(e) = validate_command(&value, name.as_slice(), 2) {
            return Err(e);
        }
        let mut args = extract_args(value, 1);
        let first = args.remove(0);
        let second = args.remove(0);
        match (first, second) {
            (RespFrame::BulkString(key), RespFrame::BulkString(member)) => {
                if check_utf8(key.0.as_slice()) && check_utf8(member.0.as_slice()) {
                    Ok(SIsMember { key: key.0, member: member.0 })
                } else {
                    Err(CommandError::InvalidUtf8)
                }
            },
            _ => Err(CommandError::InvalidArgument),
        }
    }
}

/// The `+OK` reply frame.
pub fn resp_ok() -> (r: RespFrame)
    ensures
        fview(r) == FrameV::SimpleString(ok_text()),
{
    let mut v: Vec<u8> = Vec::new();
    v.push(79);
    v.push(75);
    proof {
        assert(v@ =~= ok_text());
    }
    RespFrame::SimpleString(SimpleString(v))
}

/// The error reply for an operation on a key of the wrong kind.
pub fn resp_wrongtype() -> (r: RespFrame)
    ensures
        fview(r) == FrameV::Error(wrongtype_text()),
{
    let mut v: Vec<u8> = Vec::new();
    v.push(87);
    v.push(82);
    v.push(79);
    v.push(78);
    v.push(71);
    v.push(84);
    v.push(89);
    v.push(80);
    v.push(69);
    proof {
        assert(v@ =~= wrongtype_text());
    }
    RespFrame::Error(SimpleError(v))
}

/// Running a validated command against the shared store: one atomic
/// backend step in, one response frame out.
pub trait CommandExecutor: Sized {
    /// What the step did: how the store after relates to the store
    /// before, and which reply was produced.
    spec fn post(self, pre: Backend, post_b: Backend, r: RespFrame) -> bool;

    fn execute(self, backend: &mut Backend) -> (r: RespFrame)
        requires
            old(backend).wf(),
        ensures
            final(backend).wf(),
            self.post(*old(backend), *final(backend), r),
    ;
}

impl CommandExecutor for Echo {
    /// The store is untouched and the reply echoes the message.
    open spec fn post(self, pre: Backend, post_b: Backend, r: RespFrame) -> bool {
        post_b.store@ == pre.store@ && fview(r) == FrameV::SimpleString(self.message@)
    }

    fn execute(self, backend: &mut Backend) -> (r: RespFrame) {
        RespFrame::SimpleString(SimpleString(self.message))
    }
}

impl CommandExecutor for SAdd {
    /// On a key that is free or holds a set, the member is added, every
    /// member already present stays, no other key changes, and the reply
    /// is `+OK`; on a key of another kind nothing changes and the reply
    /// is an error frame.
    open spec fn post(self, pre: Backend, post_b: Backend, r: RespFrame) -> bool {
        match pre.lookup(self.key@) {
            Some(StoreValue::Text(_)) | Some(StoreValue::Hash(_)) => post_b.store@ == pre.store@
                && fview(r) == FrameV::Error(wrongtype_text()),
            _ => {
                &&& post_b.set_contains(self.key@, fview(self.member))
                &&& forall|k: Seq<u8>, m: FrameV|
                    pre.set_contains(k, m) ==> #[trigger] post_b.set_contains(k, m)
                &&& forall|k: Seq<u8>, m: FrameV|
                    #[trigger] post_b.set_contains(k, m) ==> pre.set_contains(k, m) || (k
                        == self.key@ && m == fview(self.member))
                &&& forall|k: Seq<u8>|
                    k != self.key@ ==> pre.lookup(k) == #[trigger] post_b.lookup(k)
                &&& fview(r) == FrameV::SimpleString(ok_text())
            },
        }
    }

    fn execute(self, backend: &mut Backend) -> (r: RespFrame) {
        let ghost k0 = self.key@;
        let ghost m0 = fview(self.member);
        let ok = backend.sadd(self.key, self.member);
        if ok {
            resp_ok()
        } else {
            resp_wrongtype()
        }
    }
}

impl CommandExecutor for SIsMember {
    /// The store is untouched; the reply is `1` exactly when the member
    /// stands in the set under the key, else `0`.
    open spec fn post(self, pre: Backend, post_b: Backend, r: RespFrame) -> bool {
        post_b.store@ == pre.store@ && fview(r) == FrameV::Integer(
            if pre.set_contains(self.key@, FrameV::BulkString(self.member@)) {
                1
            } else {
                0
            },
        )
    }

    fn execute(self, backend: &mut Backend) -> (r: RespFrame) {
        if backend.sismember(self.key.as_slice(), self.member.as_slice()) {
            RespFrame::Integer(1)
        } else {
            RespFrame::Integer(0)
        }
    }
}

} // verus!
