use vstd::prelude::*;

use crate::frame::BulkString;
use crate::frame::FrameV;
use crate::frame::MapEntry;
use crate::frame::RespArray;
use crate::frame::RespDouble;
use crate::frame::RespFrame;
use crate::frame::RespMap;
use crate::frame::RespNull;
use crate::frame::RespNullArray;
use crate::frame::RespNullBulkString;
use crate::frame::RespSet;
use crate::frame::SimpleError;
use crate::frame::SimpleString;
use crate::frame::fview;
use crate::frame::frames_view;
use crate::frame::entries_view;
use crate::frame::lemma_frames_view_index;
use crate::frame::lemma_entries_view_index;
use crate::frame::CR;
use crate::frame::LF;

verus! {

/// The prefix byte of each frame kind, as the wire format tabulates them.
pub const PFX_SIMPLE: u8 = 43;  // '+'
pub const PFX_ERROR: u8 = 45;  // '-'
pub const PFX_INT: u8 = 58;  // ':'
pub const PFX_BULK: u8 = 36;  // '$'
pub const PFX_ARRAY: u8 = 42;  // '*'
pub const PFX_NULL: u8 = 95;  // '_'
pub const PFX_BOOL: u8 = 35;  // '#'
pub const PFX_DOUBLE: u8 = 44;  // ','
pub const PFX_MAP: u8 = 37;  // '%'
pub const PFX_SET: u8 = 126;  // '~'

pub open spec fn crlf_s() -> Seq<u8> {
    seq![CR, LF]
}

/// Decimal rendering of a nonnegative number, most significant digit first.
pub open spec fn digits_spec(n: nat) -> Seq<u8>
    decreases n,
{
    if n < 10 {
        seq![(48 + n) as u8]
    } else {
        digits_spec(n / 10).push((48 + n % 10) as u8)
    }
}

pub open spec fn int_mag(i: int) -> nat {
    if i >= 0 {
        i as nat
    } else {
        (-i) as nat
    }
}

/// The sign an encoded integer carries: an explicit `+` for nonnegative values.
pub open spec fn sign_seq(i: int) -> Seq<u8> {
    if i >= 0 {
        seq![43u8]
    } else {
        seq![45u8]
    }
}

/// The one encoding of a frame value: the wire contract of the library.
pub open spec fn enc(v: FrameV) -> Seq<u8>
    decreases v,
{
    match v {
        FrameV::SimpleString(s) => seq![PFX_SIMPLE] + s + crlf_s(),
        FrameV::Error(s) => seq![PFX_ERROR] + s + crlf_s(),
        FrameV::Integer(i) => seq![PFX_INT] + sign_seq(i) + digits_spec(int_mag(i)) + crlf_s(),
        FrameV::BulkString(b) => seq![PFX_BULK] + digits_spec(b.len()) + crlf_s() + b + crlf_s(),
        FrameV::NullBulkString => seq![PFX_BULK, 45u8, 49u8, CR, LF],
        FrameV::Array(es) => seq![PFX_ARRAY] + digits_spec(es.len()) + crlf_s() + enc_seq(es),
        FrameV::NullArray => seq![PFX_ARRAY, 45u8, 49u8, CR, LF],
        FrameV::Null => seq![PFX_NULL, CR, LF],
        FrameV::Boolean(b) => seq![PFX_BOOL, if b { 116u8 } else { 102u8 }, CR, LF],
        FrameV::Double(s) => seq![PFX_DOUBLE] + s + crlf_s(),
        FrameV::MapFrame(es) => seq![PFX_MAP] + digits_spec(es.len()) + crlf_s() + enc_entries(es),
        FrameV::SetFrame(es) => seq![PFX_SET] + digits_spec(es.len()) + crlf_s() + enc_seq(es),
    }
}

/// The concatenated encodings of a sequence of frames.
pub open spec fn enc_seq(es: Seq<FrameV>) -> Seq<u8>
    decreases es,
{
    if es.len() == 0 {
        Seq::<u8>::empty()
    } else {
        enc(es[0]) + enc_seq(es.subrange(1, es.len() as int))
    }
}

/// Each map entry: the key as a simple string, then the value.
pub open spec fn enc_entries(es: Seq<(Seq<u8>, FrameV)>) -> Seq<u8>
    decreases es,
{
    if es.len() == 0 {
        Seq::<u8>::empty()
    } else {
        seq![PFX_SIMPLE] + es[0].0 + crlf_s() + enc(es[0].1) + enc_entries(
            es.subrange(1, es.len() as int),
        )
    }
}

pub proof fn lemma_enc_seq_concat(a: Seq<FrameV>, b: Seq<FrameV>)
    ensures
        enc_seq(a + b) == enc_seq(a) + enc_seq(b),
    decreases a.len(),
{
    if a.len() == 0 {
        assert(a + b =~= b);
        assert(enc_seq(a) + enc_seq(b) =~= enc_seq(b));
    } else {
        lemma_enc_seq_concat(a.subrange(1, a.len() as int), b);
        assert((a + b).subrange(1, (a + b).len() as int) =~= a.subrange(1, a.len() as int) + b);
        assert((a + b)[0] == a[0]);
        assert(enc(a[0]) + (enc_seq(a.subrange(1, a.len() as int)) + enc_seq(b)) =~= (enc(a[0])
            + enc_seq(a.subrange(1, a.len() as int))) + enc_seq(b));
    }
}

pub proof fn lemma_enc_seq_take_step(es: Seq<FrameV>, i: int)
    requires
        0 <= i < es.len(),
    ensures
        enc_seq(es.take(i + 1)) == enc_seq(es.take(i)) + enc(es[i]),
{
    assert(es.take(i + 1) =~= es.take(i) + seq![es[i]]);
    lemma_enc_seq_concat(es.take(i), seq![es[i]]);
    assert(seq![es[i]].subrange(1, 1) =~= Seq::<FrameV>::empty());
    assert(enc_seq(seq![es[i]]) =~= enc(es[i]) + enc_seq(Seq::<FrameV>::empty()));
    assert(enc_seq(seq![es[i]]) =~= enc(es[i]));
}

pub proof fn lemma_enc_entries_concat(a: Seq<(Seq<u8>, FrameV)>, b: Seq<(Seq<u8>, FrameV)>)
    ensures
        enc_entries(a + b) == enc_entries(a) + enc_entries(b),
    decreases a.len(),
{
    if a.len() == 0 {
        assert(a + b =~= b);
        assert(enc_entries(a) + enc_entries(b) =~= enc_entries(b));
    } else {
        lemma_enc_entries_concat(a.subrange(1, a.len() as int), b);
        assert((a + b).subrange(1, (a + b).len() as int) =~= a.subrange(1, a.len() as int) + b);
        assert((a + b)[0] == a[0]);
        assert(seq![PFX_SIMPLE] + a[0].0 + crlf_s() + enc(a[0].1) + (enc_entries(
            a.subrange(1, a.len() as int),
        ) + enc_entries(b)) =~= (seq![PFX_SIMPLE] + a[0].0 + crlf_s() + enc(a[0].1) + enc_entries(
            a.subrange(1, a.len() as int),
        )) + enc_entries(b));
    }
}

pub proof fn lemma_enc_entries_take_step(es: Seq<(Seq<u8>, FrameV)>, i: int)
    requires
        0 <= i < es.len(),
    ensures
        enc_entries(es.take(i + 1)) == enc_entries(es.take(i)) + seq![PFX_SIMPLE] + es[i].0
            + crlf_s() + enc(es[i].1),
{
    assert(es.take(i + 1) =~= es.take(i) + seq![es[i]]);
    lemma_enc_entries_concat(es.take(i), seq![es[i]]);
    assert(seq![es[i]].subrange(1, 1) =~= Seq::<(Seq<u8>, FrameV)>::empty());
    assert(enc_entries(seq![es[i]]) =~= seq![PFX_SIMPLE] + es[i].0 + crlf_s() + enc(es[i].1)
        + enc_entries(Seq::<(Seq<u8>, FrameV)>::empty()));
    assert(enc_entries(seq![es[i]]) =~= seq![PFX_SIMPLE] + es[i].0 + crlf_s() + enc(es[i].1));
    assert(enc_entries(es.take(i)) + (seq![PFX_SIMPLE] + es[i].0 + crlf_s() + enc(es[i].1)) =~=
        enc_entries(es.take(i)) + seq![PFX_SIMPLE] + es[i].0 + crlf_s() + enc(es[i].1));
}

/// Appends the bytes of `b` to `out`.
pub fn push_bytes(out: &mut Vec<u8>, b: &[u8])
    ensures
        final(out)@ == old(out)@ + b@,
{
    let n = b.len();
    let mut i: usize = 0;
    while i < n
        invariant
            i <= n,
            n == b@.len(),
            out@ == old(out)@ + b@.take(i as int),
        decreases n - i,
    {
        out.push(b[i]);
        assert(b@.take(i + 1) =~= b@.take(i as int).push(b@[i as int]));
        i += 1;
    }
    assert(b@.take(n as int) =~= b@);
}

pub fn push_crlf(out: &mut Vec<u8>)
    ensures
        final(out)@ == old(out)@ + crlf_s(),
{
    out.push(CR);
    out.push(LF);
    assert(out@ =~= old(out)@ + crlf_s());
}

/// Appends the decimal rendering of `n`.
pub fn push_digits(n: u64, out: &mut Vec<u8>)
    ensures
        final(out)@ == old(out)@ + digits_spec(n as nat),
    decreases n,
{
    if n < 10 {
        out.push(48 + n as u8);
        assert(out@ =~= old(out)@ + digits_spec(n as nat));
    } else {
        push_digits(n / 10, out);
        out.push(48 + (n % 10) as u8);
        assert(out@ =~= old(out)@ + digits_spec(n as nat));
    }
}

/// Appends the encoding of `f` to `out`. Encoding is total: it cannot fail.
pub fn encode_frame(f: &RespFrame, out: &mut Vec<u8>)
    ensures
        final(out)@ == old(out)@ + enc(fview(*f)),
    decreases *f,
{
    match f {
        RespFrame::SimpleString(s) => {
            out.push(PFX_SIMPLE);
            push_bytes(out, s.0.as_slice());
            push_crlf(out);
            assert(out@ =~= old(out)@ + enc(fview(*f)));
        },
        RespFrame::Error(s) => {
            out.push(PFX_ERROR);
            push_bytes(out, s.0.as_slice());
            push_crlf(out);
            assert(out@ =~= old(out)@ + enc(fview(*f)));
        },
        RespFrame::Integer(i) => {
            out.push(PFX_INT);
            let mag: u64 = if *i >= 0 {
                out.push(43);
                *i as u64
            } else if *i == i64::MIN {
                out.push(45);
                9223372036854775808u64
            } else {
                out.push(45);
                (-*i) as u64
            };
            assert(mag as nat == int_mag(*i as int));
            push_digits(mag, out);
            push_crlf(out);
            assert(out@ =~= old(out)@ + enc(fview(*f)));
        },
        RespFrame::BulkString(b) => {
            out.push(PFX_BULK);
            push_digits(b.0.len() as u64, out);
            push_crlf(out);
            push_bytes(out, b.0.as_slice());
            push_crlf(out);
            assert(out@ =~= old(out)@ + enc(fview(*f)));
        },
        RespFrame::NullBulkString(_) => {
            out.push(PFX_BULK);
            out.push(45);
            out.push(49);
            push_crlf(out);
            assert(out@ =~= old(out)@ + enc(fview(*f)));
        },
        RespFrame::Array(a) => {
            out.push(PFX_ARRAY);
            push_digits(a.0.len() as u64, out);
            push_crlf(out);
            encode_elems(&a.0, out);
            proof {
                lemma_frames_view_index(a.0@);
                assert(out@ =~= old(out)@ + enc(fview(*f)));
            }
        },
        RespFrame::NullArray(_) => {
            out.push(PFX_ARRAY);
            out.push(45);
            out.push(49);
            push_crlf(out);
            assert(out@ =~= old(out)@ + enc(fview(*f)));
        },
        RespFrame::Null(_) => {
            out.push(PFX_NULL);
            push_crlf(out);
            assert(out@ =~= old(out)@ + enc(fview(*f)));
        },
        RespFrame::Boolean(b) => {
            out.push(PFX_BOOL);
            if *b {
                out.push(116);
            } else {
                out.push(102);
            }
            push_crlf(out);
            assert(out@ =~= old(out)@ + enc(fview(*f)));
        },
        RespFrame::Double(d) => {
            out.push(PFX_DOUBLE);
            push_bytes(out, d.0.as_slice());
            push_crlf(out);
            assert(out@ =~= old(out)@ + enc(fview(*f)));
        },
        RespFrame::MapFrame(m) => {
            out.push(PFX_MAP);
            push_digits(m.0.len() as u64, out);
            push_crlf(out);
            encode_entry_list(&m.0, out);
            proof {
                lemma_entries_view_index(m.0@);
                assert(out@ =~= old(out)@ + enc(fview(*f)));
            }
        },
        RespFrame::SetFrame(s) => {
            out.push(PFX_SET);
            push_digits(s.0.len() as u64, out);
            push_crlf(out);
            encode_elems(&s.0, out);
            proof {
                lemma_frames_view_index(s.0@);
                assert(out@ =~= old(out)@ + enc(fview(*f)));
            }
        },
    }
}

/// Appends the encodings of the frames of `v`, in order.
pub fn encode_elems(v: &Vec<RespFrame>, out: &mut Vec<u8>)
    ensures
        final(out)@ == old(out)@ + enc_seq(frames_view(v@)),
    decreases v@,
{
    let ghost es = frames_view(v@);
    proof {
        lemma_frames_view_index(v@);
    }
    let n = v.len();
    let mut i: usize = 0;
    assert(es.take(0) =~= Seq::<FrameV>::empty());
    while i < n
        invariant
            i <= n,
            n == v@.len(),
            es == frames_view(v@),
            es.len() == n,
            forall|j: int| 0 <= j < n ==> es[j] == fview(#[trigger] v@[j]),
            out@ == old(out)@ + enc_seq(es.take(i as int)),
        decreases n - i,
    {
        encode_frame(&v[i], out);
        proof {
            lemma_enc_seq_take_step(es, i as int);
        }
        i += 1;
    }
    assert(es.take(n as int) =~= es);
}

/// Appends the encodings of the map entries of `v`, in order.
pub fn encode_entry_list(v: &Vec<MapEntry>, out: &mut Vec<u8>)
    ensures
        final(out)@ == old(out)@ + enc_entries(entries_view(v@)),
    decreases v@,
{
    let ghost es = entries_view(v@);
    proof {
        lemma_entries_view_index(v@);
    }
    let n = v.len();
    let mut i: usize = 0;
    assert(es.take(0) =~= Seq::<(Seq<u8>, FrameV)>::empty());
    while i < n
        invariant
            i <= n,
            n == v@.len(),
            es == entries_view(v@),
            es.len() == n,
            forall|j: int| 0 <= j < n ==> es[j] == (#[trigger] v@[j].key@, fview(v@[j].value)),
            out@ == old(out)@ + enc_entries(es.take(i as int)),
        decreases n - i,
    {
        out.push(PFX_SIMPLE);
        push_bytes(out, v[i].key.as_slice());
        push_crlf(out);
        encode_frame(&v[i].value, out);
        proof {
            lemma_enc_entries_take_step(es, i as int);
            assert(out@ =~= old(out)@ + enc_entries(es.take(i + 1)));
        }
        i += 1;
    }
    assert(es.take(n as int) =~= es);
}

/// Turning a value into its wire bytes; every frame kind has one encoding.
pub trait RespEncode: Sized {
    /// The bytes this value encodes to.
    spec fn enc_spec(self) -> Seq<u8>;

    /// Consumes the value and returns exactly its wire encoding.
    fn encode(self) -> (r: Vec<u8>)
        ensures
            r@ == self.enc_spec(),
    ;
}

impl RespEncode for RespFrame {
    open spec fn enc_spec(self) -> Seq<u8> {
        enc(fview(self))
    }

    fn encode(self) -> (r: Vec<u8>) {
        let mut out: Vec<u8> = Vec::new();
        encode_frame(&self, &mut out);
        out
    }
}

impl RespEncode for SimpleString {
    open spec fn enc_spec(self) -> Seq<u8> {
        enc(FrameV::SimpleString(self.0@))
    }

    fn encode(self) -> (r: Vec<u8>) {
        let f = RespFrame::SimpleString(self);
        let mut out: Vec<u8> = Vec::new();
        encode_frame(&f, &mut out);
        out
    }
}

impl RespEncode for SimpleError {
    open spec fn enc_spec(self) -> Seq<u8> {
        enc(FrameV::Error(self.0@))
    }

    fn encode(self) -> (r: Vec<u8>) {
        let f = RespFrame::Error(self);
        let mut out: Vec<u8> = Vec::new();
        encode_frame(&f, &mut out);
        out
    }
}

impl RespEncode for i64 {
    open spec fn enc_spec(self) -> Seq<u8> {
        enc(FrameV::Integer(self as int))
    }

    fn encode(self) -> (r: Vec<u8>) {
        let f = RespFrame::Integer(self);
        let mut out: Vec<u8> = Vec::new();
        encode_frame(&f, &mut out);
        out
    }
}

impl RespEncode for BulkString {
    open spec fn enc_spec(self) -> Seq<u8> {
        enc(FrameV::BulkString(self.0@))
    }

    fn encode(self) -> (r: Vec<u8>) {
        let f = RespFrame::BulkString(self);
        let mut out: Vec<u8> = Vec::new();
        encode_frame(&f, &mut out);
        out
    }
}

impl RespEncode for RespNullBulkString {
    open spec fn enc_spec(self) -> Seq<u8> {
        enc(FrameV::NullBulkString)
    }

    fn encode(self) -> (r: Vec<u8>) {
        let f = RespFrame::NullBulkString(self);
        let mut out: Vec<u8> = Vec::new();
        encode_frame(&f, &mut out);
        out
    }
}

impl RespEncode for RespArray {
    open spec fn enc_spec(self) -> Seq<u8> {
        enc(FrameV::Array(frames_view(self.0@)))
    }

    fn encode(self) -> (r: Vec<u8>) {
        let f = RespFrame::Array(self);
        let mut out: Vec<u8> = Vec::new();
        encode_frame(&f, &mut out);
        out
    }
}

impl RespEncode for RespNullArray {
    open spec fn enc_spec(self) -> Seq<u8> {
        enc(FrameV::NullArray)
    }

    fn encode(self) -> (r: Vec<u8>) {
        let f = RespFrame::NullArray(self);
        let mut out: Vec<u8> = Vec::new();
        encode_frame(&f, &mut out);
        out
    }
}

impl RespEncode for RespNull {
    open spec fn enc_spec(self) -> Seq<u8> {
        enc(FrameV::Null)
    }

    fn encode(self) -> (r: Vec<u8>) {
        let f = RespFrame::Null(self);
        let mut out: Vec<u8> = Vec::new();
        encode_frame(&f, &mut out);
        out
    }
}

impl RespEncode for bool {
    open spec fn enc_spec(self) -> Seq<u8> {
        enc(FrameV::Boolean(self))
    }

    fn encode(self) -> (r: Vec<u8>) {
        let f = RespFrame::Boolean(self);
        let mut out: Vec<u8> = Vec::new();
        encode_frame(&f, &mut out);
        out
    }
}

impl RespEncode for RespDouble {
    open spec fn enc_spec(self) -> Seq<u8> {
        enc(FrameV::Double(self.0@))
    }

    fn encode(self) -> (r: Vec<u8>) {
        let f = RespFrame::Double(self);
        let mut out: Vec<u8> = Vec::new();
        encode_frame(&f, &mut out);
        out
    }
}

impl RespEncode for RespMap {
    open spec fn enc_spec(self) -> Seq<u8> {
        enc(FrameV::MapFrame(entries_view(self.0@)))
    }

    fn encode(self) -> (r: Vec<u8>) {
        let f = RespFrame::MapFrame(self);
        let mut out: Vec<u8> = Vec::new();
        encode_frame(&f, &mut out);
        out
    }
}

impl RespEncode for RespSet {
    open spec fn enc_spec(self) -> Seq<u8> {
        enc(FrameV::SetFrame(frames_view(self.0@)))
    }

    fn encode(self) -> (r: Vec<u8>) {
        let f = RespFrame::SetFrame(self);
        let mut out: Vec<u8> = Vec::new();
        encode_frame(&f, &mut out);
        out
    }
}

} // verus!
