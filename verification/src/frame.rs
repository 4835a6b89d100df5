use vstd::prelude::*;
use vstd::string::StringSliceAdditionalSpecFns;

verus! {

/// Byte values of the ASCII characters the wire format is built from.
pub const CR: u8 = 13;
pub const LF: u8 = 10;

/// One decoded RESP value. Container variants recurse through `RespFrame`,
/// which makes this the recursion point of the whole wire format.
#[derive(Debug)]
pub enum RespFrame {
    SimpleString(SimpleString),
    Error(SimpleError),
    Integer(i64),
    BulkString(BulkString),
    NullBulkString(RespNullBulkString),
    Array(RespArray),
    NullArray(RespNullArray),
    Null(RespNull),
    Boolean(bool),
    Double(RespDouble),
    MapFrame(RespMap),
    SetFrame(RespSet),
}

/// A line frame: text with no embedded CRLF pair.
#[derive(Debug)]
pub struct SimpleString(pub Vec<u8>);

/// An error line frame: text with no embedded CRLF pair.
#[derive(Debug)]
pub struct SimpleError(pub Vec<u8>);

/// A length-prefixed byte string; may hold any bytes, CRLF included.
#[derive(Debug)]
pub struct BulkString(pub Vec<u8>);

/// An ordered sequence of frames.
#[derive(Debug)]
pub struct RespArray(pub Vec<RespFrame>);

/// The standalone null frame, distinct from the null array and null bulk string.
#[derive(Debug)]
pub struct RespNull;

#[derive(Debug)]
pub struct RespNullArray;

#[derive(Debug)]
pub struct RespNullBulkString;

/// The textual rendering of a double, kept as the bytes that stand between
/// the `,` prefix and the final CRLF on the wire. The store keeps the text
/// itself so that a decoded double re-encodes to the very bytes it came from.
#[derive(Debug)]
pub struct RespDouble(pub Vec<u8>);

/// Key/value pairs ordered strictly by key, so that a map has one encoding.
#[derive(Debug)]
pub struct RespMap(pub Vec<MapEntry>);

#[derive(Debug)]
pub struct MapEntry {
    pub key: Vec<u8>,
    pub value: RespFrame,
}

/// The elements of a set frame, in decode order.
#[derive(Debug)]
pub struct RespSet(pub Vec<RespFrame>);

impl SimpleString {
    pub fn new(s: &str) -> (r: Self)
        ensures
            r.0@ == s.spec_bytes(),
    {
        SimpleString(vstd::slice::slice_to_vec(s.as_bytes()))
    }
}

impl SimpleError {
    pub fn new(s: &str) -> (r: Self)
        ensures
            r.0@ == s.spec_bytes(),
    {
        SimpleError(vstd::slice::slice_to_vec(s.as_bytes()))
    }
}

impl BulkString {
    pub fn new(v: Vec<u8>) -> (r: Self)
        ensures
            r.0 == v,
    {
        BulkString(v)
    }
}

impl RespArray {
    pub fn new(v: Vec<RespFrame>) -> (r: Self)
        ensures
            r.0 == v,
    {
        RespArray(v)
    }
}

impl RespSet {
    pub fn new(v: Vec<RespFrame>) -> (r: Self)
        ensures
            r.0 == v,
    {
        RespSet(v)
    }
}

impl RespDouble {
    pub fn new(s: &str) -> (r: Self)
        ensures
            r.0@ == s.spec_bytes(),
    {
        RespDouble(vstd::slice::slice_to_vec(s.as_bytes()))
    }
}

impl RespMap {
    pub fn new() -> (r: Self)
        ensures
            r.0@ == Seq::<MapEntry>::empty(),
    {
        RespMap(Vec::new())
    }
}

/// The mathematical value of a frame: every payload a sequence, every
/// integer unbounded. Contracts and laws are stated over this type.
#[verifier::ext_equal]
pub ghost enum FrameV {
    SimpleString(Seq<u8>),
    Error(Seq<u8>),
    Integer(int),
    BulkString(Seq<u8>),
    NullBulkString,
    Array(Seq<FrameV>),
    NullArray,
    Null,
    Boolean(bool),
    Double(Seq<u8>),
    MapFrame(Seq<(Seq<u8>, FrameV)>),
    SetFrame(Seq<FrameV>),
}

pub open spec fn fview(f: RespFrame) -> FrameV
    decreases f,
{
    match f {
        RespFrame::SimpleString(s) => FrameV::SimpleString(s.0@),
        RespFrame::Error(s) => FrameV::Error(s.0@),
        RespFrame::Integer(i) => FrameV::Integer(i as int),
        RespFrame::BulkString(b) => FrameV::BulkString(b.0@),
        RespFrame::NullBulkString(_) => FrameV::NullBulkString,
        RespFrame::Array(a) => FrameV::Array(frames_view(a.0@)),
        RespFrame::NullArray(_) => FrameV::NullArray,
        RespFrame::Null(_) => FrameV::Null,
        RespFrame::Boolean(b) => FrameV::Boolean(b),
        RespFrame::Double(d) => FrameV::Double(d.0@),
        RespFrame::MapFrame(m) => FrameV::MapFrame(entries_view(m.0@)),
        RespFrame::SetFrame(s) => FrameV::SetFrame(frames_view(s.0@)),
    }
}

pub open spec fn frames_view(s: Seq<RespFrame>) -> Seq<FrameV>
    decreases s,
{
    if s.len() == 0 {
        Seq::<FrameV>::empty()
    } else {
        seq![fview(s[0])] + frames_view(s.subrange(1, s.len() as int))
    }
}

pub open spec fn entries_view(s: Seq<MapEntry>) -> Seq<(Seq<u8>, FrameV)>
    decreases s,
{
    if s.len() == 0 {
        Seq::<(Seq<u8>, FrameV)>::empty()
    } else {
        seq![(s[0].key@, fview(s[0].value))] + entries_view(s.subrange(1, s.len() as int))
    }
}

impl View for RespFrame {
    type V = FrameV;

    open spec fn view(&self) -> FrameV {
        fview(*self)
    }
}

pub proof fn lemma_frames_view_index(s: Seq<RespFrame>)
    ensures
        frames_view(s).len() == s.len(),
        forall|i: int| 0 <= i < s.len() ==> frames_view(s)[i] == fview(#[trigger] s[i]),
    decreases s.len(),
{
    if s.len() > 0 {
        let rest = s.subrange(1, s.len() as int);
        lemma_frames_view_index(rest);
        assert forall|i: int| 0 <= i < s.len() implies frames_view(s)[i] == fview(s[i]) by {
            if i > 0 {
                assert(frames_view(s)[i] == frames_view(rest)[i - 1]);
                assert(rest[i - 1] == s[i]);
            }
        }
    }
}

pub proof fn lemma_entries_view_index(s: Seq<MapEntry>)
    ensures
        entries_view(s).len() == s.len(),
        forall|i: int| 0 <= i < s.len() ==> entries_view(s)[i] == (#[trigger] s[i].key@,
            fview(s[i].value)),
    decreases s.len(),
{
    if s.len() > 0 {
        let rest = s.subrange(1, s.len() as int);
        lemma_entries_view_index(rest);
        assert forall|i: int| 0 <= i < s.len() implies entries_view(s)[i] == (s[i].key@, fview(
            s[i].value,
        )) by {
            if i > 0 {
                assert(entries_view(s)[i] == entries_view(rest)[i - 1]);
                assert(rest[i - 1] == s[i]);
            }
        }
    }
}

pub proof fn lemma_frames_view_push(s: Seq<RespFrame>, x: RespFrame)
    ensures
        frames_view(s.push(x)) == frames_view(s).push(fview(x)),
{
    lemma_frames_view_index(s.push(x));
    lemma_frames_view_index(s);
    assert forall|i: int| 0 <= i < s.len() + 1 implies frames_view(s.push(x))[i] == frames_view(
        s,
    ).push(fview(x))[i] by {
        if i < s.len() {
            assert(s.push(x)[i] == s[i]);
        } else {
            assert(s.push(x)[i] == x);
        }
    }
    assert(frames_view(s.push(x)) =~= frames_view(s).push(fview(x)));
}

/// True when no CRLF pair stands inside `s`: the condition for a line
/// payload to survive a round trip over the wire.
pub open spec fn no_crlf(s: Seq<u8>) -> bool {
    forall|i: int| 0 <= i && i + 1 < s.len() ==> !(#[trigger] s[i] == CR && s[i + 1] == LF)
}

/// Strict lexicographic order on byte sequences; the key order of a map.
pub open spec fn lex_lt(a: Seq<u8>, b: Seq<u8>) -> bool
    decreases a.len(),
{
    if b.len() == 0 {
        false
    } else if a.len() == 0 {
        true
    } else if a[0] < b[0] {
        true
    } else if a[0] > b[0] {
        false
    } else {
        lex_lt(a.subrange(1, a.len() as int), b.subrange(1, b.len() as int))
    }
}

/// Keys strictly increasing: sorted and free of duplicates at once.
pub open spec fn entries_sorted(s: Seq<(Seq<u8>, FrameV)>) -> bool {
    forall|i: int| 0 <= i && i + 1 < s.len() ==> lex_lt(#[trigger] s[i].0, s[i + 1].0)
}

/// The frames a well-formed value may hold: line payloads free of CRLF,
/// map keys free of CRLF and strictly ordered, containers well-formed
/// throughout. Exactly these values survive `decode(encode(_))` unchanged.
pub open spec fn wf(v: FrameV) -> bool
    decreases v,
{
    match v {
        FrameV::SimpleString(s) => no_crlf(s),
        FrameV::Error(s) => no_crlf(s),
        FrameV::Integer(i) => i64::MIN <= i <= i64::MAX,
        FrameV::BulkString(_) => true,
        FrameV::NullBulkString => true,
        FrameV::Array(es) => forall|i: int| 0 <= i < es.len() ==> wf(#[trigger] es[i]),
        FrameV::NullArray => true,
        FrameV::Null => true,
        FrameV::Boolean(_) => true,
        FrameV::Double(s) => no_crlf(s),
        FrameV::MapFrame(es) => entries_sorted(es) && forall|i: int|
            0 <= i < es.len() ==> no_crlf(#[trigger] es[i].0) && wf(es[i].1),
        FrameV::SetFrame(es) => forall|i: int| 0 <= i < es.len() ==> wf(#[trigger] es[i]),
    }
}

} // verus!
