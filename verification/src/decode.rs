use vstd::prelude::*;
use vstd::slice::slice_subrange;

use crate::codec::expect_length_x;
use crate::codec::find_crlf_x;
use crate::codec::all_digits_x;
use crate::codec::digits_val_x;
use crate::codec::len_matches;
use crate::codec::parse_one_x;
use crate::encode::PFX_SET;
use crate::frame::FrameV;
use crate::frame::RespFrame;
use crate::frame::RespSet;
use crate::frame::frames_view;
use crate::frame::fview;
use crate::wire::RespError;
use crate::wire::digits_val;
use crate::wire::find_crlf;
use crate::wire::lemma_find_crlf;
use crate::wire::lemma_measure_elems_bounds;
use crate::wire::measure_one;
use crate::wire::neg_one;
use crate::wire::parse_one;

verus! {

/// The bytes an outside `BytesMut` buffer currently holds, front first.
pub uninterp spec fn bytes_view(b: bytes::BytesMut) -> Seq<u8>;

#[verifier::external_type_specification]
#[verifier::external_body]
pub struct ExBytesMut(bytes::BytesMut);

/// Relies on bytes::BytesMut::new: a freshly created buffer is empty.
#[verifier::external_body]
pub fn bm_new() -> (r: bytes::BytesMut)
    ensures
        bytes_view(r) == Seq::<u8>::empty(),
{
    bytes::BytesMut::new()
}

/// Relies on <bytes::BytesMut as AsRef<[u8]>>::as_ref: a view of all the
/// bytes the buffer holds.
#[verifier::external_body]
pub fn bm_bytes(b: &bytes::BytesMut) -> (r: &[u8])
    ensures
        r@ == bytes_view(*b),
{
    b.as_ref()
}

/// Relies on bytes::Buf::advance for BytesMut: the first `n` bytes are
/// dropped from the front; it panics past the end, which the bound rules out.
#[verifier::external_body]
pub fn bm_advance(b: &mut bytes::BytesMut, n: usize)
    requires
        n <= bytes_view(*old(b)).len(),
    ensures
        bytes_view(*final(b)) == bytes_view(*old(b)).skip(n as int),
{
    bytes::Buf::advance(b, n);
}

/// Relies on bytes::BytesMut::extend_from_slice: the bytes are appended.
#[verifier::external_body]
pub fn bm_extend(b: &mut bytes::BytesMut, s: &[u8])
    ensures
        bytes_view(*final(b)) == bytes_view(*old(b)) + s@,
{
    b.extend_from_slice(s);
}

/// The measure-then-parse codec: `expect_length` walks the buffer once to
/// find the complete frame's exact length without consuming anything, and
/// `decode` consumes exactly that many bytes and parses them.
pub trait RespDecodeV2: Sized {
    /// Whether this decoded value stands for the parsed value `v`.
    spec fn represents(self, v: FrameV) -> bool;

    fn decode(buf: &mut bytes::BytesMut) -> (r: Result<Self, RespError>)
        ensures
            ({
                let s = bytes_view(*old(buf));
                match measure_one(s) {
                    Err(e) => r == Err::<Self, RespError>(e) && bytes_view(*final(buf)) == s,
                    Ok(n) => bytes_view(*final(buf)) == s.skip(n) && (match parse_one(s.take(n)) {
                        Ok((fv, _)) => match r {
                            Ok(f) => f.represents(fv),
                            Err(_) => false,
                        },
                        Err(e) => r == Err::<Self, RespError>(e),
                    }),
                }
            }),
    ;

    fn expect_length(buf: &[u8]) -> (r: Result<usize, RespError>)
        ensures
            len_matches(r, measure_one(buf@)),
    ;
}

impl RespDecodeV2 for RespFrame {
    open spec fn represents(self, v: FrameV) -> bool {
        fview(self) == v
    }

    fn decode(buf: &mut bytes::BytesMut) -> (r: Result<Self, RespError>) {
        let n: usize = {
            let s = bm_bytes(buf);
            match Self::expect_length(s) {
                Err(e) => {
                    return Err(e);
                },
                Ok(n) => n,
            }
        };
        let out = {
            let s = bm_bytes(buf);
            proof {
                crate::wire::lemma_measure_one_bounds(s@);
                assert(n <= s@.len());
            }
            let region = slice_subrange(s, 0, n);
            proof {
                assert(region@ =~= s@.take(n as int));
            }
            parse_one_x(region)
        };
        bm_advance(buf, n);
        match out {
            Ok((f, _)) => Ok(f),
            Err(e) => Err(e),
        }
    }

    fn expect_length(buf: &[u8]) -> (r: Result<usize, RespError>) {
        expect_length_x(buf)
    }
}

/// On a buffer that starts with the set prefix, a bad or overlong length
/// line leaves the measure walk in an error too.
pub proof fn lemma_set_header_errors(s: Seq<u8>)
    requires
        s.len() > 0,
        s.len() <= usize::MAX,
        s[0] == PFX_SET,
    ensures
        match find_crlf(s, 1) {
            None => measure_one(s) == Err::<int, RespError>(RespError::NotComplete),
            Some(i) => ({
                let seg = s.subrange(1, i);
                &&& (!(seg.len() > 0 && crate::wire::all_digits(seg)) ==> measure_one(s) == Err::<
                    int,
                    RespError,
                >(RespError::InvalidFrameLength))
                &&& ((seg.len() > 0 && crate::wire::all_digits(seg) && digits_val(seg)
                    > u64::MAX) ==> measure_one(s) == Err::<int, RespError>(RespError::NotComplete))
            }),
        },
{
    lemma_find_crlf(s, 1);
    match find_crlf(s, 1) {
        None => {},
        Some(i) => {
            let seg = s.subrange(1, i);
            if seg.len() > 0 && crate::wire::all_digits(seg) && digits_val(seg) > u64::MAX {
                assert(s.len() <= usize::MAX);
                assert(3 * digits_val(seg) >= digits_val(seg));
                assert(3 * digits_val(seg) > s.len() - (i + 2));
            }
        },
    }
}

/// The length line of a length-prefixed frame: checks the prefix byte,
/// finds the CRLF that ends the line and reads the decimal count. Returns
/// the CRLF position and the count.
pub fn parse_length(buf: &[u8], prefix: u8) -> (r: Result<(usize, u64), RespError>)
    requires
        prefix == PFX_SET,
    ensures
        ({
            let s = buf@;
            if s.len() == 0 {
                r == Err::<(usize, u64), RespError>(RespError::NotComplete)
            } else if s[0] != prefix {
                r == Err::<(usize, u64), RespError>(RespError::InvalidFrameType)
            } else {
                match r {
                    Ok((end, d)) => find_crlf(s, 1) == Some(end as int) && 1 <= end && end + 2
                        <= s.len() && ({
                        let seg = s.subrange(1, end as int);
                        seg.len() > 0 && crate::wire::all_digits(seg) && d as nat == digits_val(
                            seg,
                        )
                    }),
                    Err(e) => measure_one(s) == Err::<int, RespError>(e),
                }
            }
        }),
{
    let n = buf.len();
    if n == 0 {
        return Err(RespError::NotComplete);
    }
    let b0 = *vstd::slice::slice_index_get(buf, 0);
    if b0 != prefix {
        return Err(RespError::InvalidFrameType);
    }
    proof {
        lemma_set_header_errors(buf@);
    }
    match find_crlf_x(buf, 1) {
        None => Err(RespError::NotComplete),
        Some(i) => {
            if i > 1 && all_digits_x(buf, 1, i) {
                match digits_val_x(buf, 1, i) {
                    Some(d) => Ok((i, d)),
                    // a count above u64::MAX can never fit a real buffer
                    None => Err(RespError::NotComplete),
                }
            } else {
                Err(RespError::InvalidFrameLength)
            }
        },
    }
}

/// The total byte length of a container frame whose length line ends at
/// `end` and declares `len` elements: header plus the measured elements.
pub fn calc_total_length(buf: &[u8], end: usize, len: u64, prefix: u8) -> (r: Result<
    usize,
    RespError,
>)
    requires
        buf@.len() > 0,
        buf@[0] == prefix,
        prefix == PFX_SET,
        find_crlf(buf@, 1) == Some(end as int),
        buf@.subrange(1, end as int).len() > 0,
        crate::wire::all_digits(buf@.subrange(1, end as int)),
        digits_val(buf@.subrange(1, end as int)) == len as nat,
    ensures
        len_matches(r, measure_one(buf@)),
{
    let n = buf.len();
    proof {
        lemma_find_crlf(buf@, 1);
        let seg = buf@.subrange(1, end as int);
        if seg == neg_one() {
            assert(crate::wire::is_digit(seg[0]));
            assert(seg[0] == 45);
        }
    }
    let rem = n - (end + 2);
    if 3 * (len as u128) > rem as u128 {
        return Err(RespError::NotComplete);
    }
    let sub = slice_subrange(buf, end + 2, n);
    proof {
        assert(sub@ =~= buf@.skip(end + 2));
    }
    match crate::codec::measure_elems_x(sub, len as u128) {
        Ok(m) => {
            proof {
                lemma_measure_elems_bounds(sub@, len as nat);
            }
            Ok(end + 2 + m)
        },
        Err(e) => Err(e),
    }
}

/// The decode-per-variant codec: each frame kind reads its own length
/// line, measures its span, and then decodes its payload.
pub trait RespDecode: Sized {
    /// The prefix byte this frame kind answers to.
    spec fn prefix() -> u8;

    /// Whether this decoded value stands for the parsed value `v`.
    spec fn represents(self, v: FrameV) -> bool;

    fn decode(buf: &mut bytes::BytesMut) -> (r: Result<Self, RespError>)
        ensures
            ({
                let s = bytes_view(*old(buf));
                if s.len() == 0 {
                    r == Err::<Self, RespError>(RespError::NotComplete) && bytes_view(*final(buf))
                        == s
                } else if s[0] != Self::prefix() {
                    r == Err::<Self, RespError>(RespError::InvalidFrameType) && bytes_view(
                        *final(buf),
                    ) == s
                } else {
                    match measure_one(s) {
                        Err(e) => r == Err::<Self, RespError>(e) && bytes_view(*final(buf)) == s,
                        Ok(n) => bytes_view(*final(buf)) == s.skip(n) && (match parse_one(
                            s.take(n),
                        ) {
                            Ok((fv, _)) => match r {
                                Ok(x) => x.represents(fv),
                                Err(_) => false,
                            },
                            Err(e) => r == Err::<Self, RespError>(e),
                        }),
                    }
                }
            }),
    ;

    fn expect_length(buf: &[u8]) -> (r: Result<usize, RespError>)
        ensures
            ({
                let s = buf@;
                if s.len() == 0 {
                    r == Err::<usize, RespError>(RespError::NotComplete)
                } else if s[0] != Self::prefix() {
                    r == Err::<usize, RespError>(RespError::InvalidFrameType)
                } else {
                    match measure_one(s) {
                        Err(e) => r == Err::<usize, RespError>(e),
                        Ok(n) => r == Ok::<usize, RespError>(n as usize),
                    }
                }
            }),
    ;
}

impl RespDecode for RespSet {
    open spec fn prefix() -> u8 {
        PFX_SET
    }

    open spec fn represents(self, v: FrameV) -> bool {
        FrameV::SetFrame(frames_view(self.0@)) == v
    }

    fn decode(buf: &mut bytes::BytesMut) -> (r: Result<Self, RespError>) {
        let total: usize = {
            let s = bm_bytes(buf);
            let (end, len) = match parse_length(s, PFX_SET) {
                Ok(el) => el,
                Err(e) => {
                    return Err(e);
                },
            };
            proof {
                lemma_find_crlf(s@, 1);
            }
            match calc_total_length(s, end, len, PFX_SET) {
                Ok(t) => t,
                Err(e) => {
                    return Err(e);
                },
            }
        };
        let out = {
            let s = bm_bytes(buf);
            proof {
                crate::wire::lemma_measure_one_bounds(s@);
            }
            let region = slice_subrange(s, 0, total);
            proof {
                assert(region@ =~= s@.take(total as int));
            }
            match parse_one_x(region) {
                Ok((f, _)) => match f {
                    RespFrame::SetFrame(st) => Ok(st),
                    _ => {
                        proof {
                            lemma_parse_take_is_set(s@, total as int);
                        }
                        Err(RespError::InvalidFrame)
                    },
                },
                Err(e) => Err(e),
            }
        };
        bm_advance(buf, total);
        out
    }

    fn expect_length(buf: &[u8]) -> (r: Result<usize, RespError>) {
        let (end, len) = match parse_length(buf, PFX_SET) {
            Ok(el) => el,
            Err(e) => {
                return Err(e);
            },
        };
        proof {
            lemma_find_crlf(buf@, 1);
        }
        match calc_total_length(buf, end, len, PFX_SET) {
            Ok(t) => Ok(t),
            Err(e) => Err(e),
        }
    }
}

/// When a buffer starts with the set prefix and its measured span parses
/// at all, it parses to a set frame.
proof fn lemma_parse_take_is_set(s: Seq<u8>, n: int)
    requires
        s.len() > 0,
        s[0] == PFX_SET,
        0 <= n <= s.len(),
    ensures
        match parse_one(s.take(n)) {
            Ok((fv, _)) => fv is SetFrame,
            Err(_) => true,
        },
{
    if n > 0 {
        assert(s.take(n)[0] == PFX_SET);
    }
}

} // verus!
