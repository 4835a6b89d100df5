use vstd::prelude::*;
use vstd::slice::slice_index_get;
use vstd::slice::slice_subrange;

use crate::frame::BulkString;
use crate::frame::CR;
use crate::frame::FrameV;
use crate::frame::LF;
use crate::frame::MapEntry;
use crate::frame::RespArray;
use crate::frame::RespDouble;
use crate::frame::RespFrame;
use crate::frame::RespMap;
use crate::frame::RespNull;
use crate::frame::RespNullArray;
use crate::frame::RespNullBulkString;
use crate::frame::RespSet;
use crate::frame::SimpleError;
use crate::frame::SimpleString;
use crate::frame::entries_view;
use crate::frame::frames_view;
use crate::frame::fview;
use crate::frame::lemma_frames_view_push;
use crate::order::map_insert_vec;
use crate::wire::int_of_seg;
use crate::wire::key_text;
use crate::wire::lemma_parse_elems_bounds;
use crate::wire::lemma_parse_one_bounds;
use crate::wire::lemma_parse_pairs_bounds;
use crate::wire::parse_elems;
use crate::wire::parse_one;
use crate::wire::parse_pairs;
use crate::wire::sorted_insert;
use crate::wire::RespError;
use crate::wire::all_digits;
use crate::wire::digits_val;
use crate::wire::find_crlf;
use crate::wire::is_digit;
use crate::wire::lemma_digits_val_snoc;
use crate::wire::lemma_digits_val_take_le;
use crate::wire::lemma_find_crlf;
use crate::wire::lemma_find_crlf_none;
use crate::wire::lemma_find_crlf_skip;
use crate::wire::lemma_measure_elems_bounds;
use crate::wire::lemma_measure_one_bounds;
use crate::wire::measure_elems;
use crate::wire::measure_one;
use crate::wire::neg_one;
use crate::encode::PFX_ARRAY;
use crate::encode::PFX_BOOL;
use crate::encode::PFX_BULK;
use crate::encode::PFX_DOUBLE;
use crate::encode::PFX_ERROR;
use crate::encode::PFX_INT;
use crate::encode::PFX_MAP;
use crate::encode::PFX_NULL;
use crate::encode::PFX_SET;
use crate::encode::PFX_SIMPLE;

verus! {

/// The executable result names the same length or the same error as the
/// mathematical walk.
pub open spec fn len_matches(r: Result<usize, RespError>, m: Result<int, RespError>) -> bool {
    match (r, m) {
        (Ok(n), Ok(i)) => n as int == i,
        (Err(a), Err(b)) => a == b,
        _ => false,
    }
}

fn at(s: &[u8], i: usize) -> (r: u8)
    requires
        i < s@.len(),
    ensures
        r == s@[i as int],
{
    *slice_index_get(s, i)
}

/// Finds the first CRLF pair at or after `from`.
pub fn find_crlf_x(s: &[u8], from: usize) -> (r: Option<usize>)
    requires
        1 <= from,
    ensures
        match r {
            Some(i) => find_crlf(s@, from as int) == Some(i as int) && from <= i && i + 2
                <= s@.len(),
            None => find_crlf(s@, from as int) is None,
        },
{
    let n = s.len();
    if n < 2 || from > n - 2 {
        return None;
    }
    let mut j = from;
    while j <= n - 2
        invariant
            from <= j <= n,
            n == s@.len(),
            n >= 2,
            from <= n - 2,
            forall|t: int| from <= t < j ==> !(#[trigger] s@[t] == CR && s@[t + 1] == LF),
        decreases n - j,
    {
        if at(s, j) == CR && at(s, j + 1) == LF {
            proof {
                lemma_find_crlf_skip(s@, from as int, j as int);
            }
            return Some(j);
        }
        j += 1;
    }
    proof {
        lemma_find_crlf_none(s@, from as int);
    }
    None
}

/// Decides whether every byte of `s[a..b]` is a decimal digit.
pub fn all_digits_x(s: &[u8], a: usize, b: usize) -> (r: bool)
    requires
        a <= b && b <= s@.len(),
    ensures
        r == all_digits(s@.subrange(a as int, b as int)),
{
    let ghost seg = s@.subrange(a as int, b as int);
    let mut j = a;
    while j < b
        invariant
            a <= j <= b <= s@.len(),
            seg == s@.subrange(a as int, b as int),
            forall|t: int| 0 <= t < j - a ==> is_digit(#[trigger] seg[t]),
        decreases b - j,
    {
        let c = at(s, j);
        proof {
            assert(seg[j - a] == s@[j as int]);
        }
        if c < 48 || c > 57 {
            return false;
        }
        j += 1;
    }
    true
}

/// Reads the number `s[a..b]` denotes; `None` when it exceeds `u64::MAX`.
pub fn digits_val_x(s: &[u8], a: usize, b: usize) -> (r: Option<u64>)
    requires
        a <= b && b <= s@.len(),
        all_digits(s@.subrange(a as int, b as int)),
    ensures
        match r {
            Some(n) => n as nat == digits_val(s@.subrange(a as int, b as int)),
            None => digits_val(s@.subrange(a as int, b as int)) > u64::MAX,
        },
{
    let ghost seg = s@.subrange(a as int, b as int);
    proof {
        assert(seg.take(0) =~= Seq::<u8>::empty());
    }
    let mut j = a;
    let mut acc: u64 = 0;
    while j < b
        invariant
            a <= j <= b <= s@.len(),
            seg == s@.subrange(a as int, b as int),
            all_digits(seg),
            acc as nat == digits_val(seg.take(j - a)),
        decreases b - j,
    {
        let c = at(s, j);
        proof {
            assert(seg[j - a] == s@[j as int]);
            assert(is_digit(seg[j - a]));
        }
        let d = (c - 48) as u64;
        proof {
            lemma_digits_val_snoc(seg, (j - a) as int);
        }
        if acc > (u64::MAX - d) / 10 {
            proof {
                assert(acc * 10 + d > u64::MAX) by {
                    let q = (u64::MAX - d) / 10;
                    assert(acc >= q + 1);
                    assert(acc * 10 >= (q + 1) * 10) by (nonlinear_arith)
                        requires
                            acc >= q + 1,
                    ;
                    assert(q * 10 + 10 > u64::MAX - d);
                };
                assert(digits_val(seg.take(j - a + 1)) > u64::MAX);
                lemma_digits_val_take_le(seg, j - a + 1);
            }
            return None;
        }
        proof {
            let q = (u64::MAX - d) / 10;
            assert(acc <= q);
            assert(acc * 10 <= q * 10) by (nonlinear_arith)
                requires
                    acc <= q,
            ;
            assert(q * 10 <= u64::MAX - d);
        }
        acc = acc * 10 + d;
        j += 1;
    }
    proof {
        assert(seg.take((b - a) as int) =~= seg);
    }
    Some(acc)
}

/// Byte length of the complete frame at the start of `s`: the length pass.
pub fn expect_length_x(s: &[u8]) -> (r: Result<usize, RespError>)
    ensures
        len_matches(r, measure_one(s@)),
    decreases s@.len(), 0int, 1int,
{
    let n = s.len();
    if n == 0 {
        return Err(RespError::NotComplete);
    }
    let p = at(s, 0);
    if p == PFX_SIMPLE || p == PFX_ERROR || p == PFX_INT || p == PFX_DOUBLE {
        match find_crlf_x(s, 1) {
            None => Err(RespError::NotComplete),
            Some(i) => Ok(i + 2),
        }
    } else if p == PFX_NULL {
        if n < 3 {
            Err(RespError::NotComplete)
        } else if at(s, 1) == CR && at(s, 2) == LF {
            Ok(3)
        } else {
            Err(RespError::InvalidFrame)
        }
    } else if p == PFX_BOOL {
        if n < 4 {
            Err(RespError::NotComplete)
        } else if (at(s, 1) == 116 || at(s, 1) == 102) && at(s, 2) == CR && at(s, 3) == LF {
            Ok(4)
        } else {
            Err(RespError::InvalidFrame)
        }
    } else if p == PFX_BULK {
        match find_crlf_x(s, 1) {
            None => Err(RespError::NotComplete),
            Some(i) => {
                let ghost seg = s@.subrange(1, i as int);
                let isneg = i == 3 && at(s, 1) == 45 && at(s, 2) == 49;
                proof {
                    if isneg {
                        assert(seg =~= neg_one());
                    } else if seg == neg_one() {
                        assert(seg.len() == 2);
                        assert(s@[1] == seg[0] && s@[2] == seg[1]);
                    }
                }
                if isneg {
                    Ok(i + 2)
                } else if i > 1 && all_digits_x(s, 1, i) {
                    match digits_val_x(s, 1, i) {
                        None => {
                            proof {
                                assert(digits_val(seg) > u64::MAX >= s@.len());
                            }
                            Err(RespError::NotComplete)
                        },
                        Some(d) => {
                            let rem = n - (i + 2);
                            if d <= rem as u64 && rem as u64 - d >= 2 {
                                Ok(i + 2 + (d as usize) + 2)
                            } else {
                                Err(RespError::NotComplete)
                            }
                        },
                    }
                } else {
                    Err(RespError::InvalidFrameLength)
                }
            },
        }
    } else if p == PFX_ARRAY || p == PFX_SET || p == PFX_MAP {
        match find_crlf_x(s, 1) {
            None => Err(RespError::NotComplete),
            Some(i) => {
                let ghost seg = s@.subrange(1, i as int);
                let isneg = i == 3 && at(s, 1) == 45 && at(s, 2) == 49;
                proof {
                    if isneg {
                        assert(seg =~= neg_one());
                    } else if seg == neg_one() {
                        assert(seg.len() == 2);
                        assert(s@[1] == seg[0] && s@[2] == seg[1]);
                    }
                }
                if p == PFX_ARRAY && isneg {
                    Ok(i + 2)
                } else if i > 1 && all_digits_x(s, 1, i) {
                    match digits_val_x(s, 1, i) {
                        None => {
                            proof {
                                assert(digits_val(seg) > u64::MAX >= s@.len());
                            }
                            Err(RespError::NotComplete)
                        },
                        Some(d) => {
                            let rem = n - (i + 2);
                            let cnt: u128 = if p == PFX_MAP {
                                2 * (d as u128)
                            } else {
                                d as u128
                            };
                            if 3 * cnt > rem as u128 {
                                Err(RespError::NotComplete)
                            } else {
                                let sub = slice_subrange(s, i + 2, n);
                                proof {
                                    assert(sub@ =~= s@.skip(i + 2));
                                }
                                match measure_elems_x(sub, cnt) {
                                    Ok(m) => {
                                        proof {
                                            lemma_measure_elems_bounds(sub@, cnt as nat);
                                        }
                                        Ok(i + 2 + m)
                                    },
                                    Err(e) => Err(e),
                                }
                            }
                        },
                    }
                } else {
                    Err(RespError::InvalidFrameLength)
                }
            },
        }
    } else {
        Err(RespError::InvalidFrameType)
    }
}

/// Total byte length of `count` consecutive frames at the start of `s`.
pub fn measure_elems_x(s: &[u8], count: u128) -> (r: Result<usize, RespError>)
    ensures
        len_matches(r, measure_elems(s@, count as nat)),
    decreases s@.len(), count, 0int,
{
    let n = s.len();
    let mut pos: usize = 0;
    let mut k: u128 = 0;
    proof {
        assert(s@.skip(0) =~= s@);
    }
    while k < count
        invariant
            pos <= n,
            k <= count,
            n == s@.len(),
            measure_elems(s@, count as nat) == (match measure_elems(
                s@.skip(pos as int),
                (count - k) as nat,
            ) {
                Ok(m) => Ok(pos + m),
                Err(e) => Err::<int, RespError>(e),
            }),
        decreases count - k,
    {
        let sub = slice_subrange(s, pos, n);
        match expect_length_x(sub) {
            Err(e) => {
                return Err(e);
            },
            Ok(nn) => {
                proof {
                    lemma_measure_one_bounds(sub@);
                    assert(s@.skip(pos as int).skip(nn as int) =~= s@.skip(pos + nn));
                }
                pos += nn;
                k += 1;
            },
        }
    }
    Ok(pos)
}

/// The executable result carries the same frame (by view) and length, or
/// the same error, as the mathematical walk.
pub open spec fn parse_matches(
    r: Result<(RespFrame, usize), RespError>,
    m: Result<(FrameV, int), RespError>,
) -> bool {
    match (r, m) {
        (Ok((f, n)), Ok((fv, i))) => fview(f) == fv && n as int == i,
        (Err(a), Err(b)) => a == b,
        _ => false,
    }
}

pub open spec fn elems_matches(
    r: Result<(Vec<RespFrame>, usize), RespError>,
    m: Result<(Seq<FrameV>, int), RespError>,
) -> bool {
    match (r, m) {
        (Ok((v, n)), Ok((es, i))) => frames_view(v@) == es && n as int == i,
        (Err(a), Err(b)) => a == b,
        _ => false,
    }
}

pub open spec fn pairs_matches(
    r: Result<(Vec<MapEntry>, usize), RespError>,
    m: Result<(Seq<(Seq<u8>, FrameV)>, int), RespError>,
) -> bool {
    match (r, m) {
        (Ok((v, n)), Ok((es, i))) => entries_view(v@) == es && n as int == i,
        (Err(a), Err(b)) => a == b,
        _ => false,
    }
}

/// Parses the complete frame at the start of `s`: the decode pass.
pub fn parse_one_x(s: &[u8]) -> (r: Result<(RespFrame, usize), RespError>)
    ensures
        parse_matches(r, parse_one(s@)),
    decreases s@.len(), 0int, 1int,
{
    let n = s.len();
    if n == 0 {
        return Err(RespError::NotComplete);
    }
    let p = at(s, 0);
    if p == PFX_SIMPLE || p == PFX_ERROR || p == PFX_DOUBLE {
        match find_crlf_x(s, 1) {
            None => Err(RespError::NotComplete),
            Some(i) => {
                let payload = vstd::slice::slice_to_vec(slice_subrange(s, 1, i));
                if p == PFX_SIMPLE {
                    Ok((RespFrame::SimpleString(SimpleString(payload)), i + 2))
                } else if p == PFX_ERROR {
                    Ok((RespFrame::Error(SimpleError(payload)), i + 2))
                } else {
                    Ok((RespFrame::Double(RespDouble(payload)), i + 2))
                }
            },
        }
    } else if p == PFX_INT {
        match find_crlf_x(s, 1) {
            None => Err(RespError::NotComplete),
            Some(i) => {
                let ghost seg = s@.subrange(1, i as int);
                if i <= 1 {
                    proof {
                        assert(int_of_seg(seg) is None);
                    }
                    return Err(RespError::InvalidFrame);
                }
                let first = at(s, 1);
                let signed: bool = first == 43 || first == 45;
                let digs_a: usize = if signed {
                    2
                } else {
                    1
                };
                if signed && i == 2 {
                    proof {
                        assert(!is_digit(seg[0]));
                        assert(int_of_seg(seg) is None);
                    }
                    return Err(RespError::InvalidFrame);
                }
                proof {
                    assert(seg.skip(1) =~= s@.subrange(2, i as int));
                    if signed {
                        assert(!is_digit(seg[0]));
                    }
                }
                if !all_digits_x(s, digs_a, i) {
                    proof {
                        if !signed {
                            assert(!all_digits(seg));
                            assert(seg[0] != 43 && seg[0] != 45);
                        }
                        assert(int_of_seg(seg) is None);
                    }
                    return Err(RespError::InvalidFrame);
                }
                proof {
                    if signed {
                        assert(int_of_seg(seg) == Some(
                            if seg[0] == 43 {
                                digits_val(seg.skip(1)) as int
                            } else {
                                -(digits_val(seg.skip(1)) as int)
                            },
                        ));
                    } else {
                        assert(seg[0] != 43 && seg[0] != 45);
                        assert(int_of_seg(seg) == Some(digits_val(seg) as int));
                    }
                }
                match digits_val_x(s, digs_a, i) {
                    None => Err(RespError::InvalidFrame),
                    Some(d) => {
                        if first == 45 {
                            if d > 9223372036854775808u64 {
                                Err(RespError::InvalidFrame)
                            } else if d == 9223372036854775808u64 {
                                Ok((RespFrame::Integer(i64::MIN), i + 2))
                            } else {
                                Ok((RespFrame::Integer(-(d as i64)), i + 2))
                            }
                        } else {
                            if d > i64::MAX as u64 {
                                Err(RespError::InvalidFrame)
                            } else {
                                Ok((RespFrame::Integer(d as i64), i + 2))
                            }
                        }
                    },
                }
            },
        }
    } else if p == PFX_NULL {
        if n < 3 {
            Err(RespError::NotComplete)
        } else if at(s, 1) == CR && at(s, 2) == LF {
            Ok((RespFrame::Null(RespNull), 3))
        } else {
            Err(RespError::InvalidFrame)
        }
    } else if p == PFX_BOOL {
        if n < 4 {
            Err(RespError::NotComplete)
        } else if (at(s, 1) == 116 || at(s, 1) == 102) && at(s, 2) == CR && at(s, 3) == LF {
            Ok((RespFrame::Boolean(at(s, 1) == 116), 4))
        } else {
            Err(RespError::InvalidFrame)
        }
    } else if p == PFX_BULK {
        match find_crlf_x(s, 1) {
            None => Err(RespError::NotComplete),
            Some(i) => {
                let ghost seg = s@.subrange(1, i as int);
                let isneg = i == 3 && at(s, 1) == 45 && at(s, 2) == 49;
                proof {
                    if isneg {
                        assert(seg =~= neg_one());
                    } else if seg == neg_one() {
                        assert(seg.len() == 2);
                        assert(s@[1] == seg[0] && s@[2] == seg[1]);
                    }
                }
                if isneg {
                    Ok((RespFrame::NullBulkString(RespNullBulkString), i + 2))
                } else if i > 1 && all_digits_x(s, 1, i) {
                    match digits_val_x(s, 1, i) {
                        None => {
                            proof {
                                assert(digits_val(seg) > u64::MAX >= s@.len());
                            }
                            Err(RespError::NotComplete)
                        },
                        Some(d) => {
                            let rem = n - (i + 2);
                            if d <= rem as u64 && rem as u64 - d >= 2 {
                                let start = i + 2;
                                let pl_end = start + (d as usize);
                                if at(s, pl_end) == CR && at(s, pl_end + 1) == LF {
                                    let payload = vstd::slice::slice_to_vec(
                                        slice_subrange(s, start, pl_end),
                                    );
                                    Ok((RespFrame::BulkString(BulkString(payload)), pl_end + 2))
                                } else {
                                    Err(RespError::InvalidFrame)
                                }
                            } else {
                                Err(RespError::NotComplete)
                            }
                        },
                    }
                } else {
                    Err(RespError::InvalidFrameLength)
                }
            },
        }
    } else if p == PFX_ARRAY || p == PFX_SET {
        match find_crlf_x(s, 1) {
            None => Err(RespError::NotComplete),
            Some(i) => {
                let ghost seg = s@.subrange(1, i as int);
                let isneg = i == 3 && at(s, 1) == 45 && at(s, 2) == 49;
                proof {
                    if isneg {
                        assert(seg =~= neg_one());
                    } else if seg == neg_one() {
                        assert(seg.len() == 2);
                        assert(s@[1] == seg[0] && s@[2] == seg[1]);
                    }
                }
                if p == PFX_ARRAY && isneg {
                    Ok((RespFrame::NullArray(RespNullArray), i + 2))
                } else if i > 1 && all_digits_x(s, 1, i) {
                    match digits_val_x(s, 1, i) {
                        None => {
                            proof {
                                assert(digits_val(seg) > u64::MAX >= s@.len());
                            }
                            Err(RespError::NotComplete)
                        },
                        Some(d) => {
                            let rem = n - (i + 2);
                            if 3 * (d as u128) > rem as u128 {
                                Err(RespError::NotComplete)
                            } else {
                                let sub = slice_subrange(s, i + 2, n);
                                proof {
                                    assert(sub@ =~= s@.skip(i + 2));
                                }
                                match parse_elems_x(sub, d as u128) {
                                    Ok((v, m)) => {
                                        proof {
                                            lemma_parse_elems_bounds(sub@, d as nat);
                                        }
                                        if p == PFX_ARRAY {
                                            Ok((RespFrame::Array(RespArray(v)), i + 2 + m))
                                        } else {
                                            Ok((RespFrame::SetFrame(RespSet(v)), i + 2 + m))
                                        }
                                    },
                                    Err(e) => Err(e),
                                }
                            }
                        },
                    }
                } else {
                    Err(RespError::InvalidFrameLength)
                }
            },
        }
    } else if p == PFX_MAP {
        match find_crlf_x(s, 1) {
            None => Err(RespError::NotComplete),
            Some(i) => {
                let ghost seg = s@.subrange(1, i as int);
                if i > 1 && all_digits_x(s, 1, i) {
                    match digits_val_x(s, 1, i) {
                        None => {
                            proof {
                                assert(digits_val(seg) > u64::MAX >= s@.len());
                            }
                            Err(RespError::NotComplete)
                        },
                        Some(d) => {
                            let rem = n - (i + 2);
                            if 6 * (d as u128) > rem as u128 {
                                Err(RespError::NotComplete)
                            } else {
                                let sub = slice_subrange(s, i + 2, n);
                                proof {
                                    assert(sub@ =~= s@.skip(i + 2));
                                }
                                match parse_pairs_x(sub, d as u128) {
                                    Ok((v, m)) => {
                                        proof {
                                            lemma_parse_pairs_bounds(
                                                sub@,
                                                d as nat,
                                                Seq::<(Seq<u8>, FrameV)>::empty(),
                                            );
                                        }
                                        Ok((RespFrame::MapFrame(RespMap(v)), i + 2 + m))
                                    },
                                    Err(e) => Err(e),
                                }
                            }
                        },
                    }
                } else {
                    Err(RespError::InvalidFrameLength)
                }
            },
        }
    } else {
        Err(RespError::InvalidFrameType)
    }
}

/// Parses `count` consecutive frames at the start of `s`, in order.
pub fn parse_elems_x(s: &[u8], count: u128) -> (r: Result<(Vec<RespFrame>, usize), RespError>)
    ensures
        elems_matches(r, parse_elems(s@, count as nat)),
    decreases s@.len(), count, 0int,
{
    let n = s.len();
    let mut acc: Vec<RespFrame> = Vec::new();
    let mut pos: usize = 0;
    let mut k: u128 = 0;
    proof {
        assert(s@.skip(0) =~= s@);
        match parse_elems(s@, count as nat) {
            Ok((es, m)) => {
                assert(frames_view(acc@) + es =~= es);
            },
            Err(_) => {},
        }
    }
    while k < count
        invariant
            pos <= n,
            k <= count,
            n == s@.len(),
            parse_elems(s@, count as nat) == (match parse_elems(
                s@.skip(pos as int),
                (count - k) as nat,
            ) {
                Ok((es, m)) => Ok::<(Seq<FrameV>, int), RespError>(
                    (frames_view(acc@) + es, pos + m),
                ),
                Err(e) => Err::<(Seq<FrameV>, int), RespError>(e),
            }),
        decreases count - k,
    {
        let sub = slice_subrange(s, pos, n);
        match parse_one_x(sub) {
            Err(e) => {
                return Err(e);
            },
            Ok((f, nn)) => {
                proof {
                    lemma_parse_one_bounds(sub@);
                    assert(s@.skip(pos as int).skip(nn as int) =~= s@.skip(pos + nn));
                    lemma_frames_view_push(acc@, f);
                    match parse_elems(s@.skip(pos + nn), (count - k - 1) as nat) {
                        Ok((es, m)) => {
                            assert(frames_view(acc@) + (seq![fview(f)] + es) =~= frames_view(
                                acc@,
                            ).push(fview(f)) + es);
                        },
                        Err(_) => {},
                    }
                }
                acc.push(f);
                pos += nn;
                k += 1;
            },
        }
    }
    proof {
        assert(frames_view(acc@) + Seq::<FrameV>::empty() =~= frames_view(acc@));
    }
    Ok((acc, pos))
}

/// Parses `count` key/value pairs at the start of `s`, folding them into a
/// key-ordered entry list.
pub fn parse_pairs_x(s: &[u8], count: u128) -> (r: Result<(Vec<MapEntry>, usize), RespError>)
    ensures
        pairs_matches(r, parse_pairs(s@, count as nat, Seq::<(Seq<u8>, FrameV)>::empty())),
    decreases s@.len(), count, 0int,
{
    let n = s.len();
    let mut acc: Vec<MapEntry> = Vec::new();
    let mut pos: usize = 0;
    let mut k: u128 = 0;
    proof {
        assert(s@.skip(0) =~= s@);
        assert(entries_view(acc@) =~= Seq::<(Seq<u8>, FrameV)>::empty());
    }
    while k < count
        invariant
            pos <= n,
            k <= count,
            n == s@.len(),
            parse_pairs(s@, count as nat, Seq::<(Seq<u8>, FrameV)>::empty()) == (match parse_pairs(
                s@.skip(pos as int),
                (count - k) as nat,
                entries_view(acc@),
            ) {
                Ok((es, m)) => Ok::<(Seq<(Seq<u8>, FrameV)>, int), RespError>((es, pos + m)),
                Err(e) => Err::<(Seq<(Seq<u8>, FrameV)>, int), RespError>(e),
            }),
        decreases count - k,
    {
        let sub = slice_subrange(s, pos, n);
        match parse_one_x(sub) {
            Err(e) => {
                return Err(e);
            },
            Ok((kf, kn)) => {
                proof {
                    lemma_parse_one_bounds(sub@);
                }
                let key: Vec<u8> = match kf {
                    RespFrame::SimpleString(ss) => ss.0,
                    RespFrame::BulkString(bs) => bs.0,
                    _ => {
                        proof {
                            assert(key_text(fview(kf)) is None);
                        }
                        return Err(RespError::InvalidFrame);
                    },
                };
                let sub2 = slice_subrange(s, pos + kn, n);
                proof {
                    assert(sub2@ =~= s@.skip(pos as int).skip(kn as int));
                }
                match parse_one_x(sub2) {
                    Err(e) => {
                        return Err(e);
                    },
                    Ok((vf, vn)) => {
                        proof {
                            lemma_parse_one_bounds(sub2@);
                            assert(s@.skip(pos as int).skip((kn + vn) as int) =~= s@.skip(
                                pos + kn + vn,
                            ));
                        }
                        let ghost acc0 = entries_view(acc@);
                        let ghost kk = key@;
                        let ghost vv = fview(vf);
                        acc = map_insert_vec(acc, key, vf);
                        proof {
                            assert(entries_view(acc@) == sorted_insert(acc0, kk, vv));
                        }
                        pos += kn + vn;
                        k += 1;
                    },
                }
            },
        }
    }
    Ok((acc, pos))
}

} // verus!
