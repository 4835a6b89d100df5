use vstd::prelude::*;

use crate::frame::CR;
use crate::frame::FrameV;
use crate::frame::LF;
use crate::frame::lex_lt;
use crate::encode::PFX_ARRAY;
use crate::encode::PFX_BOOL;
use crate::encode::PFX_BULK;
use crate::encode::PFX_DOUBLE;
use crate::encode::PFX_ERROR;
use crate::encode::PFX_INT;
use crate::encode::PFX_MAP;
use crate::encode::PFX_NULL;
use crate::encode::PFX_SET;
use crate::encode::PFX_SIMPLE;

verus! {

/// How an attempt on a buffer can end short of a frame. `NotComplete` is
/// recoverable: the bytes so far are a valid prefix and more must arrive.
/// The three invalid kinds mean the bytes can never form a frame.
#[derive(Clone, Copy, Debug, PartialEq, Eq, Structural)]
pub enum RespError {
    NotComplete,
    InvalidFrameType,
    InvalidFrameLength,
    InvalidFrame,
}

/// Position of the first CRLF pair at or after `from`, if one is present.
pub open spec fn find_crlf(s: Seq<u8>, from: int) -> Option<int>
    decreases s.len() - from,
{
    if from < 0 || from + 2 > s.len() {
        None::<int>
    } else if s[from] == CR && s[from + 1] == LF {
        Some(from)
    } else {
        find_crlf(s, from + 1)
    }
}

pub proof fn lemma_find_crlf(s: Seq<u8>, from: int)
    requires
        0 <= from,
    ensures
        match find_crlf(s, from) {
            Some(i) => from <= i && i + 2 <= s.len() && s[i] == CR && s[i + 1] == LF
                && forall|j: int| from <= j < i ==> !(#[trigger] s[j] == CR && s[j + 1] == LF),
            None => forall|j: int|
                from <= j && j + 2 <= s.len() ==> !(#[trigger] s[j] == CR && s[j + 1] == LF),
        },
    decreases s.len() - from,
{
    if from + 2 > s.len() {
    } else if s[from] == CR && s[from + 1] == LF {
    } else {
        lemma_find_crlf(s, from + 1);
    }
}

/// A CRLF-free region holds no match, so the search skips past it whole.
pub proof fn lemma_find_crlf_skip(s: Seq<u8>, from: int, i: int)
    requires
        0 <= from <= i,
        i + 2 <= s.len(),
        s[i] == CR && s[i + 1] == LF,
        forall|j: int| from <= j < i ==> !(#[trigger] s[j] == CR && s[j + 1] == LF),
    ensures
        find_crlf(s, from) == Some(i),
    decreases i - from,
{
    if from < i {
        lemma_find_crlf_skip(s, from + 1, i);
    }
}

pub open spec fn is_digit(b: u8) -> bool {
    48 <= b <= 57
}

pub open spec fn all_digits(s: Seq<u8>) -> bool {
    forall|i: int| 0 <= i < s.len() ==> is_digit(#[trigger] s[i])
}

/// The number a run of decimal digits denotes, most significant first.
pub open spec fn digits_val(s: Seq<u8>) -> nat
    decreases s.len(),
{
    if s.len() == 0 {
        0
    } else {
        digits_val(s.drop_last()) * 10 + (if s.last() >= 48 {
            (s.last() - 48) as nat
        } else {
            0
        })
    }
}

/// The two bytes of the literal `-1`, the only negative length on the wire.
pub open spec fn neg_one() -> Seq<u8> {
    seq![45u8, 49u8]
}

/// The value an integer line denotes: an optional sign, then digits.
pub open spec fn int_of_seg(seg: Seq<u8>) -> Option<int> {
    if seg.len() >= 2 && seg[0] == 43 && all_digits(seg.skip(1)) {
        Some(digits_val(seg.skip(1)) as int)
    } else if seg.len() >= 2 && seg[0] == 45 && all_digits(seg.skip(1)) {
        Some(-(digits_val(seg.skip(1)) as int))
    } else if seg.len() >= 1 && all_digits(seg) {
        Some(digits_val(seg) as int)
    } else {
        None::<int>
    }
}

/// The byte length of the complete frame at the start of `s`: the length
/// pass of the measure-then-parse codec. It walks the same layout the
/// parse pass walks, but only accumulates byte counts and never validates
/// payload contents.
pub open spec fn measure_one(s: Seq<u8>) -> Result<int, RespError>
    decreases s.len(), 0int, 1int,
{
    if s.len() == 0 {
        Err(RespError::NotComplete)
    } else {
        let p = s[0];
        if p == PFX_SIMPLE || p == PFX_ERROR || p == PFX_INT || p == PFX_DOUBLE {
            match find_crlf(s, 1) {
                None => Err(RespError::NotComplete),
                Some(i) => Ok(i + 2),
            }
        } else if p == PFX_NULL {
            if s.len() < 3 {
                Err(RespError::NotComplete)
            } else if s[1] == CR && s[2] == LF {
                Ok(3)
            } else {
                Err(RespError::InvalidFrame)
            }
        } else if p == PFX_BOOL {
            if s.len() < 4 {
                Err(RespError::NotComplete)
            } else if (s[1] == 116 || s[1] == 102) && s[2] == CR && s[3] == LF {
                Ok(4)
            } else {
                Err(RespError::InvalidFrame)
            }
        } else if p == PFX_BULK {
            match find_crlf(s, 1) {
                None => Err(RespError::NotComplete),
                Some(i) => {
                    let seg = s.subrange(1, i);
                    if seg == neg_one() {
                        Ok(i + 2)
                    } else if seg.len() > 0 && all_digits(seg) {
                        let n = digits_val(seg);
                        if s.len() >= i + 2 + n + 2 {
                            Ok(i + 2 + n + 2)
                        } else {
                            Err(RespError::NotComplete)
                        }
                    } else {
                        Err(RespError::InvalidFrameLength)
                    }
                },
            }
        } else if p == PFX_ARRAY || p == PFX_SET || p == PFX_MAP {
            match find_crlf(s, 1) {
                None => Err(RespError::NotComplete),
                Some(i) => {
                    let seg = s.subrange(1, i);
                    if p == PFX_ARRAY && seg == neg_one() {
                        Ok(i + 2)
                    } else if seg.len() > 0 && all_digits(seg) {
                        let n = digits_val(seg);
                        let count = if p == PFX_MAP {
                            2 * n
                        } else {
                            n
                        };
                        if 1 <= i && i + 2 <= s.len() {
                            if 3 * count > s.len() - (i + 2) {
                                Err(RespError::NotComplete)
                            } else {
                                match measure_elems(s.skip(i + 2), count) {
                                    Ok(m) => Ok(i + 2 + m),
                                    Err(e) => Err(e),
                                }
                            }
                        } else {
                            Err(RespError::InvalidFrame)
                        }
                    } else {
                        Err(RespError::InvalidFrameLength)
                    }
                },
            }
        } else {
            Err(RespError::InvalidFrameType)
        }
    }
}

/// Total byte length of `count` consecutive frames at the start of `s`.
pub open spec fn measure_elems(s: Seq<u8>, count: nat) -> Result<int, RespError>
    decreases s.len(), count, 0int,
{
    if count == 0 {
        Ok(0)
    } else {
        match measure_one(s) {
            Err(e) => Err(e),
            Ok(n) => if 3 <= n <= s.len() {
                match measure_elems(s.skip(n), (count - 1) as nat) {
                    Ok(m) => Ok(n + m),
                    Err(e) => Err(e),
                }
            } else {
                Err(RespError::InvalidFrame)
            },
        }
    }
}

/// Keys must arrive as a text-bearing frame; the key text is its payload.
pub open spec fn key_text(v: FrameV) -> Option<Seq<u8>> {
    match v {
        FrameV::SimpleString(s) => Some(s),
        FrameV::BulkString(s) => Some(s),
        _ => None::<Seq<u8>>,
    }
}

/// Inserts a pair into a key-ordered entry sequence, replacing the value
/// when the key is already present.
pub open spec fn sorted_insert(s: Seq<(Seq<u8>, FrameV)>, k: Seq<u8>, v: FrameV) -> Seq<
    (Seq<u8>, FrameV),
>
    decreases s.len(),
{
    if s.len() == 0 {
        seq![(k, v)]
    } else if lex_lt(s[0].0, k) {
        seq![s[0]] + sorted_insert(s.subrange(1, s.len() as int), k, v)
    } else if s[0].0 == k {
        seq![(k, v)] + s.subrange(1, s.len() as int)
    } else {
        seq![(k, v)] + s
    }
}

/// The value and byte length of the complete frame at the start of `s`:
/// the decode walk. Where `measure_one` only counts, this walk also
/// validates payloads and builds the frame value.
pub open spec fn parse_one(s: Seq<u8>) -> Result<(FrameV, int), RespError>
    decreases s.len(), 0int, 1int,
{
    if s.len() == 0 {
        Err(RespError::NotComplete)
    } else {
        let p = s[0];
        if p == PFX_SIMPLE || p == PFX_ERROR || p == PFX_DOUBLE {
            match find_crlf(s, 1) {
                None => Err(RespError::NotComplete),
                Some(i) => {
                    let seg = s.subrange(1, i);
                    if p == PFX_SIMPLE {
                        Ok((FrameV::SimpleString(seg), i + 2))
                    } else if p == PFX_ERROR {
                        Ok((FrameV::Error(seg), i + 2))
                    } else {
                        Ok((FrameV::Double(seg), i + 2))
                    }
                },
            }
        } else if p == PFX_INT {
            match find_crlf(s, 1) {
                None => Err(RespError::NotComplete),
                Some(i) => {
                    let seg = s.subrange(1, i);
                    match int_of_seg(seg) {
                        None => Err(RespError::InvalidFrame),
                        Some(v) => if i64::MIN <= v <= i64::MAX {
                            Ok((FrameV::Integer(v), i + 2))
                        } else {
                            Err(RespError::InvalidFrame)
                        },
                    }
                },
            }
        } else if p == PFX_NULL {
            if s.len() < 3 {
                Err(RespError::NotComplete)
            } else if s[1] == CR && s[2] == LF {
                Ok((FrameV::Null, 3))
            } else {
                Err(RespError::InvalidFrame)
            }
        } else if p == PFX_BOOL {
            if s.len() < 4 {
                Err(RespError::NotComplete)
            } else if (s[1] == 116 || s[1] == 102) && s[2] == CR && s[3] == LF {
                Ok((FrameV::Boolean(s[1] == 116), 4))
            } else {
                Err(RespError::InvalidFrame)
            }
        } else if p == PFX_BULK {
            match find_crlf(s, 1) {
                None => Err(RespError::NotComplete),
                Some(i) => {
                    let seg = s.subrange(1, i);
                    if seg == neg_one() {
                        Ok((FrameV::NullBulkString, i + 2))
                    } else if seg.len() > 0 && all_digits(seg) {
                        let n = digits_val(seg);
                        if s.len() >= i + 2 + n + 2 {
                            if s[i + 2 + n] == CR && s[i + 2 + n + 1] == LF {
                                Ok((FrameV::BulkString(s.subrange(i + 2, i + 2 + n)), i + 2 + n + 2))
                            } else {
                                Err(RespError::InvalidFrame)
                            }
                        } else {
                            Err(RespError::NotComplete)
                        }
                    } else {
                        Err(RespError::InvalidFrameLength)
                    }
                },
            }
        } else if p == PFX_ARRAY || p == PFX_SET {
            match find_crlf(s, 1) {
                None => Err(RespError::NotComplete),
                Some(i) => {
                    let seg = s.subrange(1, i);
                    if p == PFX_ARRAY && seg == neg_one() {
                        Ok((FrameV::NullArray, i + 2))
                    } else if seg.len() > 0 && all_digits(seg) {
                        let n = digits_val(seg);
                        if 1 <= i && i + 2 <= s.len() {
                            if 3 * n > s.len() - (i + 2) {
                                Err(RespError::NotComplete)
                            } else {
                                match parse_elems(s.skip(i + 2), n) {
                                    Ok((es, m)) => if p == PFX_ARRAY {
                                        Ok((FrameV::Array(es), i + 2 + m))
                                    } else {
                                        Ok((FrameV::SetFrame(es), i + 2 + m))
                                    },
                                    Err(e) => Err(e),
                                }
                            }
                        } else {
                            Err(RespError::InvalidFrame)
                        }
                    } else {
                        Err(RespError::InvalidFrameLength)
                    }
                },
            }
        } else if p == PFX_MAP {
            match find_crlf(s, 1) {
                None => Err(RespError::NotComplete),
                Some(i) => {
                    let seg = s.subrange(1, i);
                    if seg.len() > 0 && all_digits(seg) {
                        let n = digits_val(seg);
                        if 1 <= i && i + 2 <= s.len() {
                            if 6 * n > s.len() - (i + 2) {
                                Err(RespError::NotComplete)
                            } else {
                                match parse_pairs(
                                    s.skip(i + 2),
                                    n,
                                    Seq::<(Seq<u8>, FrameV)>::empty(),
                                ) {
                                    Ok((es, m)) => Ok((FrameV::MapFrame(es), i + 2 + m)),
                                    Err(e) => Err(e),
                                }
                            }
                        } else {
                            Err(RespError::InvalidFrame)
                        }
                    } else {
                        Err(RespError::InvalidFrameLength)
                    }
                },
            }
        } else {
            Err(RespError::InvalidFrameType)
        }
    }
}

/// `count` consecutive frames at the start of `s`, in order, with their
/// total byte length.
pub open spec fn parse_elems(s: Seq<u8>, count: nat) -> Result<(Seq<FrameV>, int), RespError>
    decreases s.len(), count, 0int,
{
    if count == 0 {
        Ok((Seq::<FrameV>::empty(), 0))
    } else {
        match parse_one(s) {
            Err(e) => Err(e),
            Ok((f, n)) => if 3 <= n <= s.len() {
                match parse_elems(s.skip(n), (count - 1) as nat) {
                    Ok((es, m)) => Ok((seq![f] + es, n + m)),
                    Err(e) => Err(e),
                }
            } else {
                Err(RespError::InvalidFrame)
            },
        }
    }
}

/// `count` key/value pairs at the start of `s`, folded into `acc` in key
/// order; a non-textual key is a decode error.
pub open spec fn parse_pairs(
    s: Seq<u8>,
    count: nat,
    acc: Seq<(Seq<u8>, FrameV)>,
) -> Result<(Seq<(Seq<u8>, FrameV)>, int), RespError>
    decreases s.len(), count, 0int,
{
    if count == 0 {
        Ok((acc, 0))
    } else {
        match parse_one(s) {
            Err(e) => Err(e),
            Ok((kf, kn)) => if 3 <= kn <= s.len() {
                match key_text(kf) {
                    None => Err(RespError::InvalidFrame),
                    Some(k) => match parse_one(s.skip(kn)) {
                        Err(e) => Err(e),
                        Ok((vf, vn)) => if 3 <= vn <= s.len() - kn {
                            match parse_pairs(
                                s.skip(kn + vn),
                                (count - 1) as nat,
                                sorted_insert(acc, k, vf),
                            ) {
                                Ok((es, m)) => Ok((es, kn + vn + m)),
                                Err(e) => Err(e),
                            }
                        } else {
                            Err(RespError::InvalidFrame)
                        },
                    },
                }
            } else {
                Err(RespError::InvalidFrame)
            },
        }
    }
}

pub proof fn lemma_find_crlf_none(s: Seq<u8>, from: int)
    requires
        0 <= from,
        forall|j: int| from <= j && j + 2 <= s.len() ==> !(#[trigger] s[j] == CR && s[j + 1] == LF),
    ensures
        find_crlf(s, from) is None,
    decreases s.len() - from,
{
    if from + 2 <= s.len() {
        lemma_find_crlf_none(s, from + 1);
    }
}

pub proof fn lemma_digits_val_snoc(s: Seq<u8>, j: int)
    requires
        0 <= j < s.len(),
    ensures
        digits_val(s.take(j + 1)) == digits_val(s.take(j)) * 10 + (if s[j] >= 48 {
            (s[j] - 48) as nat
        } else {
            0
        }),
{
    assert(s.take(j + 1).drop_last() =~= s.take(j));
    assert(s.take(j + 1).last() == s[j]);
}

pub proof fn lemma_digits_val_take_le(s: Seq<u8>, j: int)
    requires
        0 <= j <= s.len(),
    ensures
        digits_val(s.take(j)) <= digits_val(s),
    decreases s.len(),
{
    if j == s.len() {
        assert(s.take(j) =~= s);
    } else if s.len() > 0 {
        lemma_digits_val_take_le(s.drop_last(), j);
        assert(s.drop_last().take(j) =~= s.take(j));
    }
}

pub proof fn lemma_measure_one_bounds(s: Seq<u8>)
    ensures
        match measure_one(s) {
            Ok(n) => 3 <= n && n <= s.len(),
            Err(_) => true,
        },
    decreases s.len(), 0int, 1int,
{
    if s.len() > 0 {
        lemma_find_crlf(s, 1);
        let p = s[0];
        if p == PFX_ARRAY || p == PFX_SET || p == PFX_MAP {
            match find_crlf(s, 1) {
                Some(i) => {
                    let seg = s.subrange(1, i);
                    if !(p == PFX_ARRAY && seg == neg_one()) && seg.len() > 0 && all_digits(seg)
                        && 1 <= i && i + 2 <= s.len() {
                        let n = digits_val(seg);
                        let count = if p == PFX_MAP {
                            2 * n
                        } else {
                            n
                        };
                        lemma_measure_elems_bounds(s.skip(i + 2), count);
                    }
                },
                None => {},
            }
        }
    }
}

pub proof fn lemma_measure_elems_bounds(s: Seq<u8>, count: nat)
    ensures
        match measure_elems(s, count) {
            Ok(m) => 0 <= m && m <= s.len(),
            Err(_) => true,
        },
    decreases s.len(), count, 0int,
{
    if count > 0 {
        lemma_measure_one_bounds(s);
        match measure_one(s) {
            Ok(n) => {
                if 3 <= n <= s.len() {
                    lemma_measure_elems_bounds(s.skip(n), (count - 1) as nat);
                }
            },
            Err(_) => {},
        }
    }
}

pub proof fn lemma_parse_one_bounds(s: Seq<u8>)
    ensures
        match parse_one(s) {
            Ok((_, n)) => 3 <= n && n <= s.len(),
            Err(_) => true,
        },
    decreases s.len(), 0int, 1int,
{
    if s.len() > 0 {
        lemma_find_crlf(s, 1);
        let p = s[0];
        if p == PFX_ARRAY || p == PFX_SET {
            match find_crlf(s, 1) {
                Some(i) => {
                    let seg = s.subrange(1, i);
                    if !(p == PFX_ARRAY && seg == neg_one()) && seg.len() > 0 && all_digits(seg)
                        && 1 <= i && i + 2 <= s.len() {
                        lemma_parse_elems_bounds(s.skip(i + 2), digits_val(seg));
                    }
                },
                None => {},
            }
        } else if p == PFX_MAP {
            match find_crlf(s, 1) {
                Some(i) => {
                    let seg = s.subrange(1, i);
                    if seg.len() > 0 && all_digits(seg) && 1 <= i && i + 2 <= s.len() {
                        lemma_parse_pairs_bounds(
                            s.skip(i + 2),
                            digits_val(seg),
                            Seq::<(Seq<u8>, FrameV)>::empty(),
                        );
                    }
                },
                None => {},
            }
        }
    }
}

pub proof fn lemma_parse_elems_bounds(s: Seq<u8>, count: nat)
    ensures
        match parse_elems(s, count) {
            Ok((_, m)) => 0 <= m && m <= s.len(),
            Err(_) => true,
        },
    decreases s.len(), count, 0int,
{
    if count > 0 {
        lemma_parse_one_bounds(s);
        match parse_one(s) {
            Ok((_, n)) => {
                if 3 <= n <= s.len() {
                    lemma_parse_elems_bounds(s.skip(n), (count - 1) as nat);
                }
            },
            Err(_) => {},
        }
    }
}

pub proof fn lemma_parse_pairs_bounds(s: Seq<u8>, count: nat, acc: Seq<(Seq<u8>, FrameV)>)
    ensures
        match parse_pairs(s, count, acc) {
            Ok((_, m)) => 0 <= m && m <= s.len(),
            Err(_) => true,
        },
    decreases s.len(), count, 0int,
{
    if count > 0 {
        lemma_parse_one_bounds(s);
        match parse_one(s) {
            Ok((kf, kn)) => {
                if 3 <= kn <= s.len() {
                    match key_text(kf) {
                        Some(k) => {
                            lemma_parse_one_bounds(s.skip(kn));
                            match parse_one(s.skip(kn)) {
                                Ok((vf, vn)) => {
                                    if 3 <= vn <= s.len() - kn {
                                        assert(s.skip(kn).skip(vn) =~= s.skip(kn + vn));
                                        lemma_parse_pairs_bounds(
                                            s.skip(kn + vn),
                                            (count - 1) as nat,
                                            sorted_insert(acc, k, vf),
                                        );
                                    }
                                },
                                Err(_) => {},
                            }
                        },
                        None => {},
                    }
                }
            },
            Err(_) => {},
        }
    }
}

} // verus!
