use vstd::prelude::*;

use crate::frame::CR;
use crate::frame::FrameV;
use crate::frame::LF;
use crate::frame::lex_lt;
use crate::frame::no_crlf;
use crate::frame::entries_sorted;
use crate::frame::wf;
use crate::encode::PFX_ARRAY;
use crate::encode::PFX_BOOL;
use crate::encode::PFX_BULK;
use crate::encode::PFX_DOUBLE;
use crate::encode::PFX_ERROR;
use crate::encode::PFX_INT;
use crate::encode::PFX_MAP;
use crate::encode::PFX_NULL;
use crate::encode::PFX_SET;
use crate::encode::PFX_SIMPLE;
use crate::encode::crlf_s;
use crate::encode::digits_spec;
use crate::encode::enc;
use crate::encode::enc_entries;
use crate::encode::enc_seq;
use crate::encode::int_mag;
use crate::encode::sign_seq;
use crate::order::lemma_lex_lt_trans;
use crate::wire::RespError;
use crate::wire::all_digits;
use crate::wire::digits_val;
use crate::wire::find_crlf;
use crate::wire::int_of_seg;
use crate::wire::key_text;
use crate::wire::lemma_find_crlf_skip;
use crate::wire::measure_one;
use crate::wire::neg_one;
use crate::wire::parse_elems;
use crate::wire::parse_one;
use crate::wire::parse_pairs;
use crate::wire::sorted_insert;

verus! {

pub proof fn lemma_digits_spec_wf(n: nat)
    ensures
        digits_spec(n).len() >= 1,
        all_digits(digits_spec(n)),
    decreases n,
{
    if n < 10 {
        assert(digits_spec(n) =~= seq![(48 + n) as u8]);
    } else {
        lemma_digits_spec_wf(n / 10);
        let base = digits_spec(n / 10);
        let whole = digits_spec(n);
        assert(whole =~= base.push((48 + n % 10) as u8));
        assert forall|i: int| 0 <= i < whole.len() implies crate::wire::is_digit(
            #[trigger] whole[i],
        ) by {
            if i < base.len() {
                assert(whole[i] == base[i]);
            }
        }
    }
}

pub proof fn lemma_digits_roundtrip(n: nat)
    ensures
        digits_val(digits_spec(n)) == n,
    decreases n,
{
    if n < 10 {
        let s = digits_spec(n);
        assert(s =~= seq![(48 + n) as u8]);
        assert(s.drop_last() =~= Seq::<u8>::empty());
        assert(s.last() == (48 + n) as u8);
        assert((((48 + n) as u8) - 48) as nat == n);
        assert(digits_val(s.drop_last()) == 0);
    } else {
        lemma_digits_roundtrip(n / 10);
        let s = digits_spec(n);
        assert(s.drop_last() =~= digits_spec(n / 10));
        assert(s.last() == (48 + n % 10) as u8);
    }
}

/// Every encoding is at least three bytes long.
pub proof fn lemma_enc_min(v: FrameV)
    ensures
        enc(v).len() >= 3,
{
    match v {
        FrameV::Integer(i) => {
            lemma_digits_spec_wf(int_mag(i));
        },
        FrameV::BulkString(b) => {
            lemma_digits_spec_wf(b.len());
        },
        FrameV::Array(es) => {
            lemma_digits_spec_wf(es.len());
        },
        FrameV::MapFrame(es) => {
            lemma_digits_spec_wf(es.len());
        },
        FrameV::SetFrame(es) => {
            lemma_digits_spec_wf(es.len());
        },
        _ => {},
    }
}

pub proof fn lemma_enc_seq_lower(es: Seq<FrameV>)
    ensures
        enc_seq(es).len() >= 3 * es.len(),
    decreases es,
{
    if es.len() > 0 {
        lemma_enc_min(es[0]);
        lemma_enc_seq_lower(es.subrange(1, es.len() as int));
    }
}

pub proof fn lemma_enc_entries_lower(es: Seq<(Seq<u8>, FrameV)>)
    ensures
        enc_entries(es).len() >= 6 * es.len(),
    decreases es,
{
    if es.len() > 0 {
        lemma_enc_min(es[0].1);
        lemma_enc_entries_lower(es.subrange(1, es.len() as int));
    }
}

/// In a key-ordered entry list every earlier key is below every later key.
pub proof fn lemma_sorted_chain(es: Seq<(Seq<u8>, FrameV)>, i: int, j: int)
    requires
        entries_sorted(es),
        0 <= i < j < es.len(),
    ensures
        lex_lt(es[i].0, es[j].0),
    decreases j - i,
{
    if j == i + 1 {
    } else {
        lemma_sorted_chain(es, i, j - 1);
        lemma_lex_lt_trans(es[i].0, es[j - 1].0, es[j].0);
    }
}

/// Inserting a key above every present key appends.
pub proof fn lemma_sorted_insert_append(s: Seq<(Seq<u8>, FrameV)>, k: Seq<u8>, v: FrameV)
    requires
        forall|i: int| 0 <= i < s.len() ==> lex_lt(#[trigger] s[i].0, k),
    ensures
        sorted_insert(s, k, v) == s.push((k, v)),
    decreases s.len(),
{
    if s.len() == 0 {
        assert(sorted_insert(s, k, v) =~= s.push((k, v)));
    } else {
        let rest = s.subrange(1, s.len() as int);
        lemma_sorted_insert_append(rest, k, v);
        assert(sorted_insert(s, k, v) =~= s.push((k, v)));
    }
}

/// Where the line body holds no CRLF pair, the first CRLF of the whole
/// line stands right after the body.
pub proof fn lemma_find_line(pfx: u8, body: Seq<u8>, tail: Seq<u8>)
    requires
        no_crlf(body),
    ensures
        find_crlf(seq![pfx] + body + crlf_s() + tail, 1) == Some(1 + body.len() as int),
{
    let s = seq![pfx] + body + crlf_s() + tail;
    let e: int = 1 + body.len() as int;
    assert(s[e] == CR && s[e + 1] == LF);
    assert forall|j: int| 1 <= j < e implies !(#[trigger] s[j] == CR && s[j + 1] == LF) by {
        if j + 1 < e {
            assert(s[j] == body[j - 1] && s[j + 1] == body[j]);
        } else {
            assert(s[j + 1] == CR);
        }
    }
    lemma_find_crlf_skip(s, 1, e);
}

/// Digits and an optional sign hold no CR or LF byte.
pub proof fn lemma_no_crlf_digitsign(body: Seq<u8>)
    requires
        forall|i: int| 0 <= i < body.len() ==> #[trigger] body[i] >= 43,
    ensures
        no_crlf(body),
{
}

/// Round trip, frame by frame: a well-formed value, encoded and placed in
/// front of any trailing bytes, parses back to exactly itself, consuming
/// exactly its encoding.
#[verifier::rlimit(100)]
pub proof fn lemma_parse_encode(v: FrameV, rest: Seq<u8>)
    requires
        wf(v),
    ensures
        parse_one(enc(v) + rest) == Ok::<(FrameV, int), RespError>((v, enc(v).len() as int)),
    decreases v, 0int,
{
    let s = enc(v) + rest;
    match v {
        FrameV::SimpleString(t) => {
            assert(s =~= seq![PFX_SIMPLE] + t + crlf_s() + rest);
            lemma_find_line(PFX_SIMPLE, t, rest);
            assert(s.subrange(1, 1 + t.len() as int) =~= t);
        },
        FrameV::Error(t) => {
            assert(s =~= seq![PFX_ERROR] + t + crlf_s() + rest);
            lemma_find_line(PFX_ERROR, t, rest);
            assert(s.subrange(1, 1 + t.len() as int) =~= t);
        },
        FrameV::Double(t) => {
            assert(s =~= seq![PFX_DOUBLE] + t + crlf_s() + rest);
            lemma_find_line(PFX_DOUBLE, t, rest);
            assert(s.subrange(1, 1 + t.len() as int) =~= t);
        },
        FrameV::Integer(i) => {
            let body = sign_seq(i) + digits_spec(int_mag(i));
            lemma_digits_spec_wf(int_mag(i));
            lemma_digits_roundtrip(int_mag(i));
            assert(s =~= seq![PFX_INT] + body + crlf_s() + rest);
            assert forall|t: int| 0 <= t < body.len() implies #[trigger] body[t] >= 43 by {
                if t >= 1 {
                    assert(body[t] == digits_spec(int_mag(i))[t - 1]);
                    assert(crate::wire::is_digit(digits_spec(int_mag(i))[t - 1]));
                }
            }
            lemma_no_crlf_digitsign(body);
            lemma_find_line(PFX_INT, body, rest);
            let e: int = 1 + body.len() as int;
            let seg = s.subrange(1, e);
            assert(seg =~= body);
            assert(seg.skip(1) =~= digits_spec(int_mag(i)));
            if i >= 0 {
                assert(seg[0] == 43);
                assert(int_of_seg(seg) == Some(i));
            } else {
                assert(seg[0] == 45);
                assert(int_of_seg(seg) == Some(i));
            }
        },
        FrameV::Null => {
            assert(s[0] == PFX_NULL && s[1] == CR && s[2] == LF);
        },
        FrameV::Boolean(b) => {
            assert(s[0] == PFX_BOOL && s[2] == CR && s[3] == LF);
            if b {
                assert(s[1] == 116u8);
            } else {
                assert(s[1] == 102u8);
            }
        },
        FrameV::NullBulkString => {
            assert(s =~= seq![PFX_BULK] + neg_one() + crlf_s() + rest);
            lemma_no_crlf_digitsign(neg_one());
            lemma_find_line(PFX_BULK, neg_one(), rest);
            assert(s.subrange(1, 3) =~= neg_one());
        },
        FrameV::NullArray => {
            assert(s =~= seq![PFX_ARRAY] + neg_one() + crlf_s() + rest);
            lemma_no_crlf_digitsign(neg_one());
            lemma_find_line(PFX_ARRAY, neg_one(), rest);
            assert(s.subrange(1, 3) =~= neg_one());
        },
        FrameV::BulkString(b) => {
            let digits = digits_spec(b.len());
            lemma_digits_spec_wf(b.len());
            lemma_digits_roundtrip(b.len());
            assert(s =~= seq![PFX_BULK] + digits + crlf_s() + (b + crlf_s() + rest));
            assert forall|t: int| 0 <= t < digits.len() implies #[trigger] digits[t] >= 43 by {
                assert(crate::wire::is_digit(digits[t]));
            }
            lemma_no_crlf_digitsign(digits);
            lemma_find_line(PFX_BULK, digits, b + crlf_s() + rest);
            let e: int = 1 + digits.len() as int;
            let seg = s.subrange(1, e);
            assert(seg =~= digits);
            assert(seg != neg_one()) by {
                if seg == neg_one() {
                    assert(crate::wire::is_digit(seg[0]));
                }
            }
            let n = b.len() as int;
            assert(s.len() >= e + 2 + n + 2);
            assert(s[e + 2 + n] == CR && s[e + 2 + n + 1] == LF);
            assert(s.subrange(e + 2, e + 2 + n) =~= b);
            assert(enc(v).len() == e + 2 + n + 2);
        },
        FrameV::Array(es) => {
            let digits = digits_spec(es.len());
            lemma_digits_spec_wf(es.len());
            lemma_digits_roundtrip(es.len());
            let tail = enc_seq(es) + rest;
            assert(s =~= seq![PFX_ARRAY] + digits + crlf_s() + tail);
            assert forall|t: int| 0 <= t < digits.len() implies #[trigger] digits[t] >= 43 by {
                assert(crate::wire::is_digit(digits[t]));
            }
            lemma_no_crlf_digitsign(digits);
            lemma_find_line(PFX_ARRAY, digits, tail);
            let e: int = 1 + digits.len() as int;
            let seg = s.subrange(1, e);
            assert(seg =~= digits);
            assert(seg != neg_one()) by {
                if seg == neg_one() {
                    assert(crate::wire::is_digit(seg[0]));
                }
            }
            lemma_enc_seq_lower(es);
            assert(s.skip(e + 2) =~= tail);
            lemma_parse_elems_encode(es, rest);
            assert(enc(v).len() == e + 2 + enc_seq(es).len());
        },
        FrameV::SetFrame(es) => {
            let digits = digits_spec(es.len());
            lemma_digits_spec_wf(es.len());
            lemma_digits_roundtrip(es.len());
            let tail = enc_seq(es) + rest;
            assert(s =~= seq![PFX_SET] + digits + crlf_s() + tail);
            assert forall|t: int| 0 <= t < digits.len() implies #[trigger] digits[t] >= 43 by {
                assert(crate::wire::is_digit(digits[t]));
            }
            lemma_no_crlf_digitsign(digits);
            lemma_find_line(PFX_SET, digits, tail);
            let e: int = 1 + digits.len() as int;
            let seg = s.subrange(1, e);
            assert(seg =~= digits);
            lemma_enc_seq_lower(es);
            assert(s.skip(e + 2) =~= tail);
            lemma_parse_elems_encode(es, rest);
            assert(enc(v).len() == e + 2 + enc_seq(es).len());
        },
        FrameV::MapFrame(es) => {
            let digits = digits_spec(es.len());
            lemma_digits_spec_wf(es.len());
            lemma_digits_roundtrip(es.len());
            let tail = enc_entries(es) + rest;
            assert(s =~= seq![PFX_MAP] + digits + crlf_s() + tail);
            assert forall|t: int| 0 <= t < digits.len() implies #[trigger] digits[t] >= 43 by {
                assert(crate::wire::is_digit(digits[t]));
            }
            lemma_no_crlf_digitsign(digits);
            lemma_find_line(PFX_MAP, digits, tail);
            let e: int = 1 + digits.len() as int;
            let seg = s.subrange(1, e);
            assert(seg =~= digits);
            lemma_enc_entries_lower(es);
            assert(s.skip(e + 2) =~= tail);
            lemma_parse_pairs_encode(es, rest, Seq::<(Seq<u8>, FrameV)>::empty());
            assert(Seq::<(Seq<u8>, FrameV)>::empty() + es =~= es);
            assert(enc(v).len() == e + 2 + enc_entries(es).len());
        },
    }
}

/// Round trip for a run of frames.
pub proof fn lemma_parse_elems_encode(es: Seq<FrameV>, rest: Seq<u8>)
    requires
        forall|i: int| 0 <= i < es.len() ==> wf(#[trigger] es[i]),
    ensures
        parse_elems(enc_seq(es) + rest, es.len()) == Ok::<(Seq<FrameV>, int), RespError>(
            (es, enc_seq(es).len() as int),
        ),
    decreases es, 0int,
{
    let s = enc_seq(es) + rest;
    if es.len() == 0 {
        assert(es =~= Seq::<FrameV>::empty());
    } else {
        let head = es[0];
        let tail_es = es.subrange(1, es.len() as int);
        assert(s =~= enc(head) + (enc_seq(tail_es) + rest));
        lemma_parse_encode(head, enc_seq(tail_es) + rest);
        lemma_enc_min(head);
        let n0 = enc(head).len() as int;
        assert(s.skip(n0) =~= enc_seq(tail_es) + rest);
        lemma_parse_elems_encode(tail_es, rest);
        assert(seq![head] + tail_es =~= es);
    }
}

/// Round trip for a run of key/value pairs: parsing the encoding of a
/// key-ordered entry list folds it, pair by pair, onto the accumulator.
pub proof fn lemma_parse_pairs_encode(
    es: Seq<(Seq<u8>, FrameV)>,
    rest: Seq<u8>,
    acc: Seq<(Seq<u8>, FrameV)>,
)
    requires
        entries_sorted(es),
        forall|i: int| 0 <= i < es.len() ==> no_crlf(#[trigger] es[i].0) && wf(es[i].1),
        forall|j: int, i: int|
            0 <= j < acc.len() && 0 <= i < es.len() ==> lex_lt(
                #[trigger] acc[j].0,
                #[trigger] es[i].0,
            ),
    ensures
        parse_pairs(enc_entries(es) + rest, es.len(), acc) == Ok::<
            (Seq<(Seq<u8>, FrameV)>, int),
            RespError,
        >((acc + es, enc_entries(es).len() as int)),
    decreases es, 0int,
{
    let s = enc_entries(es) + rest;
    if es.len() == 0 {
        assert(acc + es =~= acc);
    } else {
        let k = es[0].0;
        let v0 = es[0].1;
        let tail_es = es.subrange(1, es.len() as int);
        let kframe = FrameV::SimpleString(k);
        assert(enc(kframe) == seq![PFX_SIMPLE] + k + crlf_s());
        let tail2 = enc(v0) + (enc_entries(tail_es) + rest);
        assert(s =~= enc(kframe) + tail2);
        // the key line parses as a simple string; shown here directly
        assert(s =~= seq![PFX_SIMPLE] + k + crlf_s() + tail2);
        lemma_find_line(PFX_SIMPLE, k, tail2);
        let kn = enc(kframe).len() as int;
        assert(kn == 1 + k.len() + 2);
        assert(s.subrange(1, 1 + k.len() as int) =~= k);
        assert(parse_one(s) == Ok::<(FrameV, int), RespError>((kframe, kn)));
        assert(key_text(kframe) == Some(k));
        assert(s.skip(kn) =~= enc(v0) + (enc_entries(tail_es) + rest));
        lemma_parse_encode(v0, enc_entries(tail_es) + rest);
        lemma_enc_min(v0);
        let vn = enc(v0).len() as int;
        assert(s.skip(kn).skip(vn) =~= enc_entries(tail_es) + rest);
        assert(s.skip(kn + vn) =~= enc_entries(tail_es) + rest);
        lemma_sorted_insert_append(acc, k, v0);
        assert((k, v0) == es[0]);
        assert(acc.push(es[0]) =~= acc + seq![es[0]]);
        assert forall|j: int, i: int|
            0 <= j < acc.push(es[0]).len() && 0 <= i < tail_es.len() implies lex_lt(
            #[trigger] acc.push(es[0])[j].0,
            #[trigger] tail_es[i].0,
        ) by {
            if j < acc.len() {
                assert(acc.push(es[0])[j] == acc[j]);
                assert(tail_es[i] == es[i + 1]);
            } else {
                assert(acc.push(es[0])[j] == es[0]);
                assert(tail_es[i] == es[i + 1]);
                lemma_sorted_chain(es, 0, i + 1);
            }
        }
        assert(entries_sorted(tail_es)) by {
            assert forall|i: int| 0 <= i && i + 1 < tail_es.len() implies lex_lt(
                #[trigger] tail_es[i].0,
                tail_es[i + 1].0,
            ) by {
                assert(tail_es[i] == es[i + 1] && tail_es[i + 1] == es[i + 2]);
            }
        }
        lemma_parse_pairs_encode(tail_es, rest, acc.push(es[0]));
        assert((acc + seq![es[0]]) + tail_es =~= acc + es);
        assert(enc_entries(es).len() == kn + vn + enc_entries(tail_es).len());
    }
}

/// A successful parse and the measure walk agree on the byte length.
pub proof fn lemma_parse_measure(s: Seq<u8>)
    ensures
        match parse_one(s) {
            Ok((_, n)) => measure_one(s) == Ok::<int, RespError>(n),
            Err(_) => true,
        },
    decreases s.len(), 0int, 1int,
{
    if s.len() > 0 {
        let p = s[0];
        if p == PFX_ARRAY || p == PFX_SET {
            match find_crlf(s, 1) {
                Some(i) => {
                    let seg = s.subrange(1, i);
                    if !(p == PFX_ARRAY && seg == neg_one()) && seg.len() > 0 && all_digits(seg)
                        && 1 <= i && i + 2 <= s.len() {
                        let n = digits_val(seg);
                        if 3 * n <= s.len() - (i + 2) {
                            lemma_parse_elems_measure(s.skip(i + 2), n);
                        }
                    }
                },
                None => {},
            }
        } else if p == PFX_MAP {
            match find_crlf(s, 1) {
                Some(i) => {
                    let seg = s.subrange(1, i);
                    if seg.len() > 0 && all_digits(seg) && 1 <= i && i + 2 <= s.len() {
                        let n = digits_val(seg);
                        if 6 * n <= s.len() - (i + 2) {
                            lemma_parse_pairs_measure(
                                s.skip(i + 2),
                                n,
                                Seq::<(Seq<u8>, FrameV)>::empty(),
                            );
                        }
                    }
                },
                None => {},
            }
        }
    }
}

pub proof fn lemma_parse_elems_measure(s: Seq<u8>, count: nat)
    ensures
        match parse_elems(s, count) {
            Ok((_, m)) => crate::wire::measure_elems(s, count) == Ok::<int, RespError>(m),
            Err(_) => true,
        },
    decreases s.len(), count, 0int,
{
    if count > 0 {
        lemma_parse_measure(s);
        crate::wire::lemma_parse_one_bounds(s);
        match parse_one(s) {
            Ok((_, n)) => {
                if 3 <= n <= s.len() {
                    lemma_parse_elems_measure(s.skip(n), (count - 1) as nat);
                }
            },
            Err(_) => {},
        }
    }
}

/// A successful pair walk of `count` pairs measures as `2 * count` frames.
pub proof fn lemma_parse_pairs_measure(s: Seq<u8>, count: nat, acc: Seq<(Seq<u8>, FrameV)>)
    ensures
        match parse_pairs(s, count, acc) {
            Ok((_, m)) => crate::wire::measure_elems(s, 2 * count) == Ok::<int, RespError>(m),
            Err(_) => true,
        },
    decreases s.len(), count, 0int,
{
    if count > 0 {
        lemma_parse_measure(s);
        crate::wire::lemma_parse_one_bounds(s);
        match parse_one(s) {
            Ok((kf, kn)) => {
                if 3 <= kn <= s.len() {
                    match key_text(kf) {
                        Some(k) => {
                            lemma_parse_measure(s.skip(kn));
                            crate::wire::lemma_parse_one_bounds(s.skip(kn));
                            match parse_one(s.skip(kn)) {
                                Ok((vf, vn)) => {
                                    if 3 <= vn <= s.len() - kn {
                                        assert(s.skip(kn).skip(vn) =~= s.skip(kn + vn));
                                        lemma_parse_pairs_measure(
                                            s.skip(kn + vn),
                                            (count - 1) as nat,
                                            sorted_insert(acc, k, vf),
                                        );
                                        assert((2 * count - 1) as nat >= 1);
                                        assert((2 * count - 2) as nat == 2 * ((count - 1) as nat));
                                        assert(crate::wire::measure_elems(
                                            s.skip(kn),
                                            (2 * count - 1) as nat,
                                        ) == match crate::wire::measure_elems(
                                            s.skip(kn + vn),
                                            (2 * count - 2) as nat,
                                        ) {
                                            Ok(m) => Ok::<int, RespError>(vn + m),
                                            Err(e) => Err::<int, RespError>(e),
                                        });
                                    }
                                },
                                Err(_) => {},
                            }
                        },
                        None => {},
                    }
                }
            },
            Err(_) => {},
        }
    }
}

/// A proper prefix of a line whose first CRLF stands at `e` holds no CRLF.
pub proof fn lemma_take_no_pair(full: Seq<u8>, p: Seq<u8>, e: int)
    requires
        1 <= e,
        find_crlf(full, 1) == Some(e),
        p.len() < e + 2,
        p.len() <= full.len(),
        p == full.take(p.len() as int),
    ensures
        find_crlf(p, 1) is None,
{
    crate::wire::lemma_find_crlf(full, 1);
    assert forall|j: int| 1 <= j && j + 2 <= p.len() implies !(#[trigger] p[j] == CR && p[j + 1]
        == LF) by {
        assert(p[j] == full[j] && p[j + 1] == full[j + 1]);
    }
    crate::wire::lemma_find_crlf_none(p, 1);
}

/// Incomplete-prefix law, one frame: any proper prefix of a well-formed
/// encoding measures as `NotComplete`, never as an error or a length.
#[verifier::rlimit(100)]
pub proof fn lemma_measure_prefix(v: FrameV, p: Seq<u8>)
    requires
        wf(v),
        p.len() < enc(v).len(),
        p == enc(v).take(p.len() as int),
    ensures
        crate::wire::measure_one(p) == Err::<int, RespError>(RespError::NotComplete),
    decreases v, 0int,
{
    let full = enc(v);
    if p.len() == 0 {
    } else {
        assert(p[0] == full[0]);
        match v {
            FrameV::SimpleString(t) => {
                lemma_find_line(PFX_SIMPLE, t, Seq::<u8>::empty());
                assert(full =~= seq![PFX_SIMPLE] + t + crlf_s() + Seq::<u8>::empty());
                lemma_take_no_pair(full, p, 1 + t.len() as int);
            },
            FrameV::Error(t) => {
                lemma_find_line(PFX_ERROR, t, Seq::<u8>::empty());
                assert(full =~= seq![PFX_ERROR] + t + crlf_s() + Seq::<u8>::empty());
                lemma_take_no_pair(full, p, 1 + t.len() as int);
            },
            FrameV::Double(t) => {
                lemma_find_line(PFX_DOUBLE, t, Seq::<u8>::empty());
                assert(full =~= seq![PFX_DOUBLE] + t + crlf_s() + Seq::<u8>::empty());
                lemma_take_no_pair(full, p, 1 + t.len() as int);
            },
            FrameV::Integer(i) => {
                let body = sign_seq(i) + digits_spec(int_mag(i));
                lemma_digits_spec_wf(int_mag(i));
                assert forall|t: int| 0 <= t < body.len() implies #[trigger] body[t] >= 43 by {
                    if t >= 1 {
                        assert(body[t] == digits_spec(int_mag(i))[t - 1]);
                        assert(crate::wire::is_digit(digits_spec(int_mag(i))[t - 1]));
                    }
                }
                lemma_no_crlf_digitsign(body);
                lemma_find_line(PFX_INT, body, Seq::<u8>::empty());
                assert(full =~= seq![PFX_INT] + body + crlf_s() + Seq::<u8>::empty());
                lemma_take_no_pair(full, p, 1 + body.len() as int);
            },
            FrameV::Null => {
                assert(p.len() < 3);
            },
            FrameV::Boolean(_) => {
                assert(p.len() < 4);
            },
            FrameV::NullBulkString => {
                lemma_no_crlf_digitsign(neg_one());
                lemma_find_line(PFX_BULK, neg_one(), Seq::<u8>::empty());
                assert(full =~= seq![PFX_BULK] + neg_one() + crlf_s() + Seq::<u8>::empty());
                lemma_take_no_pair(full, p, 3);
            },
            FrameV::NullArray => {
                lemma_no_crlf_digitsign(neg_one());
                lemma_find_line(PFX_ARRAY, neg_one(), Seq::<u8>::empty());
                assert(full =~= seq![PFX_ARRAY] + neg_one() + crlf_s() + Seq::<u8>::empty());
                lemma_take_no_pair(full, p, 3);
            },
            FrameV::BulkString(b) => {
                let digits = digits_spec(b.len());
                lemma_digits_spec_wf(b.len());
                lemma_digits_roundtrip(b.len());
                assert forall|t: int| 0 <= t < digits.len() implies #[trigger] digits[t] >= 43 by {
                    assert(crate::wire::is_digit(digits[t]));
                }
                lemma_no_crlf_digitsign(digits);
                let tail = b + crlf_s() + Seq::<u8>::empty();
                lemma_find_line(PFX_BULK, digits, tail);
                assert(full =~= seq![PFX_BULK] + digits + crlf_s() + tail);
                let e: int = 1 + digits.len() as int;
                if p.len() < e + 2 {
                    lemma_take_no_pair(full, p, e);
                } else {
                    assert(p[e] == full[e] && p[e + 1] == full[e + 1]);
                    crate::wire::lemma_find_crlf(full, 1);
                    assert forall|j: int| 1 <= j < e implies !(#[trigger] p[j] == CR && p[j + 1]
                        == LF) by {
                        assert(p[j] == full[j] && p[j + 1] == full[j + 1]);
                    }
                    lemma_find_crlf_skip(p, 1, e);
                    assert(p.subrange(1, e) =~= full.subrange(1, e));
                    assert(full.subrange(1, e) =~= digits);
                    let seg = p.subrange(1, e);
                    assert(seg != neg_one()) by {
                        if seg == neg_one() {
                            assert(crate::wire::is_digit(seg[0]));
                        }
                    }
                    assert(full.len() == e + 2 + b.len() + 2);
                    assert(p.len() < e + 2 + b.len() + 2);
                }
            },
            FrameV::Array(es) => {
                lemma_measure_prefix_container(PFX_ARRAY, es, v, p);
            },
            FrameV::SetFrame(es) => {
                lemma_measure_prefix_container(PFX_SET, es, v, p);
            },
            FrameV::MapFrame(es) => {
                let digits = digits_spec(es.len());
                lemma_digits_spec_wf(es.len());
                lemma_digits_roundtrip(es.len());
                assert forall|t: int| 0 <= t < digits.len() implies #[trigger] digits[t] >= 43 by {
                    assert(crate::wire::is_digit(digits[t]));
                }
                lemma_no_crlf_digitsign(digits);
                let tail = enc_entries(es) + Seq::<u8>::empty();
                lemma_find_line(PFX_MAP, digits, tail);
                assert(full =~= seq![PFX_MAP] + digits + crlf_s() + tail);
                let e: int = 1 + digits.len() as int;
                if p.len() < e + 2 {
                    lemma_take_no_pair(full, p, e);
                } else {
                    assert(p[e] == full[e] && p[e + 1] == full[e + 1]);
                    crate::wire::lemma_find_crlf(full, 1);
                    assert forall|j: int| 1 <= j < e implies !(#[trigger] p[j] == CR && p[j + 1]
                        == LF) by {
                        assert(p[j] == full[j] && p[j + 1] == full[j + 1]);
                    }
                    lemma_find_crlf_skip(p, 1, e);
                    assert(p.subrange(1, e) =~= digits);
                    let q = p.skip(e + 2);
                    assert(full.skip(e + 2) =~= enc_entries(es));
                    assert(q =~= enc_entries(es).take(q.len() as int));
                    assert(q.len() < enc_entries(es).len());
                    if 6 * es.len() <= p.len() - (e + 2) {
                        lemma_measure_pairs_prefix(es, q);
                    }
                }
            },
        }
    }
}

/// The container half of the prefix law, shared by arrays and sets.
#[verifier::rlimit(100)]
pub proof fn lemma_measure_prefix_container(pfx: u8, es: Seq<FrameV>, v: FrameV, p: Seq<u8>)
    requires
        pfx == PFX_ARRAY || pfx == PFX_SET,
        v == FrameV::Array(es) || v == FrameV::SetFrame(es),
        enc(v) == seq![pfx] + digits_spec(es.len()) + crlf_s() + enc_seq(es),
        forall|i: int| 0 <= i < es.len() ==> wf(#[trigger] es[i]),
        0 < p.len() < enc(v).len(),
        p == enc(v).take(p.len() as int),
    ensures
        crate::wire::measure_one(p) == Err::<int, RespError>(RespError::NotComplete),
    decreases es, 2int,
{
    let full = enc(v);
    let digits = digits_spec(es.len());
    lemma_digits_spec_wf(es.len());
    lemma_digits_roundtrip(es.len());
    assert forall|t: int| 0 <= t < digits.len() implies #[trigger] digits[t] >= 43 by {
        assert(crate::wire::is_digit(digits[t]));
    }
    lemma_no_crlf_digitsign(digits);
    let tail = enc_seq(es) + Seq::<u8>::empty();
    assert(full =~= seq![pfx] + digits + crlf_s() + tail);
    lemma_find_line(pfx, digits, tail);
    let e: int = 1 + digits.len() as int;
    assert(p[0] == pfx);
    if p.len() < e + 2 {
        lemma_take_no_pair(full, p, e);
    } else {
        assert(p[e] == full[e] && p[e + 1] == full[e + 1]);
        crate::wire::lemma_find_crlf(full, 1);
        assert forall|j: int| 1 <= j < e implies !(#[trigger] p[j] == CR && p[j + 1] == LF) by {
            assert(p[j] == full[j] && p[j + 1] == full[j + 1]);
        }
        lemma_find_crlf_skip(p, 1, e);
        assert(p.subrange(1, e) =~= digits);
        let seg = p.subrange(1, e);
        assert(seg != neg_one()) by {
            if seg == neg_one() {
                assert(crate::wire::is_digit(seg[0]));
            }
        }
        let q = p.skip(e + 2);
        assert(full.skip(e + 2) =~= enc_seq(es));
        assert(q =~= enc_seq(es).take(q.len() as int));
        assert(q.len() < enc_seq(es).len());
        if 3 * es.len() <= p.len() - (e + 2) {
            lemma_measure_elems_prefix(es, q);
        }
    }
}

/// A proper prefix of the encodings of a run of frames measures as
/// `NotComplete` for that run.
pub proof fn lemma_measure_elems_prefix(es: Seq<FrameV>, q: Seq<u8>)
    requires
        forall|i: int| 0 <= i < es.len() ==> wf(#[trigger] es[i]),
        q.len() < enc_seq(es).len(),
        q == enc_seq(es).take(q.len() as int),
    ensures
        crate::wire::measure_elems(q, es.len()) == Err::<int, RespError>(RespError::NotComplete),
    decreases es, 1int,
{
    assert(es.len() > 0);
    let head = es[0];
    let tail_es = es.subrange(1, es.len() as int);
    let n0 = enc(head).len() as int;
    lemma_enc_min(head);
    assert(enc_seq(es) =~= enc(head) + enc_seq(tail_es));
    if q.len() < n0 {
        assert(q =~= enc(head).take(q.len() as int));
        lemma_measure_prefix(head, q);
    } else {
        let q2 = q.skip(n0);
        assert(q =~= enc(head) + q2);
        lemma_parse_encode(head, q2);
        lemma_parse_measure(enc(head) + q2);
        assert(crate::wire::measure_one(q) == Ok::<int, RespError>(n0));
        assert(q2 =~= enc_seq(tail_es).take(q2.len() as int));
        assert(q2.len() < enc_seq(tail_es).len());
        lemma_measure_elems_prefix(tail_es, q2);
    }
}

/// A proper prefix of the encodings of a run of key/value pairs measures
/// as `NotComplete` for its `2 * count` frames.
#[verifier::rlimit(100)]
pub proof fn lemma_measure_pairs_prefix(es: Seq<(Seq<u8>, FrameV)>, q: Seq<u8>)
    requires
        forall|i: int| 0 <= i < es.len() ==> no_crlf(#[trigger] es[i].0) && wf(es[i].1),
        q.len() < enc_entries(es).len(),
        q == enc_entries(es).take(q.len() as int),
    ensures
        crate::wire::measure_elems(q, 2 * es.len()) == Err::<int, RespError>(
            RespError::NotComplete,
        ),
    decreases es, 1int,
{
    assert(es.len() > 0);
    let k = es[0].0;
    let v0 = es[0].1;
    let tail_es = es.subrange(1, es.len() as int);
    let kline = seq![PFX_SIMPLE] + k + crlf_s();
    let kframe = FrameV::SimpleString(k);
    assert(enc(kframe) == kline);
    let kn = kline.len() as int;
    assert(enc_entries(es) =~= kline + (enc(v0) + enc_entries(tail_es)));
    assert(2 * es.len() >= 2);
    if q.len() < kn {
        assert(q =~= kline.take(q.len() as int));
        if q.len() > 0 {
            assert(q[0] == PFX_SIMPLE);
            lemma_find_line(PFX_SIMPLE, k, Seq::<u8>::empty());
            assert(kline =~= seq![PFX_SIMPLE] + k + crlf_s() + Seq::<u8>::empty());
            lemma_take_no_pair(kline, q, 1 + k.len() as int);
        }
    } else {
        let q2 = q.skip(kn);
        assert(q =~= kline + q2);
        assert(q =~= seq![PFX_SIMPLE] + k + crlf_s() + q2);
        lemma_find_line(PFX_SIMPLE, k, q2);
        assert(crate::wire::measure_one(q) == Ok::<int, RespError>(kn));
        assert((2 * es.len() - 1) as nat == 2 * ((es.len() - 1) as nat) + 1);
        let rest_enc = enc(v0) + enc_entries(tail_es);
        assert(q2 =~= rest_enc.take(q2.len() as int));
        let vn = enc(v0).len() as int;
        lemma_enc_min(v0);
        if q2.len() < vn {
            assert(q2 =~= enc(v0).take(q2.len() as int));
            lemma_measure_prefix(v0, q2);
            assert(crate::wire::measure_elems(q.skip(kn), (2 * es.len() - 1) as nat) == Err::<
                int,
                RespError,
            >(RespError::NotComplete));
        } else {
            let q3 = q2.skip(vn);
            assert(q2 =~= enc(v0) + q3);
            lemma_parse_encode(v0, q3);
            lemma_parse_measure(enc(v0) + q3);
            assert(crate::wire::measure_one(q2) == Ok::<int, RespError>(vn));
            assert(q3 =~= enc_entries(tail_es).take(q3.len() as int));
            assert(q3.len() < enc_entries(tail_es).len());
            lemma_measure_pairs_prefix(tail_es, q3);
            assert((2 * es.len() - 2) as nat == 2 * tail_es.len());
            assert(q2.skip(vn) == q3);
            assert(crate::wire::measure_elems(q2, (2 * es.len() - 1) as nat) == Err::<
                int,
                RespError,
            >(RespError::NotComplete));
        }
    }
}

/// Round trip (the first law): decoding an encoded well-formed frame gives
/// back exactly that frame, consuming exactly its encoding.
pub proof fn lemma_round_trip(v: FrameV)
    requires
        wf(v),
    ensures
        parse_one(enc(v)) == Ok::<(FrameV, int), RespError>((v, enc(v).len() as int)),
{
    lemma_parse_encode(v, Seq::<u8>::empty());
    assert(enc(v) + Seq::<u8>::empty() =~= enc(v));
}

/// Incomplete-prefix law: a complete well-formed encoding measures as its
/// own length, and every proper prefix of it measures as `NotComplete`.
pub proof fn lemma_prefix_incomplete(v: FrameV, p: Seq<u8>)
    requires
        wf(v),
        p.len() < enc(v).len(),
        p == enc(v).take(p.len() as int),
    ensures
        crate::wire::measure_one(p) == Err::<int, RespError>(RespError::NotComplete),
        crate::wire::measure_one(enc(v)) == Ok::<int, RespError>(enc(v).len() as int),
{
    lemma_measure_prefix(v, p);
    lemma_round_trip(v);
    lemma_parse_measure(enc(v));
}

/// Two-codec equivalence: on any well-formed encoded input, followed by
/// any trailing bytes, the decode walk and the measure-then-parse walk
/// yield the same frame and the same consumed length.
pub proof fn lemma_two_codec_agree(v: FrameV, rest: Seq<u8>)
    ensures
        wf(v) ==> ({
            let b = enc(v) + rest;
            parse_one(b) == Ok::<(FrameV, int), RespError>((v, enc(v).len() as int))
                && crate::wire::measure_one(b) == Ok::<int, RespError>(enc(v).len() as int)
                && parse_one(b.take(enc(v).len() as int)) == Ok::<(FrameV, int), RespError>(
                (v, enc(v).len() as int),
            )
        }),
{
    if wf(v) {
        lemma_parse_encode(v, rest);
        lemma_parse_measure(enc(v) + rest);
        assert((enc(v) + rest).take(enc(v).len() as int) =~= enc(v));
        lemma_round_trip(v);
    }
}

} // verus!
