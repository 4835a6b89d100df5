use vstd::prelude::*;

use crate::frame::FrameV;
use crate::frame::MapEntry;
use crate::frame::RespFrame;
use crate::frame::entries_view;
use crate::frame::fview;
use crate::frame::lex_lt;
use crate::wire::sorted_insert;

verus! {

/// Decides equality of two byte strings.
pub fn bytes_eq(a: &[u8], b: &[u8]) -> (r: bool)
    ensures
        r == (a@ == b@),
{
    let n = a.len();
    if n != b.len() {
        return false;
    }
    let mut j: usize = 0;
    while j < n
        invariant
            j <= n,
            n == a@.len(),
            n == b@.len(),
            forall|t: int| 0 <= t < j ==> a@[t] == b@[t],
        decreases n - j,
    {
        if a[j] != b[j] {
            return false;
        }
        j += 1;
    }
    proof {
        assert(a@ =~= b@);
    }
    true
}

/// Decides the strict lexicographic order `lex_lt`.
pub fn lex_lt_x(a: &[u8], b: &[u8]) -> (r: bool)
    ensures
        r == lex_lt(a@, b@),
{
    let an = a.len();
    let bn = b.len();
    let mut j: usize = 0;
    proof {
        assert(a@.skip(0) =~= a@);
        assert(b@.skip(0) =~= b@);
    }
    while j < an && j < bn
        invariant
            j <= an,
            j <= bn,
            an == a@.len(),
            bn == b@.len(),
            lex_lt(a@, b@) == lex_lt(a@.skip(j as int), b@.skip(j as int)),
            forall|t: int| 0 <= t < j ==> a@[t] == b@[t],
        decreases an - j,
    {
        let ca = a[j];
        let cb = b[j];
        if ca < cb {
            return true;
        }
        if ca > cb {
            return false;
        }
        proof {
            assert(a@.skip(j as int).subrange(1, a@.skip(j as int).len() as int) =~= a@.skip(
                j + 1,
            ));
            assert(b@.skip(j as int).subrange(1, b@.skip(j as int).len() as int) =~= b@.skip(
                j + 1,
            ));
        }
        j += 1;
    }
    proof {
        assert(a@.skip(j as int).len() == an - j);
        assert(b@.skip(j as int).len() == bn - j);
    }
    j == an && j < bn
}

/// `lex_lt` is transitive.
pub proof fn lemma_lex_lt_trans(a: Seq<u8>, b: Seq<u8>, c: Seq<u8>)
    requires
        lex_lt(a, b),
        lex_lt(b, c),
    ensures
        lex_lt(a, c),
    decreases a.len() + b.len() + c.len(),
{
    if b.len() == 0 {
    } else if a.len() == 0 {
    } else if c.len() == 0 {
    } else {
        if a[0] == b[0] && b[0] == c[0] {
            lemma_lex_lt_trans(
                a.subrange(1, a.len() as int),
                b.subrange(1, b.len() as int),
                c.subrange(1, c.len() as int),
            );
        }
    }
}

/// Two byte strings that neither order places first are equal.
pub proof fn lemma_lex_lt_connex(a: Seq<u8>, b: Seq<u8>)
    requires
        !lex_lt(a, b),
        !lex_lt(b, a),
    ensures
        a == b,
    decreases a.len() + b.len(),
{
    if b.len() == 0 {
        assert(a.len() == 0);
        assert(a =~= b);
    } else if a.len() == 0 {
    } else {
        lemma_lex_lt_connex(a.subrange(1, a.len() as int), b.subrange(1, b.len() as int));
        assert(a =~= seq![a[0]] + a.subrange(1, a.len() as int));
        assert(b =~= seq![b[0]] + b.subrange(1, b.len() as int));
        assert(a =~= b);
    }
}

pub proof fn lemma_entries_view_cons(e: MapEntry, s: Seq<MapEntry>)
    ensures
        entries_view(seq![e] + s) == seq![(e.key@, fview(e.value))] + entries_view(s),
{
    let whole = seq![e] + s;
    assert(whole.len() > 0);
    assert(whole[0] == e);
    assert(whole.subrange(1, whole.len() as int) =~= s);
}

/// Inserts an entry into a key-ordered entry list, mirroring `sorted_insert`.
pub fn map_insert_vec(m: Vec<MapEntry>, key: Vec<u8>, value: RespFrame) -> (r: Vec<MapEntry>)
    ensures
        entries_view(r@) == sorted_insert(entries_view(m@), key@, fview(value)),
    decreases m@.len(),
{
    let ghost m0 = m@;
    let mut m = m;
    if m.len() == 0 {
        let ghost kk = key@;
        let ghost vv = fview(value);
        let mut r: Vec<MapEntry> = Vec::new();
        r.push(MapEntry { key, value });
        proof {
            assert(entries_view(m0) =~= Seq::<(Seq<u8>, FrameV)>::empty());
            assert(r@[0].key@ == kk && fview(r@[0].value) == vv);
            assert(r@ =~= seq![r@[0]]);
            assert(r@.subrange(1, 1) =~= Seq::<MapEntry>::empty());
            assert(entries_view(r@) == seq![(kk, vv)] + entries_view(r@.subrange(1, 1)));
            assert(seq![(kk, vv)] + Seq::<(Seq<u8>, FrameV)>::empty() =~= seq![(kk, vv)]);
            assert(sorted_insert(entries_view(m0), kk, vv) == seq![(kk, vv)]);
            assert(entries_view(r@) =~= sorted_insert(entries_view(m0), kk, vv));
        }
        return r;
    }
    proof {
        assert(m0 =~= seq![m0[0]] + m0.subrange(1, m0.len() as int));
        lemma_entries_view_cons(m0[0], m0.subrange(1, m0.len() as int));
        assert(entries_view(m0)[0] == (m0[0].key@, fview(m0[0].value)));
        assert(entries_view(m0).subrange(1, entries_view(m0).len() as int) =~= entries_view(
            m0.subrange(1, m0.len() as int),
        ));
    }
    let head = m.remove(0);
    proof {
        assert(head == m0[0]);
        assert(m@ =~= m0.subrange(1, m0.len() as int));
    }
    if lex_lt_x(head.key.as_slice(), key.as_slice()) {
        let mut r = map_insert_vec(m, key, value);
        let ghost rr = r@;
        r.insert(0, head);
        proof {
            assert(r@ =~= seq![head] + rr);
            lemma_entries_view_cons(head, rr);
            assert(entries_view(r@) == seq![(head.key@, fview(head.value))] + entries_view(rr));
            assert(entries_view(r@) =~= sorted_insert(entries_view(m0), key@, fview(value)));
        }
        r
    } else if bytes_eq(head.key.as_slice(), key.as_slice()) {
        proof {
            assert(head.key@ == key@);
        }
        let ghost kk = key@;
        let ghost vv = fview(value);
        m.insert(0, MapEntry { key, value });
        proof {
            let e = MapEntry { key: m@[0].key, value: m@[0].value };
            assert(m@[0].key@ == kk && fview(m@[0].value) == vv);
            assert(m@ =~= seq![m@[0]] + m0.subrange(1, m0.len() as int));
            lemma_entries_view_cons(m@[0], m0.subrange(1, m0.len() as int));
            assert(entries_view(m@) == seq![(kk, vv)] + entries_view(
                m0.subrange(1, m0.len() as int),
            ));
            assert(entries_view(m@) =~= sorted_insert(entries_view(m0), kk, vv));
        }
        m
    } else {
        m.insert(0, head);
        proof {
            assert(m@ =~= m0);
        }
        m.insert(0, MapEntry { key, value });
        proof {
            assert(m@ =~= seq![m@[0]] + m0);
            lemma_entries_view_cons(m@[0], m0);
            assert(entries_view(m@) =~= sorted_insert(entries_view(m0), key@, fview(value)));
        }
        m
    }
}

/// Inserting into a key-ordered entry list keeps it key-ordered: the
/// invariant behind a map's one deterministic encoding.
pub proof fn lemma_sorted_insert_sorted(s: Seq<(Seq<u8>, FrameV)>, k: Seq<u8>, v: FrameV)
    requires
        crate::frame::entries_sorted(s),
    ensures
        crate::frame::entries_sorted(sorted_insert(s, k, v)),
    decreases s.len(),
{
    if s.len() == 0 {
    } else {
        let rest = s.subrange(1, s.len() as int);
        assert(crate::frame::entries_sorted(rest)) by {
            assert forall|i: int| 0 <= i && i + 1 < rest.len() implies lex_lt(
                #[trigger] rest[i].0,
                rest[i + 1].0,
            ) by {
                assert(rest[i] == s[i + 1] && rest[i + 1] == s[i + 2]);
            }
        }
        if lex_lt(s[0].0, k) {
            lemma_sorted_insert_sorted(rest, k, v);
            let ins = sorted_insert(rest, k, v);
            let r = seq![s[0]] + ins;
            assert(ins.len() > 0);
            assert(lex_lt(r[0].0, r[1].0)) by {
                if rest.len() == 0 {
                    assert(ins[0] == (k, v));
                } else if lex_lt(rest[0].0, k) {
                    assert(ins[0] == rest[0]);
                    assert(lex_lt(s[0].0, s[1].0));
                } else {
                    assert(ins[0] == (k, v));
                }
            }
            assert forall|i: int| 0 <= i && i + 1 < r.len() implies lex_lt(
                #[trigger] r[i].0,
                r[i + 1].0,
            ) by {
                if i > 0 {
                    assert(r[i] == ins[i - 1] && r[i + 1] == ins[i]);
                }
            }
        } else if s[0].0 == k {
            let r = seq![(k, v)] + rest;
            assert forall|i: int| 0 <= i && i + 1 < r.len() implies lex_lt(
                #[trigger] r[i].0,
                r[i + 1].0,
            ) by {
                if i == 0 {
                    assert(r[1] == rest[0] && rest[0] == s[1]);
                    assert(lex_lt(s[0].0, s[1].0));
                } else {
                    assert(r[i] == rest[i - 1] && r[i + 1] == rest[i]);
                }
            }
        } else {
            assert(lex_lt(k, s[0].0)) by {
                if !lex_lt(k, s[0].0) {
                    lemma_lex_lt_connex(s[0].0, k);
                }
            }
            let r = seq![(k, v)] + s;
            assert forall|i: int| 0 <= i && i + 1 < r.len() implies lex_lt(
                #[trigger] r[i].0,
                r[i + 1].0,
            ) by {
                if i > 0 {
                    assert(r[i] == s[i - 1] && r[i + 1] == s[i]);
                }
            }
        }
    }
}

impl crate::frame::RespMap {
    /// Puts `value` under `key`, keeping the entries in key order and
    /// replacing the value when the key is already present.
    pub fn insert(self, key: Vec<u8>, value: RespFrame) -> (r: Self)
        ensures
            entries_view(r.0@) == sorted_insert(entries_view(self.0@), key@, fview(value)),
            crate::frame::entries_sorted(entries_view(self.0@)) ==> crate::frame::entries_sorted(
                entries_view(r.0@),
            ),
    {
        proof {
            if crate::frame::entries_sorted(entries_view(self.0@)) {
                lemma_sorted_insert_sorted(entries_view(self.0@), key@, fview(value));
            }
        }
        crate::frame::RespMap(map_insert_vec(self.0, key, value))
    }
}

} // verus!
