use vstd::prelude::*;

use crate::frame::MapEntry;
use crate::frame::RespFrame;
use crate::frame::RespSet;
use crate::frame::entries_view;
use crate::frame::frames_view;
use crate::frame::fview;
use crate::frame::lemma_entries_view_index;
use crate::frame::lemma_frames_view_index;
use crate::order::bytes_eq;

verus! {

/// Decides structural equality of two frames: equality of their views.
#[verifier::rlimit(100)]
pub fn frame_eq(a: &RespFrame, b: &RespFrame) -> (r: bool)
    ensures
        r == (fview(*a) == fview(*b)),
    decreases *a,
{
    match (a, b) {
        (RespFrame::SimpleString(x), RespFrame::SimpleString(y)) => bytes_eq(
            x.0.as_slice(),
            y.0.as_slice(),
        ),
        (RespFrame::Error(x), RespFrame::Error(y)) => bytes_eq(x.0.as_slice(), y.0.as_slice()),
        (RespFrame::Integer(x), RespFrame::Integer(y)) => x == y,
        (RespFrame::BulkString(x), RespFrame::BulkString(y)) => bytes_eq(
            x.0.as_slice(),
            y.0.as_slice(),
        ),
        (RespFrame::NullBulkString(_), RespFrame::NullBulkString(_)) => true,
        (RespFrame::Array(x), RespFrame::Array(y)) => frames_eq(&x.0, &y.0),
        (RespFrame::NullArray(_), RespFrame::NullArray(_)) => true,
        (RespFrame::Null(_), RespFrame::Null(_)) => true,
        (RespFrame::Boolean(x), RespFrame::Boolean(y)) => x == y,
        (RespFrame::Double(x), RespFrame::Double(y)) => bytes_eq(x.0.as_slice(), y.0.as_slice()),
        (RespFrame::MapFrame(x), RespFrame::MapFrame(y)) => entries_eq(&x.0, &y.0),
        (RespFrame::SetFrame(x), RespFrame::SetFrame(y)) => frames_eq(&x.0, &y.0),
        _ => false,
    }
}

/// Decides equality of two frame lists, element by element.
pub fn frames_eq(a: &Vec<RespFrame>, b: &Vec<RespFrame>) -> (r: bool)
    ensures
        r == (frames_view(a@) == frames_view(b@)),
    decreases *a,
{
    proof {
        lemma_frames_view_index(a@);
        lemma_frames_view_index(b@);
    }
    let n = a.len();
    if n != b.len() {
        proof {
            assert(frames_view(a@).len() != frames_view(b@).len());
        }
        return false;
    }
    let mut j: usize = 0;
    while j < n
        invariant
            j <= n,
            n == a@.len(),
            n == b@.len(),
            frames_view(a@).len() == n,
            frames_view(b@).len() == n,
            forall|t: int| 0 <= t < n ==> frames_view(a@)[t] == fview(#[trigger] a@[t]),
            forall|t: int| 0 <= t < n ==> frames_view(b@)[t] == fview(#[trigger] b@[t]),
            forall|t: int| 0 <= t < j ==> fview(#[trigger] a@[t]) == fview(b@[t]),
        decreases n - j,
    {
        if !frame_eq(&a[j], &b[j]) {
            proof {
                assert(fview(a@[j as int]) != fview(b@[j as int]));
                assert(frames_view(a@)[j as int] == fview(a@[j as int]));
                assert(frames_view(b@)[j as int] == fview(b@[j as int]));
            }
            return false;
        }
        j += 1;
    }
    proof {
        assert forall|t: int| 0 <= t < n implies frames_view(a@)[t] == frames_view(b@)[t] by {
            assert(frames_view(a@)[t] == fview(a@[t]));
            assert(frames_view(b@)[t] == fview(b@[t]));
            assert(fview(a@[t]) == fview(b@[t]));
        }
        assert(frames_view(a@) =~= frames_view(b@));
    }
    true
}

/// Decides equality of two entry lists, keys and values alike.
pub fn entries_eq(a: &Vec<MapEntry>, b: &Vec<MapEntry>) -> (r: bool)
    ensures
        r == (entries_view(a@) == entries_view(b@)),
    decreases *a,
{
    proof {
        lemma_entries_view_index(a@);
        lemma_entries_view_index(b@);
    }
    let n = a.len();
    if n != b.len() {
        proof {
            assert(entries_view(a@).len() != entries_view(b@).len());
        }
        return false;
    }
    let mut j: usize = 0;
    while j < n
        invariant
            j <= n,
            n == a@.len(),
            n == b@.len(),
            entries_view(a@).len() == n,
            entries_view(b@).len() == n,
            forall|t: int| 0 <= t < n ==> entries_view(a@)[t] == (#[trigger] a@[t].key@,
                fview(a@[t].value)),
            forall|t: int| 0 <= t < n ==> entries_view(b@)[t] == (#[trigger] b@[t].key@,
                fview(b@[t].value)),
            forall|t: int| 0 <= t < j ==> (#[trigger] a@[t].key@ == b@[t].key@ && fview(a@[t].value)
                == fview(b@[t].value)),
        decreases n - j,
    {
        if !bytes_eq(a[j].key.as_slice(), b[j].key.as_slice()) {
            proof {
                assert(entries_view(a@)[j as int] == (a@[j as int].key@, fview(a@[j as int].value)));
                assert(entries_view(b@)[j as int] == (b@[j as int].key@, fview(b@[j as int].value)));
                assert(entries_view(a@)[j as int] != entries_view(b@)[j as int]);
            }
            return false;
        }
        if !frame_eq(&a[j].value, &b[j].value) {
            proof {
                assert(entries_view(a@)[j as int] == (a@[j as int].key@, fview(a@[j as int].value)));
                assert(entries_view(b@)[j as int] == (b@[j as int].key@, fview(b@[j as int].value)));
                assert(entries_view(a@)[j as int] != entries_view(b@)[j as int]);
            }
            return false;
        }
        j += 1;
    }
    proof {
        assert forall|t: int| 0 <= t < n implies entries_view(a@)[t] == entries_view(b@)[t] by {
            assert(entries_view(a@)[t] == (a@[t].key@, fview(a@[t].value)));
            assert(entries_view(b@)[t] == (b@[t].key@, fview(b@[t].value)));
            assert(a@[t].key@ == b@[t].key@ && fview(a@[t].value) == fview(b@[t].value));
        }
        assert(entries_view(a@) =~= entries_view(b@));
    }
    true
}

impl PartialEq for RespFrame {
    fn eq(&self, other: &Self) -> (r: bool) {
        frame_eq(self, other)
    }
}

impl vstd::std_specs::cmp::PartialEqSpecImpl for RespFrame {
    open spec fn obeys_eq_spec() -> bool {
        true
    }

    open spec fn eq_spec(&self, other: &Self) -> bool {
        fview(*self) == fview(*other)
    }
}

impl PartialEq for RespSet {
    fn eq(&self, other: &Self) -> (r: bool) {
        frames_eq(&self.0, &other.0)
    }
}

impl vstd::std_specs::cmp::PartialEqSpecImpl for RespSet {
    open spec fn obeys_eq_spec() -> bool {
        true
    }

    open spec fn eq_spec(&self, other: &Self) -> bool {
        frames_view(self.0@) == frames_view(other.0@)
    }
}

} // verus!
