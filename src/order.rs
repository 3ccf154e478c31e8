//! Ordering of a book's tracks by their number.

use crate::book::{tracks_view, Track, TrackView};
use vstd::prelude::*;

verus! {

/// The tracks of `s` that carry the number `k`, in their order in `s`.
pub open spec fn with_number(s: Seq<TrackView>, k: u32) -> Seq<TrackView> {
    s.filter(|t: TrackView| t.number == k)
}

/// Track numbers never decrease along `s`.
pub open spec fn sorted_by_number(s: Seq<TrackView>) -> bool {
    forall|i: int, j: int| 0 <= i < j < s.len() ==> s[i].number <= s[j].number
}

/// `out` is `input` sorted by track number, tracks with the same number keeping
/// their relative order.
pub open spec fn stably_sorted(input: Seq<TrackView>, out: Seq<TrackView>) -> bool {
    &&& sorted_by_number(out)
    &&& forall|k: u32| #[trigger] with_number(out, k) == with_number(input, k)
}

pub(crate) proof fn lemma_none_with_number(s: Seq<TrackView>, k: u32)
    requires
        forall|i: int| 0 <= i < s.len() ==> s[i].number != k,
    ensures
        with_number(s, k) == Seq::<TrackView>::empty(),
    decreases s.len(),
{
    reveal(Seq::filter);
    if s.len() > 0 {
        lemma_none_with_number(s.drop_last(), k);
    }
}

/// The last track of `s` closes the tracks of `s` that carry its number.
proof fn lemma_last_with_number(s: Seq<TrackView>)
    requires
        s.len() > 0,
    ensures
        with_number(s, s.last().number) == with_number(s.drop_last(), s.last().number).push(
            s.last(),
        ),
        forall|k: u32|
            k != s.last().number ==> #[trigger] with_number(s, k) == with_number(s.drop_last(), k),
{
    reveal(Seq::filter);
}

/// Every track listed under a number is a track of `s` with that number.
proof fn lemma_with_number_members(s: Seq<TrackView>, k: u32)
    ensures
        forall|i: int|
            0 <= i < with_number(s, k).len() ==> s.contains(#[trigger] with_number(s, k)[i])
                && with_number(s, k)[i].number == k,
{
    broadcast use vstd::seq_lib::group_filter_ensures;

    assert forall|i: int| 0 <= i < with_number(s, k).len() implies s.contains(
        #[trigger] with_number(s, k)[i],
    ) by {
        assert(with_number(s, k).contains(with_number(s, k)[i]));
        s.lemma_filter_contains_rev(|t: TrackView| t.number == k, with_number(s, k)[i]);
    }
}

/// Two lists sorted by number that hold the same tracks under every number are equal.
proof fn lemma_sorted_determined(a: Seq<TrackView>, b: Seq<TrackView>)
    requires
        sorted_by_number(a),
        sorted_by_number(b),
        forall|k: u32| #[trigger] with_number(a, k) == with_number(b, k),
    ensures
        a == b,
    decreases a.len() + b.len(),
{
    if a.len() == 0 && b.len() == 0 {
        assert(a =~= b);
    } else if a.len() == 0 {
        lemma_last_with_number(b);
        lemma_none_with_number(a, b.last().number);
    } else if b.len() == 0 {
        lemma_last_with_number(a);
        lemma_none_with_number(b, a.last().number);
    } else {
        let ma = a.last().number;
        let mb = b.last().number;
        lemma_last_with_number(a);
        lemma_last_with_number(b);
        // the largest number of each list occurs in the other
        lemma_with_number_members(a, mb);
        let wb = with_number(b, mb);
        assert(wb.last() == b.last());
        assert(a.contains(wb[wb.len() - 1]));
        let ia = choose|i: int| 0 <= i < a.len() && a[i] == wb[wb.len() - 1];
        assert(mb <= ma) by {
            if ia < a.len() - 1 {
                assert(a[ia].number <= a[a.len() - 1].number);
            }
        }
        lemma_with_number_members(b, ma);
        let wa = with_number(a, ma);
        assert(wa.last() == a.last());
        assert(b.contains(wa[wa.len() - 1]));
        let ib = choose|i: int| 0 <= i < b.len() && b[i] == wa[wa.len() - 1];
        assert(ma <= mb) by {
            if ib < b.len() - 1 {
                assert(b[ib].number <= b[b.len() - 1].number);
            }
        }
        assert(a.last() == b.last());
        let pa = a.drop_last();
        let pb = b.drop_last();
        assert forall|k: u32| #[trigger] with_number(pa, k) == with_number(pb, k) by {
            if k == ma {
                assert(with_number(a, k).drop_last() =~= with_number(pa, k));
                assert(with_number(b, k).drop_last() =~= with_number(pb, k));
            } else {
                assert(with_number(a, k) == with_number(pa, k));
            }
        }
        lemma_sorted_determined(pa, pb);
        assert(a =~= pa.push(a.last()));
        assert(b =~= pb.push(b.last()));
    }
}

/// The stable order by track number depends only on which tracks each number carries and
/// in what order: two inputs that agree on that are ordered to the same list.
pub proof fn stable_order_is_unique(
    in1: Seq<TrackView>,
    out1: Seq<TrackView>,
    in2: Seq<TrackView>,
    out2: Seq<TrackView>,
)
    requires
        stably_sorted(in1, out1),
        stably_sorted(in2, out2),
        forall|k: u32| #[trigger] with_number(in1, k) == with_number(in2, k),
    ensures
        out1 == out2,
{
    assert forall|k: u32| #[trigger] with_number(out1, k) == with_number(out2, k) by {
        assert(with_number(out1, k) == with_number(in1, k));
        assert(with_number(out2, k) == with_number(in2, k));
    }
    lemma_sorted_determined(out1, out2);
}

/// Sorts tracks by number; tracks with equal numbers keep the order in which they came.
pub fn sort_tracks(tracks: Vec<Track>) -> (r: Vec<Track>)
    ensures
        stably_sorted(tracks_view(tracks@), tracks_view(r@)),
        r@.len() == tracks@.len(),
{
    let ghost input = tracks_view(tracks@);
    let mut rest = tracks;
    let mut out: Vec<Track> = Vec::new();
    let ghost n: int = 0;
    proof {
        reveal(Seq::filter);
        assert(input.take(0) =~= Seq::<TrackView>::empty());
        assert(tracks_view(out@) =~= Seq::<TrackView>::empty());
    }
    while rest.len() > 0
        invariant
            0 <= n <= input.len(),
            tracks_view(rest@) == input.skip(n),
            out@.len() == n,
            stably_sorted(input.take(n), tracks_view(out@)),
        decreases rest.len(),
    {
        let ghost before = tracks_view(out@);
        let ghost rest_view = tracks_view(rest@);
        let t = rest.remove(0);
        let ghost x = t@;
        assert(rest_view[0] == x);
        assert(tracks_view(rest@) =~= rest_view.skip(1));
        // the new track goes after every track whose number is not greater than its own
        let mut p: usize = out.len();
        while p > 0 && out[p - 1].track > t.track
            invariant
                p <= out@.len(),
                forall|j: int| p <= j < out@.len() ==> #[trigger] out@[j].track > t.track,
            decreases p,
        {
            p = p - 1;
        }
        assert(forall|j: int| 0 <= j < p ==> before[j].number <= x.number) by {
            if p > 0 {
                assert(before[p - 1].number <= x.number);
            }
        }
        out.insert(p, t);
        let ghost after = tracks_view(out@);
        assert(after =~= before.take(p as int) + seq![x] + before.skip(p as int));
        assert(before =~= before.take(p as int) + before.skip(p as int));
        assert(input.take(n + 1).drop_last() =~= input.take(n));
        assert(input.take(n + 1).last() == x);
        proof {
            reveal(Seq::filter);
            assert forall|k: u32| #[trigger] with_number(after, k) == with_number(input.take(n + 1), k) by {
                let lo = before.take(p as int);
                let hi = before.skip(p as int);
                let pred = |t: TrackView| t.number == k;
                Seq::filter_distributes_over_add(lo + seq![x], hi, pred);
                Seq::filter_distributes_over_add(lo, seq![x], pred);
                Seq::filter_distributes_over_add(lo, hi, pred);
                assert(with_number(before, k) == with_number(input.take(n), k));
                assert(seq![x].drop_last() =~= Seq::<TrackView>::empty());
                assert(with_number(Seq::<TrackView>::empty(), k) =~= Seq::<TrackView>::empty());
                if k == x.number {
                    lemma_none_with_number(hi, k);
                    assert(with_number(seq![x], k) =~= seq![x]);
                    assert(with_number(after, k) =~= with_number(before, k).push(x));
                } else {
                    assert(with_number(seq![x], k) =~= Seq::<TrackView>::empty());
                    assert(with_number(after, k) =~= with_number(before, k));
                }
            }
        }
        proof {
            n = n + 1;
        }
    }
    assert(input.take(n) =~= input);
    out
}

} // verus!
