//! The arena's boundaries in document order, for presentation.

use vstd::prelude::*;

use crate::parser::Entry;

verus! {

/// Where an entry's byte range starts (`is_start`) or ends.
#[derive(Clone, Copy, Debug, PartialEq, Eq, Structural)]
pub struct Event {
    pub index: usize,
    pub position: usize,
    pub is_start: bool,
}

/// The start event of entry `k`.
pub open spec fn start_event(a: Seq<Entry>, k: int) -> Event {
    Event { index: k as usize, position: a[k].start, is_start: true }
}

/// The end event of entry `k`.
pub open spec fn end_event(a: Seq<Entry>, k: int) -> Event {
    Event { index: k as usize, position: a[k].end, is_start: false }
}

/// The sort key of an event. Events go by position. At one position, ends of
/// non-empty ranges come first, then starts (wider ranges first, and of two
/// equal ranges the later entry, which surrounds the earlier), then ends of
/// empty ranges (in the opposite order of their starts), so that every
/// entry opens before it closes and ranges nest.
pub open spec fn rank(a: Seq<Entry>, e: Event) -> (int, int, int, int) {
    let s = a[e.index as int].start as int;
    let t = a[e.index as int].end as int;
    if e.is_start {
        (e.position as int, 1, usize::MAX - t, usize::MAX - e.index)
    } else if s == t {
        (e.position as int, 2, 0, e.index as int)
    } else {
        (e.position as int, 0, usize::MAX - s, e.index as int)
    }
}

/// Lexicographic order on keys.
pub open spec fn rank_le(x: (int, int, int, int), y: (int, int, int, int)) -> bool {
    ||| x.0 < y.0
    ||| x.0 == y.0 && x.1 < y.1
    ||| x.0 == y.0 && x.1 == y.1 && x.2 < y.2
    ||| x.0 == y.0 && x.1 == y.1 && x.2 == y.2 && x.3 <= y.3
}

/// Whether `r` lists events of `a` in document order.
pub open spec fn in_document_order(a: Seq<Entry>, r: Seq<Event>) -> bool {
    forall|i: int, j: int| 0 <= i < j < r.len() ==> rank_le(#[trigger] rank(a, r[i]), #[trigger] rank(a, r[j]))
}

/// Whether `r` holds the start and the end of every entry of `a`.
pub open spec fn has_boundaries(a: Seq<Entry>, r: Seq<Event>) -> bool {
    forall|k: int| 0 <= k < a.len() ==> r.contains(#[trigger] start_event(a, k)) && r.contains(end_event(a, k))
}

/// Whether every event of `r` names an entry of `a`.
pub open spec fn events_in(a: Seq<Entry>, r: Seq<Event>) -> bool {
    forall|i: int| 0 <= i < r.len() ==> (#[trigger] r[i]).index < a.len()
}

/// The sort key of an event, as `rank` gives it.
fn key(a: &Vec<Entry>, e: Event) -> (r: (usize, usize, usize, usize))
    requires
        e.index < a.len(),
    ensures
        (r.0 as int, r.1 as int, r.2 as int, r.3 as int) == rank(a@, e),
{
    let s = a[e.index].start;
    let t = a[e.index].end;
    if e.is_start {
        (e.position, 1, usize::MAX - t, usize::MAX - e.index)
    } else if s == t {
        (e.position, 2, 0, e.index)
    } else {
        (e.position, 0, usize::MAX - s, e.index)
    }
}

/// Whether event `x` comes no later than event `y`.
fn precedes(a: &Vec<Entry>, x: Event, y: Event) -> (r: bool)
    requires
        x.index < a.len(),
        y.index < a.len(),
    ensures
        r == rank_le(rank(a@, x), rank(a@, y)),
{
    let p = key(a, x);
    let q = key(a, y);
    p.0 < q.0 || (p.0 == q.0 && (p.1 < q.1 || (p.1 == q.1 && (p.2 < q.2 || (p.2 == q.2 && p.3 <= q.3)))))
}

/// Inserts `e` into an ordered list, after every event that does not come
/// later than it.
fn insert_ordered(a: &Vec<Entry>, r: &mut Vec<Event>, e: Event)
    requires
        e.index < a.len(),
        events_in(a@, old(r)@),
        in_document_order(a@, old(r)@),
    ensures
        events_in(a@, final(r)@),
        in_document_order(a@, final(r)@),
        exists|p: int| 0 <= p <= old(r).len() && final(r)@ == old(r)@.insert(p, e),
{
    let mut p: usize = 0;
    while p < r.len() && precedes(a, r[p], e)
        invariant
            p <= r.len(),
            e.index < a.len(),
            r@ == old(r)@,
            events_in(a@, r@),
            in_document_order(a@, r@),
            forall|i: int| 0 <= i < p ==> rank_le(#[trigger] rank(a@, r@[i]), rank(a@, e)),
        decreases r.len() - p,
    {
        p += 1;
    }
    let ghost before = r@;
    r.insert(p, e);
    proof {
        let after = r@;
        assert forall|i: int, j: int| 0 <= i < j < after.len() implies rank_le(
            #[trigger] rank(a@, after[i]),
            #[trigger] rank(a@, after[j]),
        ) by {
            if p < before.len() {
                assert(!rank_le(rank(a@, before[p as int]), rank(a@, e)));
            }
            if j < p {
                assert(after[i] == before[i] && after[j] == before[j]);
            } else if i > p {
                assert(after[i] == before[i - 1] && after[j] == before[j - 1]);
            } else if i == p {
                assert(after[j] == before[j - 1]);
                assert(rank_le(rank(a@, before[p as int]), rank(a@, before[j - 1])) || j - 1 == p);
            } else {
                assert(after[i] == before[i]);
                if j > p {
                    assert(after[j] == before[j - 1]);
                    assert(rank_le(rank(a@, before[i]), rank(a@, before[j - 1])));
                }
            }
        }
    }
}

/// Every entry's start and end, in document order.
pub fn document_order(a: &Vec<Entry>) -> (r: Vec<Event>)
    ensures
        in_document_order(a@, r@),
        r.len() == 2 * a.len(),
        has_boundaries(a@, r@),
{
    let mut r: Vec<Event> = Vec::new();
    let mut k: usize = 0;
    while k < a.len()
        invariant
            k <= a.len(),
            r.len() == 2 * k,
            events_in(a@, r@),
            in_document_order(a@, r@),
            forall|m: int|
                0 <= m < k ==> r@.contains(#[trigger] start_event(a@, m)) && r@.contains(
                    end_event(a@, m),
                ),
        decreases a.len() - k,
    {
        let ghost r0 = r@;
        let s = Event { index: k, position: a[k].start, is_start: true };
        assert(s == start_event(a@, k as int));
        insert_ordered(a, &mut r, s);
        let ghost r1 = r@;
        let e = Event { index: k, position: a[k].end, is_start: false };
        assert(e == end_event(a@, k as int));
        insert_ordered(a, &mut r, e);
        proof {
            let r2 = r@;
            let p1 = choose|p: int| 0 <= p <= r0.len() && r1 == r0.insert(p, start_event(a@, k as int));
            let p2 = choose|p: int| 0 <= p <= r1.len() && r2 == r1.insert(p, end_event(a@, k as int));
            assert(r1[p1] == start_event(a@, k as int));
            assert(r2[p2] == end_event(a@, k as int));
            assert forall|m: int| 0 <= m <= k implies r2.contains(#[trigger] start_event(a@, m))
                && r2.contains(end_event(a@, m)) by {
                if m < k {
                    let i1 = choose|i: int| 0 <= i < r0.len() && r0[i] == start_event(a@, m);
                    let j1 = if i1 < p1 { i1 } else { i1 + 1 };
                    assert(r1[j1] == start_event(a@, m));
                    let i2 = if j1 < p2 { j1 } else { j1 + 1 };
                    assert(r2[i2] == start_event(a@, m));
                    let e1 = choose|i: int| 0 <= i < r0.len() && r0[i] == end_event(a@, m);
                    let f1 = if e1 < p1 { e1 } else { e1 + 1 };
                    assert(r1[f1] == end_event(a@, m));
                    let f2 = if f1 < p2 { f1 } else { f1 + 1 };
                    assert(r2[f2] == end_event(a@, m));
                } else {
                    let i2 = if p1 < p2 { p1 } else { p1 + 1 };
                    assert(r2[i2] == start_event(a@, m));
                    assert(r2[p2] == end_event(a@, m));
                }
            }
        }
        k += 1;
    }
    assert(has_boundaries(a@, r@));
    r
}

} // verus!
