//! Properties of every arena that the builder produces.

use vstd::prelude::*;

use crate::parser::{
    Entry,
    Expression,
    denotes,
    denotes_all,
    denotes_link,
    denotes_referenceables,
    extends,
    scoped,
    scoped_in,
    entry_scoped,
    lemma_frame,
    lemma_extends_agrees,
};
use crate::syntax::{Segment, Syntax, built_count, chain_count, list_count, referenceable_count};

verus! {

/// Whether entry `i` heads `n` references nested one inside the other: each
/// but the innermost has, as its only association, the next one, built
/// before it.
pub open spec fn reference_nest(a: Seq<Entry>, i: int, n: int) -> bool
    decreases n,
{
    &&& 0 <= i < a.len()
    &&& n >= 1
    &&& match a[i].expression {
        Expression::Reference { associations, .. } => n == 1 || {
            &&& associations@.len() == 1
            &&& associations@[0] < i
            &&& reference_nest(a, associations@[0] as int, n - 1)
        },
        _ => false,
    }
}

/// An index keeps what it was built to: whatever is built into the arena
/// later, the entry it names, and everything that entry reaches, still stand
/// for the same syntax.
pub proof fn lemma_index_stability(
    a: Seq<Entry>,
    b: Seq<Entry>,
    lo: int,
    i: int,
    s: Syntax,
    parent: Option<usize>,
)
    requires
        0 <= lo,
        extends(a, b),
        denotes(a, lo, i, s, parent),
    ensures
        denotes(b, lo, i, s, parent),
        b[i] == a[i],
{
    lemma_extends_agrees(a, b, lo);
    lemma_frame(a, b, lo, lo, i, s, parent);
}

/// The scoping rule: an association's keys resolve in the association's own
/// scope, its values inside the association.
pub proof fn lemma_scope_asymmetry(a: Seq<Entry>, i: int)
    requires
        scoped(a),
        0 <= i < a.len(),
        a[i].expression is Association,
    ensures
        match a[i].expression {
            Expression::Association { parent, keys, values } => {
                &&& forall|j: int|
                    0 <= j < keys.len() ==> scoped_in(a[#[trigger] keys@[j] as int].expression, parent)
                &&& forall|j: int|
                    0 <= j < values.len() ==> scoped_in(
                        a[#[trigger] values@[j] as int].expression,
                        Some(i as usize),
                    )
            },
            _ => false,
        },
{
    assert(entry_scoped(a, i));
}

proof fn lemma_link_nest(
    a: Seq<Entry>,
    lo: int,
    i: int,
    start: usize,
    segments: Vec<Segment>,
    n: int,
    parent: Option<usize>,
)
    requires
        0 <= lo,
        denotes_link(a, lo, i, start, segments, n, parent),
    ensures
        reference_nest(a, i, n),
    decreases n,
{
    if n > 1 {
        match a[i].expression {
            Expression::Reference { associations, .. } => {
                lemma_link_nest(a, lo, associations@[0] as int, start, segments, n - 1, parent);
            },
            _ => {},
        }
    }
}

/// A chain of `N` segments builds to `N - 1` references, each nested one
/// level inside the next; the index it returns is the outermost.
pub proof fn lemma_chain_fold_shape(
    a: Seq<Entry>,
    lo: int,
    i: int,
    start: usize,
    segments: Vec<Segment>,
    parent: Option<usize>,
)
    requires
        0 <= lo,
        denotes(a, lo, i, Syntax::Chain { start, segments }, parent),
    ensures
        segments.len() >= 2,
        reference_nest(a, i, segments.len() - 1),
{
    lemma_link_nest(a, lo, i, start, segments, segments.len() - 1, parent);
}

/// A referenceable list led by a prefix reference builds to that reference
/// alone, however many siblings follow it: they add no entry.
pub proof fn lemma_prefix_absorption(
    a: Seq<Entry>,
    lo: int,
    ix: Seq<usize>,
    items: Vec<Syntax>,
    parent: Option<usize>,
)
    requires
        items.len() > 0,
        items[0] is PrefixReference,
        denotes_referenceables(a, lo, ix, items, parent),
    ensures
        ix.len() == 1,
        denotes(a, lo, ix[0] as int, items[0], parent),
        a[ix[0] as int].expression is PrefixReference,
        referenceable_count(items) == built_count(items[0]),
{
}

/// Keys and values keep source order: the `j`th key or value of a built
/// association is what the `j`th key or value of its syntax built to, each
/// built right after the one before.
pub proof fn lemma_order_preservation(
    a: Seq<Entry>,
    lo: int,
    i: int,
    start: usize,
    end: usize,
    keys: Vec<Syntax>,
    values: Vec<Syntax>,
    parent: Option<usize>,
)
    requires
        denotes(a, lo, i, Syntax::Association { start, end, keys, values }, parent),
    ensures
        i == lo,
        match a[i].expression {
            Expression::Association { keys: ks, values: vs, .. } => {
                &&& denotes_all(a, lo + 1, ks@, keys, parent)
                &&& denotes_all(a, lo + 1 + list_count(keys, keys.len() as int), vs@, values, Some(i as usize))
            },
            _ => false,
        },
{
}

proof fn lemma_list_count_monotone(items: Vec<Syntax>, j: int, k: int)
    requires
        0 <= j <= k <= items.len(),
    ensures
        list_count(items, j) <= list_count(items, k),
    decreases k - j,
{
    if j < k {
        lemma_list_count_monotone(items, j, k - 1);
    }
}

/// Indices are never shared: the expressions of a list build to strictly
/// increasing indices, all within the indices that the list's build takes.
pub proof fn lemma_distinct_results(
    a: Seq<Entry>,
    lo: int,
    ix: Seq<usize>,
    items: Vec<Syntax>,
    parent: Option<usize>,
)
    requires
        denotes_all(a, lo, ix, items, parent),
    ensures
        forall|j: int, k: int| 0 <= j < k < ix.len() ==> ix[j] < ix[k],
        forall|j: int| 0 <= j < ix.len() ==> lo <= #[trigger] ix[j] < lo + list_count(items, items.len() as int),
        ix.no_duplicates(),
{
    assert forall|j: int, k: int| 0 <= j < k < ix.len() implies ix[j] < ix[k] by {
        assert(denotes(a, lo + list_count(items, j), ix[j] as int, items[j], parent));
        assert(denotes(a, lo + list_count(items, k), ix[k] as int, items[k], parent));
        assert(list_count(items, j + 1) == list_count(items, j) + built_count(items[j]));
        lemma_list_count_monotone(items, j + 1, k);
    }
    assert forall|j: int| 0 <= j < ix.len() implies lo <= #[trigger] ix[j] < lo + list_count(
        items,
        items.len() as int,
    ) by {
        assert(denotes(a, lo + list_count(items, j), ix[j] as int, items[j], parent));
        assert(list_count(items, j + 1) == list_count(items, j) + built_count(items[j]));
        lemma_list_count_monotone(items, 0, j);
        lemma_list_count_monotone(items, j + 1, items.len() as int);
    }
}

/// An association's keys and values are distinct indices, every key comes
/// before every value, and neither side holds the association itself.
pub proof fn lemma_association_children_disjoint(
    a: Seq<Entry>,
    lo: int,
    i: int,
    start: usize,
    end: usize,
    keys: Vec<Syntax>,
    values: Vec<Syntax>,
    parent: Option<usize>,
)
    requires
        denotes(a, lo, i, Syntax::Association { start, end, keys, values }, parent),
    ensures
        match a[i].expression {
            Expression::Association { keys: ks, values: vs, .. } => {
                &&& ks@.no_duplicates()
                &&& vs@.no_duplicates()
                &&& forall|j: int| 0 <= j < ks.len() ==> i < #[trigger] ks@[j]
                &&& forall|j: int, k: int| 0 <= j < ks.len() && 0 <= k < vs.len() ==> #[trigger] ks@[j] < #[trigger] vs@[k]
            },
            _ => false,
        },
{
    match a[i].expression {
        Expression::Association { keys: ks, values: vs, .. } => {
            let lv = lo + 1 + list_count(keys, keys.len() as int);
            lemma_distinct_results(a, lo + 1, ks@, keys, parent);
            lemma_distinct_results(a, lv, vs@, values, Some(i as usize));
            assert forall|j: int, k: int| 0 <= j < ks.len() && 0 <= k < vs.len() implies #[trigger] ks@[j]
                < #[trigger] vs@[k] by {
                assert(ks@[j] < lv);
                assert(lv <= vs@[k]);
            }
        },
        _ => {},
    }
}

/// The referenceable lists of a chain's segments, built one after the other.
pub open spec fn segments_count(segments: Vec<Segment>, n: int) -> nat
    decreases n,
{
    if n <= 0 || n > segments.len() {
        0
    } else {
        segments_count(segments, n - 1) + referenceable_count(segments[n - 1].items)
    }
}

/// A chain of `N` segments adds to the arena its segments' builds and
/// exactly `N - 1` more entries: its references.
pub proof fn lemma_chain_adds_references(start: usize, segments: Vec<Segment>)
    requires
        segments.len() >= 2,
    ensures
        built_count(Syntax::Chain { start, segments }) == segments_count(segments, segments.len() as int)
            + segments.len() - 1,
{
    lemma_chain_count(segments, segments.len() as int);
}

proof fn lemma_chain_count(segments: Vec<Segment>, n: int)
    requires
        1 <= n <= segments.len(),
    ensures
        chain_count(segments, n) == segments_count(segments, n) + n - 1,
    decreases n,
{
    if n > 1 {
        lemma_chain_count(segments, n - 1);
    } else {
        assert(segments_count(segments, 0) == 0);
    }
}

/// The index that a node built from index `lo` on lands at: an association,
/// text or marker is allocated first, a reference after what it looks up.
pub open spec fn root_index(lo: int, s: Syntax) -> int {
    match s {
        Syntax::PrefixReference { operand, .. } => lo + referenceable_count(operand),
        Syntax::Chain { .. } => lo + built_count(s) - 1,
        _ => lo,
    }
}

/// Where a build lands does not depend on the arena: two builds of the same
/// list from the same index return the same indices.
pub proof fn lemma_indices_determined(
    a: Seq<Entry>,
    b: Seq<Entry>,
    lo: int,
    ix: Seq<usize>,
    iy: Seq<usize>,
    items: Vec<Syntax>,
    parent: Option<usize>,
)
    requires
        denotes_all(a, lo, ix, items, parent),
        denotes_all(b, lo, iy, items, parent),
    ensures
        ix == iy,
        forall|j: int| 0 <= j < ix.len() ==> #[trigger] ix[j] == root_index(lo + list_count(items, j), items[j]),
{
    assert forall|j: int| 0 <= j < ix.len() implies #[trigger] ix[j] == root_index(
        lo + list_count(items, j),
        items[j],
    ) && ix[j] == iy[j] by {
        assert(denotes(a, lo + list_count(items, j), ix[j] as int, items[j], parent));
        assert(denotes(b, lo + list_count(items, j), iy[j] as int, items[j], parent));
    }
    assert(ix =~= iy);
}

} // verus!
