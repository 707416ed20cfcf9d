//! The concrete syntax tree handed to the builder.
//!
//! Each node has a closed set of shapes, so an unknown tag cannot reach the
//! builder. Byte offsets are those of the source text.

use vstd::prelude::*;

verus! {

/// One unit of a text literal as the grammar produced it.
#[derive(Clone, Copy, Debug, PartialEq, Eq, Structural)]
pub enum TextUnit {
    /// A source character taken as it stands.
    Raw(char),
    /// An escape sequence; it carries the character that it stands for.
    Escaped(char),
}

/// What a text unit decodes to.
pub open spec fn unit_char(u: TextUnit) -> char {
    match u {
        TextUnit::Raw(c) => c,
        TextUnit::Escaped(c) => c,
    }
}

/// The characters of a text literal, in source order.
pub open spec fn decoded(units: Seq<TextUnit>) -> Seq<char> {
    units.map_values(|u: TextUnit| unit_char(u))
}

/// A node of the concrete syntax tree.
#[derive(Debug)]
pub enum Syntax {
    /// `keys: values`.
    Association { start: usize, end: usize, keys: Vec<Syntax>, values: Vec<Syntax> },
    /// `>X`: a shorthand reference; `operand` is its referenceable list.
    PrefixReference { start: usize, end: usize, operand: Vec<Syntax> },
    /// `A>B>C`: a chain of referenceable lists.
    Chain { start: usize, segments: Vec<Segment> },
    /// The distinguished literal.
    Cose { start: usize, end: usize },
    /// A text literal.
    Text { start: usize, end: usize, units: Vec<TextUnit> },
}

/// Whether every referenceable list in the tree is non-empty and every chain
/// has at least two segments, as the grammar guarantees.
pub open spec fn well_formed(s: Syntax) -> bool
    decreases s,
{
    match s {
        Syntax::Association { keys, values, .. } => {
            &&& forall|j: int| 0 <= j < keys.len() ==> well_formed(#[trigger] keys[j])
            &&& forall|j: int| 0 <= j < values.len() ==> well_formed(#[trigger] values[j])
        },
        Syntax::PrefixReference { operand, .. } => {
            &&& operand.len() > 0
            &&& forall|j: int| 0 <= j < operand.len() ==> well_formed(#[trigger] operand[j])
        },
        Syntax::Chain { segments, .. } => {
            &&& segments.len() >= 2
            &&& forall|k: int| 0 <= k < segments.len() ==> (#[trigger] segments[k]).items.len() > 0
            &&& forall|k: int, j: int|
                0 <= k < segments.len() && 0 <= j < segments[k].items.len() ==> well_formed(
                    #[trigger] segments[k].items[j],
                )
        },
        Syntax::Cose { .. } => true,
        Syntax::Text { .. } => true,
    }
}

/// How many arena entries building `s` adds: one for each association, text,
/// marker and prefix reference that is built, and one reference for each
/// chain segment after the first.
pub open spec fn built_count(s: Syntax) -> nat
    decreases s, 0int,
{
    match s {
        Syntax::Association { keys, values, .. } => 1 + list_count(keys, keys.len() as int) + list_count(
            values,
            values.len() as int,
        ),
        Syntax::PrefixReference { operand, .. } => 1 + referenceable_count(operand),
        Syntax::Chain { segments, .. } => chain_count(segments, segments.len() as int),
        Syntax::Cose { .. } => 1,
        Syntax::Text { .. } => 1,
    }
}

/// How many entries building the first `n` expressions of `items` adds.
pub open spec fn list_count(items: Vec<Syntax>, n: int) -> nat
    decreases items, n,
{
    if n <= 0 || n > items.len() {
        0
    } else {
        list_count(items, n - 1) + built_count(items[n - 1])
    }
}

/// How many entries building a referenceable list adds: a list led by a
/// prefix reference builds that reference alone.
pub open spec fn referenceable_count(items: Vec<Syntax>) -> nat
    decreases items, items.len() + 1,
{
    if items.len() > 0 && items[0] is PrefixReference {
        built_count(items[0])
    } else {
        list_count(items, items.len() as int)
    }
}

/// How many entries building the first `n` segments of a chain adds: each
/// segment's referenceable list, and a reference for each segment after the
/// first.
pub open spec fn chain_count(segments: Vec<Segment>, n: int) -> nat
    decreases segments, n,
{
    if n <= 0 || n > segments.len() {
        0
    } else if n == 1 {
        referenceable_count(segments[0].items)
    } else {
        chain_count(segments, n - 1) + referenceable_count(segments[n - 1].items) + 1
    }
}

/// Whether every expression of a list is well formed.
pub open spec fn all_well_formed(items: Seq<Syntax>) -> bool {
    forall|j: int| 0 <= j < items.len() ==> well_formed(#[trigger] items[j])
}

/// Tells whether a syntax node is well formed.
pub fn is_well_formed(s: &Syntax) -> (r: bool)
    ensures
        r == well_formed(*s),
    decreases s, 0int,
{
    match s {
        Syntax::Association { keys, values, .. } => are_well_formed(keys) && are_well_formed(values),
        Syntax::PrefixReference { operand, .. } => operand.len() > 0 && are_well_formed(operand),
        Syntax::Chain { segments, .. } => segments.len() >= 2 && are_segments_well_formed(segments),
        Syntax::Cose { .. } => true,
        Syntax::Text { .. } => true,
    }
}

/// Tells whether every segment of a chain is a non-empty list of well-formed
/// expressions.
fn are_segments_well_formed(segments: &Vec<Segment>) -> (r: bool)
    ensures
        r == ((forall|m: int| 0 <= m < segments.len() ==> (#[trigger] segments[m]).items.len() > 0)
            && (forall|m: int, j: int|
            0 <= m < segments.len() && 0 <= j < segments[m].items.len() ==> well_formed(
                #[trigger] segments[m].items[j],
            ))),
    decreases segments, 1int,
{
    let mut k: usize = 0;
    while k < segments.len()
        invariant
            k <= segments.len(),
            forall|m: int| 0 <= m < k ==> (#[trigger] segments[m]).items.len() > 0,
            forall|m: int, j: int|
                0 <= m < k && 0 <= j < segments[m].items.len() ==> well_formed(
                    #[trigger] segments[m].items[j],
                ),
        decreases segments.len() - k,
    {
        if segments[k].items.len() == 0 {
            return false;
        }
        if !are_well_formed(&segments[k].items) {
            assert(exists|j: int|
                0 <= j < segments[k as int].items.len() && !well_formed(
                    #[trigger] segments[k as int].items[j],
                ));
            return false;
        }
        k += 1;
    }
    true
}

/// Tells whether every expression of a list is well formed.
pub fn are_well_formed(items: &Vec<Syntax>) -> (r: bool)
    ensures
        r == all_well_formed(items@),
    decreases items, 1int,
{
    let mut j: usize = 0;
    while j < items.len()
        invariant
            j <= items.len(),
            forall|m: int| 0 <= m < j ==> well_formed(#[trigger] items@[m]),
        decreases items.len() - j,
    {
        if !is_well_formed(&items[j]) {
            return false;
        }
        j += 1;
    }
    true
}

/// One segment of a chain: a referenceable list and the byte offset where it ends.
#[derive(Debug)]
pub struct Segment {
    pub end: usize,
    pub items: Vec<Syntax>,
}

/// An entry of an expression list before grouping wrappers are removed.
#[derive(Debug)]
pub enum Element {
    Single(Syntax),
    /// A transparent grouping wrapper: its children stand in its place.
    Group(Vec<Syntax>),
}

/// The expressions that an element stands for.
pub open spec fn element_items(e: Element) -> Seq<Syntax> {
    match e {
        Element::Single(s) => seq![s],
        Element::Group(g) => g@,
    }
}

/// The list of expressions that a list of elements stands for.
pub open spec fn flattened(items: Seq<Element>) -> Seq<Syntax>
    decreases items.len(),
{
    if items.len() == 0 {
        Seq::empty()
    } else {
        element_items(items[0]) + flattened(items.drop_first())
    }
}

/// Replaces each grouping wrapper by its children, keeping the order.
pub fn substitute_groups(items: Vec<Element>) -> (r: Vec<Syntax>)
    ensures
        r@ == flattened(items@),
{
    let ghost all = items@;
    let mut rest = items;
    let mut r: Vec<Syntax> = Vec::new();
    while rest.len() > 0
        invariant
            r@ + flattened(rest@) == flattened(all),
        decreases rest.len(),
    {
        let ghost before = rest@;
        let e = rest.remove(0);
        assert(before.drop_first() == rest@);
        match e {
            Element::Single(s) => {
                r.push(s);
                assert(r@ + flattened(rest@) == flattened(all));
            },
            Element::Group(g) => {
                let mut g = g;
                while g.len() > 0
                    invariant
                        r@ + g@ + flattened(rest@) == flattened(all),
                    decreases g.len(),
                {
                    let ghost gb = g@;
                    let s = g.remove(0);
                    r.push(s);
                    assert(gb == seq![s] + g@);
                }
                assert(r@ + g@ == r@);
            },
        }
    }
    assert(r@ + flattened(rest@) == r@);
    r
}

} // verus!
