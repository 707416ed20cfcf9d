//! The semantic arena and the builder that fills it from the syntax tree.

use vstd::prelude::*;

use crate::order::{Event, document_order, has_boundaries, in_document_order};
use crate::syntax::{
    Segment,
    Syntax,
    TextUnit,
    all_well_formed,
    built_count,
    chain_count,
    decoded,
    list_count,
    referenceable_count,
    unit_char,
    well_formed,
};

verus! {

/// A node of the semantic arena. Indices in `keys`, `values` and
/// `associations` name other entries of the same arena; `parent` names the
/// association whose scope the node resolves in.
#[derive(Debug)]
pub enum Expression {
    Association { parent: Option<usize>, keys: Vec<usize>, values: Vec<usize> },
    Reference { parent: Option<usize>, associations: Vec<usize>, keys: Vec<usize> },
    PrefixReference { parent: Option<usize>, keys: Vec<usize> },
    Cose,
    Text(String),
}

/// An arena entry: a node and the byte range of source it was built from.
#[derive(Debug)]
pub struct Entry {
    pub start: usize,
    pub end: usize,
    pub expression: Expression,
}

/// The scope a node names, for the kinds of node that carry one.
pub open spec fn parent_of(e: Expression) -> Option<Option<usize>> {
    match e {
        Expression::Association { parent, .. } => Some(parent),
        Expression::Reference { parent, .. } => Some(parent),
        Expression::PrefixReference { parent, .. } => Some(parent),
        Expression::Cose => None,
        Expression::Text(_) => None,
    }
}

/// Whether a node resolves in scope `p` (nodes without a scope always do).
pub open spec fn scoped_in(e: Expression, p: Option<usize>) -> bool {
    match parent_of(e) {
        Some(q) => q == p,
        None => true,
    }
}

/// Whether every index of `ix` names an entry of `a`.
pub open spec fn indices_in(a: Seq<Entry>, ix: Seq<usize>) -> bool {
    forall|j: int| 0 <= j < ix.len() ==> #[trigger] ix[j] < a.len()
}

/// The scoping rule at entry `i`: its scope is an earlier association; an
/// association's keys resolve in its own scope, its values inside it; all
/// children exist.
pub open spec fn entry_scoped(a: Seq<Entry>, i: int) -> bool {
    &&& match parent_of(a[i].expression) {
        Some(Some(q)) => q < i && a[q as int].expression is Association,
        _ => true,
    }
    &&& match a[i].expression {
        Expression::Association { parent, keys, values } => {
            &&& indices_in(a, keys@)
            &&& indices_in(a, values@)
            &&& forall|j: int|
                0 <= j < keys.len() ==> scoped_in(a[#[trigger] keys@[j] as int].expression, parent)
            &&& forall|j: int|
                0 <= j < values.len() ==> scoped_in(
                    a[#[trigger] values@[j] as int].expression,
                    Some(i as usize),
                )
        },
        Expression::Reference { associations, keys, .. } => {
            &&& indices_in(a, associations@)
            &&& indices_in(a, keys@)
        },
        Expression::PrefixReference { keys, .. } => indices_in(a, keys@),
        _ => true,
    }
}

/// The arena invariant: every entry obeys the scoping rule.
pub open spec fn scoped(a: Seq<Entry>) -> bool {
    forall|i: int| 0 <= i < a.len() ==> #[trigger] entry_scoped(a, i)
}

/// Whether `b` keeps every entry of `a` at its index.
pub open spec fn extends(a: Seq<Entry>, b: Seq<Entry>) -> bool {
    &&& a.len() <= b.len()
    &&& forall|k: int| 0 <= k < a.len() ==> b[k] == a[k]
}

/// Whether `p` may serve as the scope of new entries of `a`.
pub open spec fn valid_parent(a: Seq<Entry>, p: Option<usize>) -> bool {
    match p {
        Some(q) => q < a.len() && a[q as int].expression is Association,
        None => true,
    }
}

/// Whether syntax node `s`, built in scope `parent` into arena `a` from
/// index `lo` on, gave entry `i` and the entries it reaches. A build takes the
/// indices `lo .. lo + built_count(s)`, in the order the builder allocates
/// them, so every index below is fixed by `lo` and the syntax alone.
pub open spec fn denotes(a: Seq<Entry>, lo: int, i: int, s: Syntax, parent: Option<usize>) -> bool
    decreases s, 0int,
{
    &&& lo <= i < lo + built_count(s)
    &&& i < a.len()
    &&& match s {
        Syntax::Association { start, end, keys, values } => {
            &&& i == lo
            &&& a[i].start == start
            &&& a[i].end == end
            &&& match a[i].expression {
                Expression::Association { parent: p, keys: ks, values: vs } => {
                    &&& p == parent
                    &&& denotes_all(a, lo + 1, ks@, keys, parent)
                    &&& denotes_all(
                        a,
                        lo + 1 + list_count(keys, keys.len() as int),
                        vs@,
                        values,
                        Some(i as usize),
                    )
                },
                _ => false,
            }
        },
        Syntax::PrefixReference { start, end, operand } => {
            &&& i == lo + referenceable_count(operand)
            &&& a[i].start == start
            &&& a[i].end == end
            &&& match a[i].expression {
                Expression::PrefixReference { parent: p, keys: ks } => {
                    &&& p == parent
                    &&& denotes_referenceables(a, lo, ks@, operand, parent)
                },
                _ => false,
            }
        },
        Syntax::Chain { start, segments } => {
            &&& segments.len() >= 2
            &&& denotes_link(a, lo, i, start, segments, segments.len() - 1, parent)
        },
        Syntax::Cose { start, end } => {
            &&& i == lo
            &&& a[i].start == start
            &&& a[i].end == end
            &&& a[i].expression is Cose
        },
        Syntax::Text { start, end, units } => {
            &&& i == lo
            &&& a[i].start == start
            &&& a[i].end == end
            &&& match a[i].expression {
                Expression::Text(t) => t@ == decoded(units@),
                _ => false,
            }
        },
    }
}

/// Whether `ix` lists, in order, what each expression of `items` built to,
/// one after the other from index `lo` on.
pub open spec fn denotes_all(
    a: Seq<Entry>,
    lo: int,
    ix: Seq<usize>,
    items: Vec<Syntax>,
    parent: Option<usize>,
) -> bool
    decreases items, 0int,
{
    &&& ix.len() == items.len()
    &&& forall|j: int|
        0 <= j < ix.len() ==> denotes(a, lo + list_count(items, j), #[trigger] ix[j] as int, items[j], parent)
}

/// What a referenceable list builds to: a list led by a prefix reference is
/// that reference alone; any other list is all of its expressions.
pub open spec fn denotes_referenceables(
    a: Seq<Entry>,
    lo: int,
    ix: Seq<usize>,
    items: Vec<Syntax>,
    parent: Option<usize>,
) -> bool
    decreases items, 1int,
{
    if items.len() > 0 && items[0] is PrefixReference {
        ix.len() == 1 && denotes(a, lo, ix[0] as int, items[0], parent)
    } else {
        denotes_all(a, lo, ix, items, parent)
    }
}

/// Whether entry `i` is the `n`th reference of a chain built from index `lo`
/// on, starting at byte `start`: it looks up segment `n` within the first
/// segment (when `n` is 1) or within the reference one level shallower, which
/// is its only association. It comes right after segment `n`'s entries.
pub open spec fn denotes_link(
    a: Seq<Entry>,
    lo: int,
    i: int,
    start: usize,
    segments: Vec<Segment>,
    n: int,
    parent: Option<usize>,
) -> bool
    decreases segments, n,
{
    &&& 1 <= n < segments.len()
    &&& i == lo + chain_count(segments, n + 1) - 1
    &&& 0 <= i < a.len()
    &&& a[i].start == start
    &&& a[i].end == segments[n].end
    &&& match a[i].expression {
        Expression::Reference { parent: p, associations: asc, keys: ks } => {
            &&& p == parent
            &&& denotes_referenceables(a, lo + chain_count(segments, n), ks@, segments[n].items, parent)
            &&& if n == 1 {
                denotes_referenceables(a, lo, asc@, segments[0].items, parent)
            } else {
                &&& asc@.len() == 1
                &&& asc@[0] == lo + chain_count(segments, n) - 1
                &&& denotes_link(a, lo, asc@[0] as int, start, segments, n - 1, parent)
            }
        },
        _ => false,
    }
}

/// Whether `b` holds the entries of `a` from `lo` on.
pub open spec fn agrees_from(a: Seq<Entry>, b: Seq<Entry>, lo: int) -> bool {
    &&& a.len() <= b.len()
    &&& forall|k: int| lo <= k < a.len() ==> b[k] == a[k]
}

/// An arena that keeps every earlier entry agrees with it from any point on.
pub(crate) proof fn lemma_extends_agrees(a: Seq<Entry>, b: Seq<Entry>, lo: int)
    requires
        extends(a, b),
        0 <= lo,
    ensures
        agrees_from(a, b, lo),
{
}

/// What a node was built to stays true in any arena that holds the same
/// entries from `agree` on, where `agree` is at most where its build began.
pub(crate) proof fn lemma_frame(
    a: Seq<Entry>,
    b: Seq<Entry>,
    agree: int,
    lo: int,
    i: int,
    s: Syntax,
    parent: Option<usize>,
)
    requires
        agree <= lo,
        agrees_from(a, b, agree),
        denotes(a, lo, i, s, parent),
    ensures
        denotes(b, lo, i, s, parent),
    decreases s, 0int,
{
    match s {
        Syntax::Association { keys, values, .. } => {
            match a[i].expression {
                Expression::Association { keys: ks, values: vs, .. } => {
                    lemma_frame_all(a, b, agree, lo + 1, ks@, keys, parent);
                    lemma_frame_all(
                        a,
                        b,
                        agree,
                        lo + 1 + list_count(keys, keys.len() as int),
                        vs@,
                        values,
                        Some(i as usize),
                    );
                },
                _ => {},
            }
        },
        Syntax::PrefixReference { operand, .. } => {
            match a[i].expression {
                Expression::PrefixReference { keys: ks, .. } => {
                    lemma_frame_referenceables(a, b, agree, lo, ks@, operand, parent);
                },
                _ => {},
            }
        },
        Syntax::Chain { start, segments } => {
            lemma_frame_link(a, b, agree, lo, i, start, segments, segments.len() - 1, parent);
        },
        _ => {},
    }
}

proof fn lemma_frame_all(
    a: Seq<Entry>,
    b: Seq<Entry>,
    agree: int,
    lo: int,
    ix: Seq<usize>,
    items: Vec<Syntax>,
    parent: Option<usize>,
)
    requires
        agree <= lo,
        agrees_from(a, b, agree),
        denotes_all(a, lo, ix, items, parent),
    ensures
        denotes_all(b, lo, ix, items, parent),
    decreases items, 0int,
{
    assert forall|j: int| 0 <= j < ix.len() implies denotes(
        b,
        lo + list_count(items, j),
        #[trigger] ix[j] as int,
        items[j],
        parent,
    ) by {
        lemma_frame(a, b, agree, lo + list_count(items, j), ix[j] as int, items[j], parent);
    }
}

proof fn lemma_frame_referenceables(
    a: Seq<Entry>,
    b: Seq<Entry>,
    agree: int,
    lo: int,
    ix: Seq<usize>,
    items: Vec<Syntax>,
    parent: Option<usize>,
)
    requires
        agree <= lo,
        agrees_from(a, b, agree),
        denotes_referenceables(a, lo, ix, items, parent),
    ensures
        denotes_referenceables(b, lo, ix, items, parent),
    decreases items, 1int,
{
    if items.len() > 0 && items[0] is PrefixReference {
        lemma_frame(a, b, agree, lo, ix[0] as int, items[0], parent);
    } else {
        lemma_frame_all(a, b, agree, lo, ix, items, parent);
    }
}

proof fn lemma_frame_link(
    a: Seq<Entry>,
    b: Seq<Entry>,
    agree: int,
    lo: int,
    i: int,
    start: usize,
    segments: Vec<Segment>,
    n: int,
    parent: Option<usize>,
)
    requires
        agree <= lo,
        agrees_from(a, b, agree),
        denotes_link(a, lo, i, start, segments, n, parent),
    ensures
        denotes_link(b, lo, i, start, segments, n, parent),
    decreases segments, n,
{
    match a[i].expression {
        Expression::Reference { associations: asc, keys: ks, .. } => {
            lemma_frame_referenceables(
                a,
                b,
                agree,
                lo + chain_count(segments, n),
                ks@,
                segments[n].items,
                parent,
            );
            if n == 1 {
                lemma_frame_referenceables(a, b, agree, lo, asc@, segments[0].items, parent);
            } else {
                lemma_frame_link(a, b, agree, lo, asc@[0] as int, start, segments, n - 1, parent);
            }
        },
        _ => {},
    }
}

/// Appending an entry that obeys the scoping rule keeps the arena invariant.
proof fn lemma_push_scoped(a: Seq<Entry>, e: Entry)
    requires
        scoped(a),
        entry_scoped(a.push(e), a.len() as int),
    ensures
        scoped(a.push(e)),
        extends(a, a.push(e)),
{
    let b = a.push(e);
    assert forall|i: int| 0 <= i < b.len() implies #[trigger] entry_scoped(b, i) by {
        if i < a.len() {
            assert(entry_scoped(a, i));
            assert(b[i] == a[i]);
            match a[i].expression {
                Expression::Association { parent, keys, values } => {
                    assert(forall|j: int| 0 <= j < keys.len() ==> b[#[trigger] keys@[j] as int] == a[keys@[j] as int]);
                    assert(forall|j: int| 0 <= j < values.len() ==> b[#[trigger] values@[j] as int] == a[values@[j] as int]);
                },
                _ => {},
            }
        }
    }
}

/// Filling in a placeholder association, with its scope unchanged, keeps the
/// arena invariant when the filled entry obeys the scoping rule.
proof fn lemma_patch_scoped(a: Seq<Entry>, idx: int, e: Entry)
    requires
        scoped(a),
        0 <= idx < a.len(),
        a[idx].expression is Association,
        e.expression is Association,
        parent_of(e.expression) == parent_of(a[idx].expression),
        entry_scoped(a.update(idx, e), idx),
    ensures
        scoped(a.update(idx, e)),
{
    let b = a.update(idx, e);
    assert forall|i: int| 0 <= i < b.len() implies #[trigger] entry_scoped(b, i) by {
        if i != idx {
            assert(entry_scoped(a, i));
            assert(b[i] == a[i]);
            assert(forall|k: int| 0 <= k < a.len() ==> parent_of(#[trigger] b[k].expression) == parent_of(a[k].expression));
        }
    }
}

/// Relies on `String`'s `FromIterator<char>`: the characters are appended in order.
#[verifier::external_body]
fn string_from_chars(chars: Vec<char>) -> (r: String)
    ensures
        r@ == chars@,
{
    chars.into_iter().collect()
}

/// A placeholder for the notation's parser. It has no behaviour here:
/// parsing runs outside the library, with the grammar derived onto a copy of
/// this type, and the builder takes the tree that it produced.
pub struct CoseParser;

/// The builder: the arena filled so far, and the indices of the top-level
/// expressions of the units built into it.
pub struct Builder {
    expressions: Vec<Entry>,
    top_level: Vec<usize>,
    source: String,
}

impl Builder {
    /// The arena built so far.
    pub closed spec fn arena(&self) -> Seq<Entry> {
        self.expressions@
    }

    /// The indices of the top-level expressions of every unit built so far.
    pub closed spec fn roots(&self) -> Seq<usize> {
        self.top_level@
    }

    /// The source text of the first unit built.
    pub closed spec fn source_text(&self) -> Seq<char> {
        self.source@
    }

    /// Read access to the source text.
    pub fn source(&self) -> (r: &str)
        ensures
            r@ == self.source_text(),
    {
        self.source.as_str()
    }

    /// Read access to the arena.
    pub fn entries(&self) -> (r: &Vec<Entry>)
        ensures
            r@ == self.arena(),
    {
        &self.expressions
    }

    /// Read access to the top-level indices.
    pub fn top_level(&self) -> (r: &Vec<usize>)
        ensures
            r@ == self.roots(),
    {
        &self.top_level
    }

    /// Where every entry's range starts and ends, in document order.
    pub fn events(&self) -> (r: Vec<Event>)
        ensures
            in_document_order(self.arena(), r@),
            r.len() == 2 * self.arena().len(),
            has_boundaries(self.arena(), r@),
    {
        document_order(&self.expressions)
    }

    /// Takes the builder apart into its arena and its top-level indices.
    pub fn into_parts(self) -> (r: (Vec<Entry>, Vec<usize>, String))
        ensures
            r.0@ == self.arena(),
            r.1@ == self.roots(),
            r.2@ == self.source_text(),
    {
        (self.expressions, self.top_level, self.source)
    }

    /// Builds one source unit into a fresh arena; its expressions are the
    /// top level.
    pub fn new(source: &str, file: &Vec<Syntax>) -> (r: Builder)
        requires
            all_well_formed(file@),
        ensures
            r.source_text() == source@,
            scoped(r.arena()),
            r.arena().len() == list_count(*file, file.len() as int),
            denotes_all(r.arena(), 0, r.roots(), *file, None),
    {
        let mut this = Builder { expressions: Vec::new(), top_level: Vec::new(), source: source.to_owned() };
        this.build(file);
        proof {
            assert(this.top_level@ =~= seq![] + this.top_level@);
        }
        this
    }

    /// Builds one more source unit into the arena, at the top level, and
    /// returns its expressions' indices. Earlier entries stay as they were.
    pub fn build(&mut self, unit: &Vec<Syntax>) -> (r: Vec<usize>)
        requires
            scoped(old(self).arena()),
            all_well_formed(unit@),
        ensures
            extends(old(self).arena(), final(self).arena()),
            scoped(final(self).arena()),
            final(self).arena().len() == old(self).arena().len() + list_count(*unit, unit.len() as int),
            denotes_all(final(self).arena(), old(self).arena().len() as int, r@, *unit, None),
            final(self).roots() == old(self).roots() + r@,
            final(self).source_text() == old(self).source_text(),
    {
        let r = self.expressions(unit, None);
        let ghost arena = self.expressions@;
        let mut i: usize = 0;
        while i < r.len()
            invariant
                i <= r.len(),
                self.expressions@ == arena,
                self.source@ == old(self).source@,
                self.top_level@ == old(self).top_level@ + r@.subrange(0, i as int),
            decreases r.len() - i,
        {
            self.top_level.push(r[i]);
            assert(r@.subrange(0, i + 1) == r@.subrange(0, i as int).push(r@[i as int]));
            i += 1;
        }
        assert(r@.subrange(0, r.len() as int) == r@);
        r
    }

    /// Appends an entry; its index is the arena's former length.
    fn push(&mut self, start: usize, end: usize, expression: Expression) -> (r: usize)
        ensures
            final(self).expressions@ == old(self).expressions@.push(
                (Entry { start, end, expression }),
            ),
            final(self).top_level@ == old(self).top_level@,
            final(self).source@ == old(self).source@,
            r == old(self).expressions.len(),
    {
        let r = self.expressions.len();
        self.expressions.push(Entry { start, end, expression });
        r
    }

    /// The character that one unit of a text literal decodes to.
    pub fn text_component(unit: &TextUnit) -> (r: char)
        ensures
            r == unit_char(*unit),
    {
        match unit {
            TextUnit::Raw(c) => *c,
            TextUnit::Escaped(c) => *c,
        }
    }

    /// Builds a text literal from its decoded characters.
    fn text(&mut self, s: &Syntax) -> (r: usize)
        requires
            s is Text,
            scoped(old(self).expressions@),
        ensures
            extends(old(self).expressions@, final(self).expressions@),
            scoped(final(self).expressions@),
            final(self).top_level@ == old(self).top_level@,
            final(self).source@ == old(self).source@,
            denotes(final(self).expressions@, old(self).expressions.len() as int, r as int, *s, None),
            final(self).expressions.len() == old(self).expressions.len() + 1,
    {
        match s {
            Syntax::Text { start, end, units } => {
                let mut chars: Vec<char> = Vec::new();
                let mut i: usize = 0;
                while i < units.len()
                    invariant
                        i <= units.len(),
                        chars.len() == i,
                        forall|j: int| 0 <= j < i ==> chars@[j] == unit_char(#[trigger] units@[j]),
                    decreases units.len() - i,
                {
                    chars.push(Self::text_component(&units[i]));
                    i += 1;
                }
                assert(chars@ =~= decoded(units@));
                let text = string_from_chars(chars);
                let ghost a = self.expressions@;
                let r = self.push(*start, *end, Expression::Text(text));
                proof { lemma_push_scoped(a, self.expressions@[r as int]); }
                r
            },
            _ => {
                proof { assert(false); }
                0
            },
        }
    }

    /// Builds a list of sibling expressions in scope `parent` and returns
    /// their indices in source order.
    pub fn expressions(&mut self, items: &Vec<Syntax>, parent: Option<usize>) -> (r: Vec<usize>)
        requires
            scoped(old(self).arena()),
            valid_parent(old(self).arena(), parent),
            all_well_formed(items@),
        ensures
            extends(old(self).arena(), final(self).arena()),
            scoped(final(self).arena()),
            final(self).roots() == old(self).roots(),
            final(self).source_text() == old(self).source_text(),
            final(self).arena().len() == old(self).arena().len() + list_count(*items, items.len() as int),
            denotes_all(final(self).arena(), old(self).arena().len() as int, r@, *items, parent),
            forall|j: int|
                0 <= j < r.len() ==> scoped_in(
                    final(self).arena()[#[trigger] r@[j] as int].expression,
                    parent,
                ),
        decreases items, 1int,
    {
        let ghost a0 = self.expressions@;
        let ghost lo = a0.len() as int;
        let mut r: Vec<usize> = Vec::new();
        let mut i: usize = 0;
        while i < items.len()
            invariant
                i <= items.len(),
                r.len() == i,
                lo == a0.len(),
                extends(a0, self.expressions@),
                scoped(self.expressions@),
                valid_parent(self.expressions@, parent),
                all_well_formed(items@),
                self.top_level@ == old(self).top_level@,
                self.source@ == old(self).source@,
                self.expressions.len() == lo + list_count(*items, i as int),
                forall|j: int|
                    0 <= j < i ==> denotes(
                        self.expressions@,
                        lo + list_count(*items, j),
                        #[trigger] r@[j] as int,
                        items[j],
                        parent,
                    ),
                forall|j: int|
                    0 <= j < i ==> scoped_in(self.expressions@[#[trigger] r@[j] as int].expression, parent),
            decreases items.len() - i,
        {
            let ghost before = self.expressions@;
            assert(well_formed(items@[i as int]));
            let k = self.expression(&items[i], parent);
            proof {
                let after = self.expressions@;
                lemma_extends_agrees(before, after, lo);
                assert forall|j: int| 0 <= j < i implies denotes(
                    after,
                    lo + list_count(*items, j),
                    #[trigger] r@[j] as int,
                    items[j],
                    parent,
                ) && scoped_in(after[r@[j] as int].expression, parent) by {
                    lemma_frame(before, after, lo, lo + list_count(*items, j), r@[j] as int, items[j], parent);
                    assert(after[r@[j] as int] == before[r@[j] as int]);
                }
            }
            r.push(k);
            i += 1;
        }
        r
    }

    /// Builds one expression by its kind.
    fn expression(&mut self, s: &Syntax, parent: Option<usize>) -> (r: usize)
        requires
            scoped(old(self).expressions@),
            valid_parent(old(self).expressions@, parent),
            well_formed(*s),
        ensures
            extends(old(self).expressions@, final(self).expressions@),
            scoped(final(self).expressions@),
            final(self).top_level@ == old(self).top_level@,
            final(self).source@ == old(self).source@,
            final(self).expressions.len() == old(self).expressions.len() + built_count(*s),
            denotes(final(self).expressions@, old(self).expressions.len() as int, r as int, *s, parent),
            scoped_in(final(self).expressions@[r as int].expression, parent),
        decreases s, 1int,
    {
        match s {
            Syntax::Association { .. } => self.association(s, parent),
            Syntax::PrefixReference { .. } => self.prefix_reference(s, parent),
            Syntax::Chain { .. } => self.multi_reference(s, parent),
            Syntax::Cose { start, end } => self.cose(*start, *end),
            Syntax::Text { .. } => self.text(s),
        }
    }

    /// Builds `>X`: the operand first, then the reference over it.
    fn prefix_reference(&mut self, s: &Syntax, parent: Option<usize>) -> (r: usize)
        requires
            s is PrefixReference,
            scoped(old(self).expressions@),
            valid_parent(old(self).expressions@, parent),
            well_formed(*s),
        ensures
            extends(old(self).expressions@, final(self).expressions@),
            scoped(final(self).expressions@),
            final(self).top_level@ == old(self).top_level@,
            final(self).source@ == old(self).source@,
            final(self).expressions.len() == old(self).expressions.len() + built_count(*s),
            denotes(final(self).expressions@, old(self).expressions.len() as int, r as int, *s, parent),
            scoped_in(final(self).expressions@[r as int].expression, parent),
        decreases s, 0int,
    {
        match s {
            Syntax::PrefixReference { start, end, operand } => {
                let ghost a0 = self.expressions@;
                let keys = self.referenceables(operand, parent);
                let ghost a1 = self.expressions@;
                let r = self.push(*start, *end, Expression::PrefixReference { parent, keys });
                proof {
                    lemma_push_scoped(a1, self.expressions@[r as int]);
                    lemma_extends_agrees(a1, self.expressions@, a0.len() as int);
                    lemma_frame_referenceables(
                        a1,
                        self.expressions@,
                        a0.len() as int,
                        a0.len() as int,
                        keys@,
                        *operand,
                        parent,
                    );
                }
                r
            },
            _ => {
                proof { assert(false); }
                0
            },
        }
    }

    /// Builds `A>B>C...` as a left fold: each further segment wraps the
    /// result so far in a new reference spanning from the chain's start to
    /// the segment's end.
    fn multi_reference(&mut self, s: &Syntax, parent: Option<usize>) -> (r: usize)
        requires
            s is Chain,
            scoped(old(self).expressions@),
            valid_parent(old(self).expressions@, parent),
            well_formed(*s),
        ensures
            extends(old(self).expressions@, final(self).expressions@),
            scoped(final(self).expressions@),
            final(self).top_level@ == old(self).top_level@,
            final(self).source@ == old(self).source@,
            final(self).expressions.len() == old(self).expressions.len() + built_count(*s),
            denotes(final(self).expressions@, old(self).expressions.len() as int, r as int, *s, parent),
            scoped_in(final(self).expressions@[r as int].expression, parent),
        decreases s, 0int,
    {
        match s {
            Syntax::Chain { start, segments } => {
                let ghost a0 = self.expressions@;
                let ghost lo = a0.len() as int;
                assert(segments@[0].items.len() > 0);
                let mut associations = self.referenceables(&segments[0].items, parent);
                let mut k: usize = 1;
                while k < segments.len()
                    invariant
                        1 <= k <= segments.len(),
                        lo == a0.len(),
                        segments.len() >= 2,
                        well_formed(*s),
                        *s == (Syntax::Chain { start: *start, segments: *segments }),
                        extends(a0, self.expressions@),
                        scoped(self.expressions@),
                        valid_parent(self.expressions@, parent),
                        self.top_level@ == old(self).top_level@,
                        self.source@ == old(self).source@,
                self.source@ == old(self).source@,
                        self.expressions.len() == lo + chain_count(*segments, k as int),
                        indices_in(self.expressions@, associations@),
                        k == 1 ==> denotes_referenceables(
                            self.expressions@,
                            lo,
                            associations@,
                            segments[0].items,
                            parent,
                        ),
                        k > 1 ==> {
                            &&& associations@.len() == 1
                            &&& denotes_link(
                                self.expressions@,
                                lo,
                                associations@[0] as int,
                                *start,
                                *segments,
                                k - 1,
                                parent,
                            )
                            &&& scoped_in(self.expressions@[associations@[0] as int].expression, parent)
                        },
                    decreases segments.len() - k,
                {
                    let ghost a1 = self.expressions@;
                    assert(segments@[k as int].items.len() > 0);
                    let keys = self.referenceables(&segments[k].items, parent);
                    let ghost a2 = self.expressions@;
                    let ghost asc = associations@;
                    let idx = self.push(
                        *start,
                        segments[k].end,
                        Expression::Reference { parent, associations, keys },
                    );
                    proof {
                        let a3 = self.expressions@;
                        assert(indices_in(a2, asc));
                        lemma_push_scoped(a2, a3[idx as int]);
                        lemma_extends_agrees(a2, a3, lo);
                        lemma_extends_agrees(a1, a2, lo);
                        lemma_extends_agrees(a1, a3, lo);
                        lemma_frame_referenceables(
                            a2,
                            a3,
                            lo,
                            lo + chain_count(*segments, k as int),
                            keys@,
                            segments[k as int].items,
                            parent,
                        );
                        if k == 1 {
                            lemma_frame_referenceables(a1, a3, lo, lo, asc, segments[0].items, parent);
                        } else {
                            lemma_frame_link(a1, a3, lo, lo, asc[0] as int, *start, *segments, k - 1, parent);
                        }
                        assert(chain_count(*segments, k + 1) == chain_count(*segments, k as int)
                            + referenceable_count(segments[k as int].items) + 1);
                        assert(denotes_link(a3, lo, idx as int, *start, *segments, k as int, parent));
                    }
                    associations = vec![idx];
                    k += 1;
                }
                associations[0]
            },
            _ => {
                proof { assert(false); }
                0
            },
        }
    }

    /// Builds a referenceable list; one led by a prefix reference is that
    /// reference alone, and its siblings are not built.
    fn referenceables(&mut self, items: &Vec<Syntax>, parent: Option<usize>) -> (r: Vec<usize>)
        requires
            items.len() > 0,
            scoped(old(self).expressions@),
            valid_parent(old(self).expressions@, parent),
            all_well_formed(items@),
        ensures
            extends(old(self).expressions@, final(self).expressions@),
            scoped(final(self).expressions@),
            final(self).top_level@ == old(self).top_level@,
            final(self).source@ == old(self).source@,
            final(self).expressions.len() == old(self).expressions.len() + referenceable_count(*items),
            denotes_referenceables(
                final(self).expressions@,
                old(self).expressions.len() as int,
                r@,
                *items,
                parent,
            ),
            indices_in(final(self).expressions@, r@),
        decreases items, 2int,
    {
        if let Syntax::PrefixReference { .. } = &items[0] {
            assert(well_formed(items@[0]));
            let k = self.prefix_reference(&items[0], parent);
            let r = vec![k];
            assert(r@[0] == k);
            r
        } else {
            self.expressions(items, parent)
        }
    }

    /// Builds `keys: values`. The association is allocated first as an empty
    /// placeholder, since its values take its index as their scope, and is
    /// filled in once both sides are built.
    fn association(&mut self, s: &Syntax, parent: Option<usize>) -> (r: usize)
        requires
            s is Association,
            scoped(old(self).expressions@),
            valid_parent(old(self).expressions@, parent),
            well_formed(*s),
        ensures
            extends(old(self).expressions@, final(self).expressions@),
            scoped(final(self).expressions@),
            final(self).top_level@ == old(self).top_level@,
            final(self).source@ == old(self).source@,
            final(self).expressions.len() == old(self).expressions.len() + built_count(*s),
            denotes(final(self).expressions@, old(self).expressions.len() as int, r as int, *s, parent),
            scoped_in(final(self).expressions@[r as int].expression, parent),
        decreases s, 0int,
    {
        match s {
            Syntax::Association { start, end, keys, values } => {
                let ghost a0 = self.expressions@;
                let index = self.push(
                    *start,
                    *end,
                    Expression::Association { parent, keys: Vec::new(), values: Vec::new() },
                );
                proof { lemma_push_scoped(a0, self.expressions@[index as int]); }
                let ghost a1 = self.expressions@;
                let ks = self.expressions(keys, parent);
                let ghost a2 = self.expressions@;
                let vs = self.expressions(values, Some(index));
                let ghost a3 = self.expressions@;
                let ghost ksv = ks@;
                let ghost vsv = vs@;
                self.expressions.set(
                    index,
                    Entry { start: *start, end: *end, expression: Expression::Association { parent, keys: ks, values: vs } },
                );
                proof {
                    let a4 = self.expressions@;
                    let lo1 = a1.len() as int;
                    let lo2 = a2.len() as int;
                    assert(agrees_from(a2, a4, lo1));
                    assert(agrees_from(a3, a4, lo1));
                    lemma_frame_all(a2, a4, lo1, lo1, ksv, *keys, parent);
                    lemma_frame_all(a3, a4, lo1, lo2, vsv, *values, Some(index));
                    assert forall|j: int| 0 <= j < ksv.len() implies a4[#[trigger] ksv[j] as int] == a2[ksv[j] as int] by {
                        assert(denotes(a2, lo1 + list_count(*keys, j), ksv[j] as int, keys[j], parent));
                    }
                    assert forall|j: int| 0 <= j < vsv.len() implies a4[#[trigger] vsv[j] as int] == a3[vsv[j] as int] by {
                        assert(denotes(a3, lo2 + list_count(*values, j), vsv[j] as int, values[j], Some(index)));
                    }
                    lemma_patch_scoped(a3, index as int, a4[index as int]);
                }
                index
            },
            _ => {
                proof { assert(false); }
                0
            },
        }
    }

    /// Builds the marker literal.
    fn cose(&mut self, start: usize, end: usize) -> (r: usize)
        requires
            scoped(old(self).expressions@),
        ensures
            extends(old(self).expressions@, final(self).expressions@),
            scoped(final(self).expressions@),
            final(self).top_level@ == old(self).top_level@,
            final(self).source@ == old(self).source@,
            denotes(
                final(self).expressions@,
                old(self).expressions.len() as int,
                r as int,
                Syntax::Cose { start, end },
                None,
            ),
            final(self).expressions.len() == old(self).expressions.len() + 1,
    {
        let ghost a = self.expressions@;
        let r = self.push(start, end, Expression::Cose);
        proof { lemma_push_scoped(a, self.expressions@[r as int]); }
        r
    }
}

} // verus!
