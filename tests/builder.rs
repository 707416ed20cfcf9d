use cose::parser::{Builder, Expression};
use cose::syntax::{is_well_formed, substitute_groups, Element, Segment, Syntax, TextUnit};
use cose::Interpreter;

fn text(start: usize, s: &str) -> Syntax {
    Syntax::Text {
        start,
        end: start + s.len(),
        units: s.chars().map(TextUnit::Raw).collect(),
    }
}

fn text_of(b: &Builder, i: usize) -> String {
    match &b.entries()[i].expression {
        Expression::Text(t) => t.clone(),
        other => panic!("not a text: {:?}", other),
    }
}

fn parent_of(b: &Builder, i: usize) -> Option<usize> {
    match &b.entries()[i].expression {
        Expression::Association { parent, .. } => *parent,
        Expression::Reference { parent, .. } => *parent,
        Expression::PrefixReference { parent, .. } => *parent,
        other => panic!("no parent: {:?}", other),
    }
}

#[test]
fn single_association() {
    // a: b
    let file = vec![Syntax::Association {
        start: 0,
        end: 4,
        keys: vec![text(0, "a")],
        values: vec![text(3, "b")],
    }];
    let b = Builder::new("a: b", &file);
    assert_eq!(b.source(), "a: b");
    assert_eq!(b.entries().len(), 3);
    assert_eq!(b.top_level(), &vec![0]);
    match &b.entries()[0].expression {
        Expression::Association { parent, keys, values } => {
            assert_eq!(*parent, None);
            assert_eq!(keys.len(), 1);
            assert_eq!(values.len(), 1);
            assert_eq!(text_of(&b, keys[0]), "a");
            assert_eq!(text_of(&b, values[0]), "b");
        }
        other => panic!("{:?}", other),
    }
    assert_eq!((b.entries()[0].start, b.entries()[0].end), (0, 4));
}

#[test]
fn grouped_key_prefixed_chain_value() {
    // (a): >b>c
    let keys = substitute_groups(vec![Element::Group(vec![text(1, "a")])]);
    let chain = Syntax::Chain {
        start: 5,
        segments: vec![
            Segment {
                end: 7,
                items: vec![Syntax::PrefixReference { start: 5, end: 7, operand: vec![text(6, "b")] }],
            },
            Segment { end: 9, items: vec![text(8, "c")] },
        ],
    };
    let file = vec![Syntax::Association { start: 0, end: 9, keys, values: vec![chain] }];
    let b = Builder::new("(a): >b>c", &file);
    assert_eq!(b.top_level().len(), 1);
    let root = b.top_level()[0];
    let (ks, vs) = match &b.entries()[root].expression {
        Expression::Association { parent: None, keys, values } => (keys.clone(), values.clone()),
        other => panic!("{:?}", other),
    };
    assert_eq!(ks.len(), 1);
    assert_eq!(text_of(&b, ks[0]), "a");
    assert_eq!(vs.len(), 1);
    match &b.entries()[vs[0]].expression {
        Expression::Reference { parent, associations, keys } => {
            assert_eq!(*parent, Some(root));
            assert_eq!(associations.len(), 1);
            assert_eq!(keys.len(), 1);
            assert_eq!(text_of(&b, keys[0]), "c");
            match &b.entries()[associations[0]].expression {
                Expression::PrefixReference { parent, keys } => {
                    assert_eq!(*parent, Some(root));
                    assert_eq!(keys.len(), 1);
                    assert_eq!(text_of(&b, keys[0]), "b");
                }
                other => panic!("{:?}", other),
            }
        }
        other => panic!("{:?}", other),
    }
    assert_eq!((b.entries()[vs[0]].start, b.entries()[vs[0]].end), (5, 9));
}

#[test]
fn nested_association_scopes() {
    // a:
    //   b: c
    let inner = Syntax::Association {
        start: 5,
        end: 9,
        keys: vec![Syntax::Chain {
            start: 5,
            segments: vec![
                Segment { end: 6, items: vec![text(5, "b")] },
                Segment { end: 8, items: vec![text(7, "x")] },
            ],
        }],
        values: vec![Syntax::Chain {
            start: 10,
            segments: vec![
                Segment { end: 11, items: vec![text(10, "c")] },
                Segment { end: 13, items: vec![text(12, "y")] },
            ],
        }],
    };
    let file = vec![Syntax::Association { start: 0, end: 13, keys: vec![text(0, "a")], values: vec![inner] }];
    let b = Builder::new("a:\n  b>x: c>y", &file);
    let outer = b.top_level()[0];
    let inner_ix = match &b.entries()[outer].expression {
        Expression::Association { parent: None, values, .. } => {
            assert_eq!(values.len(), 1);
            values[0]
        }
        other => panic!("{:?}", other),
    };
    assert_eq!(parent_of(&b, inner_ix), Some(outer));
    match &b.entries()[inner_ix].expression {
        Expression::Association { keys, values, .. } => {
            assert_eq!(parent_of(&b, keys[0]), Some(outer));
            assert_eq!(parent_of(&b, values[0]), Some(inner_ix));
        }
        other => panic!("{:?}", other),
    }
}

#[test]
fn plain_nested_association() {
    // a:
    //   b: c
    let inner = Syntax::Association { start: 5, end: 9, keys: vec![text(5, "b")], values: vec![text(8, "c")] };
    let file = vec![Syntax::Association { start: 0, end: 9, keys: vec![text(0, "a")], values: vec![inner] }];
    let b = Builder::new("a:\n  b: c", &file);
    assert_eq!(b.top_level(), &vec![0]);
    match &b.entries()[0].expression {
        Expression::Association { parent: None, keys, values } => {
            assert_eq!(text_of(&b, keys[0]), "a");
            assert_eq!(values.len(), 1);
            match &b.entries()[values[0]].expression {
                Expression::Association { parent, keys, values } => {
                    assert_eq!(*parent, Some(0));
                    assert_eq!(text_of(&b, keys[0]), "b");
                    assert_eq!(text_of(&b, values[0]), "c");
                }
                other => panic!("{:?}", other),
            }
        }
        other => panic!("{:?}", other),
    }
}

#[test]
fn chain_of_four_segments_nests_three_references() {
    // a>b>c>d
    let chain = Syntax::Chain {
        start: 0,
        segments: vec![
            Segment { end: 1, items: vec![text(0, "a")] },
            Segment { end: 3, items: vec![text(2, "b")] },
            Segment { end: 5, items: vec![text(4, "c")] },
            Segment { end: 7, items: vec![text(6, "d")] },
        ],
    };
    let b = Builder::new("", &vec![chain]);
    let references = b
        .entries()
        .iter()
        .filter(|e| matches!(e.expression, Expression::Reference { .. }))
        .count();
    assert_eq!(references, 3);
    let mut at = b.top_level()[0];
    let mut lookups = Vec::new();
    let mut ends = Vec::new();
    loop {
        ends.push((b.entries()[at].start, b.entries()[at].end));
        match &b.entries()[at].expression {
            Expression::Reference { associations, keys, .. } => {
                lookups.push(text_of(&b, keys[0]));
                assert_eq!(associations.len(), 1);
                at = associations[0];
            }
            Expression::Text(t) => {
                lookups.push(t.clone());
                break;
            }
            other => panic!("{:?}", other),
        }
    }
    assert_eq!(lookups, vec!["d", "c", "b", "a"]);
    assert_eq!(ends[..3], [(0, 7), (0, 5), (0, 3)]);
}

#[test]
fn prefix_reference_absorbs_siblings() {
    // >x y > z: the first segment is led by a prefix reference
    let chain = Syntax::Chain {
        start: 0,
        segments: vec![
            Segment {
                end: 4,
                items: vec![
                    Syntax::PrefixReference { start: 0, end: 2, operand: vec![text(1, "x")] },
                    text(3, "y"),
                ],
            },
            Segment { end: 6, items: vec![text(5, "z")] },
        ],
    };
    let b = Builder::new("", &vec![chain]);
    match &b.entries()[b.top_level()[0]].expression {
        Expression::Reference { associations, .. } => {
            assert_eq!(associations.len(), 1);
            assert!(matches!(b.entries()[associations[0]].expression, Expression::PrefixReference { .. }));
        }
        other => panic!("{:?}", other),
    }
    assert!(!b.entries().iter().any(|e| matches!(&e.expression, Expression::Text(t) if t == "y")));
}

#[test]
fn several_keys_and_values_keep_order() {
    // a b c: d e
    let file = vec![Syntax::Association {
        start: 0,
        end: 10,
        keys: vec![text(0, "a"), text(2, "b"), text(4, "c")],
        values: vec![text(7, "d"), text(9, "e")],
    }];
    let b = Builder::new("a b c: d e", &file);
    match &b.entries()[0].expression {
        Expression::Association { keys, values, .. } => {
            let ks: Vec<String> = keys.iter().map(|k| text_of(&b, *k)).collect();
            let vs: Vec<String> = values.iter().map(|v| text_of(&b, *v)).collect();
            assert_eq!(ks, vec!["a", "b", "c"]);
            assert_eq!(vs, vec!["d", "e"]);
        }
        other => panic!("{:?}", other),
    }
}

#[test]
fn text_escapes_are_decoded() {
    let t = Syntax::Text {
        start: 0,
        end: 6,
        units: vec![TextUnit::Raw('a'), TextUnit::Escaped(':'), TextUnit::Escaped('\n'), TextUnit::Raw('b')],
    };
    let b = Builder::new("", &vec![t]);
    assert_eq!(text_of(&b, 0), "a:\nb");
    assert_eq!(Builder::text_component(&TextUnit::Escaped('>')), '>');
}

#[test]
fn marker_literal() {
    let b = Builder::new("", &vec![Syntax::Cose { start: 2, end: 6 }, text(7, "q")]);
    assert_eq!(b.top_level(), &vec![0, 1]);
    assert!(matches!(b.entries()[0].expression, Expression::Cose));
    assert_eq!((b.entries()[0].start, b.entries()[0].end), (2, 6));
}

#[test]
fn groups_are_substituted_in_place() {
    let items = substitute_groups(vec![
        Element::Single(text(0, "a")),
        Element::Group(vec![text(2, "b"), text(4, "c")]),
        Element::Group(vec![]),
        Element::Single(text(6, "d")),
    ]);
    let b = Builder::new("", &items);
    let names: Vec<String> = b.top_level().iter().map(|i| text_of(&b, *i)).collect();
    assert_eq!(names, vec!["a", "b", "c", "d"]);
}

#[test]
fn later_units_keep_earlier_indices() {
    let mut b = Builder::new("", &vec![Syntax::Association {
        start: 0,
        end: 4,
        keys: vec![text(0, "a")],
        values: vec![text(3, "b")],
    }]);
    let first = b.top_level().clone();
    let before: Vec<String> = (0..b.entries().len()).map(|i| format!("{:?}", b.entries()[i])).collect();
    let second = b.build(&vec![text(0, "z")]);
    assert_eq!(second, vec![3]);
    assert_eq!(b.top_level(), &vec![first[0], 3]);
    for (i, d) in before.iter().enumerate() {
        assert_eq!(&format!("{:?}", b.entries()[i]), d);
    }
    assert_eq!(text_of(&b, 3), "z");
}

#[test]
fn interpreter_holds_the_built_document() {
    let i = Interpreter::new("a ~", &vec![text(0, "a"), Syntax::Cose { start: 2, end: 3 }]);
    assert_eq!(i.top_level(), &vec![0, 1]);
    assert_eq!(i.entries().len(), 2);
    assert_eq!(i.source(), "a ~");
}

#[test]
fn well_formedness_check() {
    assert!(is_well_formed(&text(0, "a")));
    assert!(!is_well_formed(&Syntax::PrefixReference { start: 0, end: 1, operand: vec![] }));
    assert!(!is_well_formed(&Syntax::Chain {
        start: 0,
        segments: vec![Segment { end: 1, items: vec![text(0, "a")] }],
    }));
    assert!(!is_well_formed(&Syntax::Chain {
        start: 0,
        segments: vec![Segment { end: 1, items: vec![text(0, "a")] }, Segment { end: 2, items: vec![] }],
    }));
    assert!(is_well_formed(&Syntax::Chain {
        start: 0,
        segments: vec![Segment { end: 1, items: vec![text(0, "a")] }, Segment { end: 3, items: vec![text(2, "b")] }],
    }));
}

fn boundaries(b: &Builder) -> Vec<(usize, usize, bool)> {
    b.events().iter().map(|e| (e.index, e.position, e.is_start)).collect()
}

#[test]
fn events_follow_document_order() {
    // a: b
    let b = Builder::new("a: b", &vec![Syntax::Association {
        start: 0,
        end: 4,
        keys: vec![text(0, "a")],
        values: vec![text(3, "b")],
    }]);
    assert_eq!(
        boundaries(&b),
        vec![(0, 0, true), (1, 0, true), (1, 1, false), (2, 3, true), (2, 4, false), (0, 4, false)]
    );
}

#[test]
fn events_of_equal_ranges_put_the_later_entry_outside() {
    let b = Builder::new("", &vec![Syntax::Cose { start: 0, end: 2 }, Syntax::Cose { start: 0, end: 2 }]);
    assert_eq!(boundaries(&b), vec![(1, 0, true), (0, 0, true), (0, 2, false), (1, 2, false)]);
}

#[test]
fn events_of_an_empty_range_open_before_they_close() {
    let b = Builder::new("", &vec![text(0, "ab"), Syntax::Text { start: 2, end: 2, units: vec![] }, text(2, "c")]);
    assert_eq!(
        boundaries(&b),
        vec![(0, 0, true), (0, 2, false), (2, 2, true), (1, 2, true), (1, 2, false), (2, 3, false)]
    );
}

#[test]
fn events_end_before_a_start_at_the_same_position() {
    let b = Builder::new("", &vec![text(0, "ab"), text(2, "c")]);
    assert_eq!(boundaries(&b), vec![(0, 0, true), (0, 2, false), (1, 2, true), (1, 3, false)]);
}
