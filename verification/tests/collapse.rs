use std::collections::BTreeMap;

use sharpen::nodes::CplxElement;
use sharpen::tree_collapse::collapse_tree;
use sharpen::tree_collapse::CollapseTreeOrd;
use sharpen::tree_collapse::CollapsedTree;

fn sample_forest() -> Vec<CplxElement> {
    vec![
        CplxElement {
            data: 0,
            children: vec![CplxElement::new(1), CplxElement::new(2)],
        },
        CplxElement {
            data: 3,
            children: vec![
                CplxElement {
                    data: 4,
                    children: vec![CplxElement::new(6)],
                },
                CplxElement::new(5),
                CplxElement::new(7),
            ],
        },
        CplxElement::new(8),
    ]
}

#[test]
fn test_collapse_complex_tree() {
    let input = sample_forest();

    assert_eq!(
        collapse_tree(input, CollapseTreeOrd::TopDown),
        CollapsedTree {
            elems: vec![
                CplxElement::new(0),
                CplxElement::new(1),
                CplxElement::new(2),
                CplxElement::new(3),
                CplxElement::new(4),
                CplxElement::new(6),
                CplxElement::new(5),
                CplxElement::new(7),
                CplxElement::new(8)
            ],
            mapping: [(1, 0), (2, 0), (4, 3), (5, 4), (6, 3), (7, 3)]
                .iter()
                .copied()
                .collect(),
        }
    );
}

#[test]
fn test_collapse_bottomup_complex_tree() {
    let input = sample_forest();

    assert_eq!(
        collapse_tree(input, CollapseTreeOrd::BottomUp),
        CollapsedTree {
            elems: vec![
                CplxElement::new(1),
                CplxElement::new(2),
                CplxElement::new(0),
                CplxElement::new(6),
                CplxElement::new(4),
                CplxElement::new(5),
                CplxElement::new(7),
                CplxElement::new(3),
                CplxElement::new(8)
            ],
            mapping: [(0, 2), (1, 2), (3, 4), (4, 7), (5, 7), (6, 7)]
                .iter()
                .copied()
                .collect(),
        }
    );
}

#[test]
fn test_collapse_empty_forest() {
    let input: Vec<CplxElement> = vec![];
    let collapsed = collapse_tree(input, CollapseTreeOrd::TopDown);
    assert!(collapsed.elems.is_empty());
    assert_eq!(collapsed.mapping, BTreeMap::new());
}

#[test]
fn test_collapse_childless_roots() {
    let input = vec![CplxElement::new(10), CplxElement::new(11)];
    let collapsed = collapse_tree(input, CollapseTreeOrd::BottomUp);
    assert_eq!(
        collapsed.elems,
        vec![CplxElement::new(10), CplxElement::new(11)]
    );
    assert!(collapsed.mapping.is_empty());
}
