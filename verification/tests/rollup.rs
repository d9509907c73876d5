use sharpen::nodes::CplxElement;
use sharpen::nodes::Element;
use sharpen::rollup_tree;
use sharpen::rollup_tree_bottomup;
use sharpen::tree_collapse::collapse_tree;
use sharpen::tree_collapse::CollapseTreeOrd;

#[test]
fn test_rollup_tree() {
    let input = vec![Element(0), Element(1), Element(2), Element(3), Element(4)];

    let mapping = vec![(1, 0), (3, 2), (4, 1)];

    let result: Vec<_> = rollup_tree(input, mapping).expect("valid mapping");
    assert_eq!(result, vec![Element(5), Element(5)]);
}

#[test]
fn test_rollup_complex_tree() {
    let input = vec![
        CplxElement::new(0),
        CplxElement::new(1),
        CplxElement::new(2),
        CplxElement::new(3),
        CplxElement::new(4),
        CplxElement::new(5),
        CplxElement::new(6),
        CplxElement::new(7),
        CplxElement::new(8),
    ];
    let mapping = vec![(1, 0), (2, 0), (4, 3), (5, 3), (6, 4), (7, 3)];

    let result: Vec<_> = rollup_tree(input, mapping).expect("invalid mapping");
    assert_eq!(
        result,
        vec![
            CplxElement {
                data: 0,
                children: vec![CplxElement::new(1), CplxElement::new(2)],
            },
            CplxElement {
                data: 3,
                children: vec![
                    CplxElement {
                        data: 4,
                        children: vec![CplxElement::new(6)],
                    },
                    CplxElement::new(5),
                    CplxElement::new(7),
                ],
            },
            CplxElement::new(8),
        ]
    );
}

#[test]
fn test_rollup_bottomup_complex_tree() {
    let input = vec![
        CplxElement::new(0),
        CplxElement::new(1),
        CplxElement::new(2),
        CplxElement::new(3),
        CplxElement::new(4),
        CplxElement::new(5),
        CplxElement::new(6),
        CplxElement::new(7),
        CplxElement::new(8),
    ];
    let mapping = vec![(0, 2), (1, 2), (3, 5), (4, 5), (5, 7), (6, 7)];

    let result: Vec<_> = rollup_tree_bottomup(input, mapping).expect("invalid mapping");

    assert_eq!(
        result,
        vec![
            CplxElement {
                data: 2,
                children: vec![CplxElement::new(0), CplxElement::new(1)]
            },
            CplxElement {
                data: 7,
                children: vec![
                    CplxElement {
                        data: 5,
                        children: vec![CplxElement::new(3), CplxElement::new(4)]
                    },
                    CplxElement::new(6),
                ],
            },
            CplxElement::new(8)
        ]
    );
}

#[test]
fn test_rollup_out_of_bounds_mapping_fails() {
    let input = vec![Element(0), Element(1)];
    let mapping = vec![(5, 0)];
    assert!(rollup_tree(input, mapping).is_none());

    let input = vec![Element(0), Element(1)];
    let mapping = vec![(1, 5)];
    assert!(rollup_tree_bottomup(input, mapping).is_none());
}

#[test]
fn test_rollup_duplicate_child_fails() {
    let input = vec![Element(0), Element(1), Element(2)];
    let mapping = vec![(1, 0), (1, 2)];
    assert!(rollup_tree(input, mapping).is_none());

    let input = vec![Element(0), Element(1), Element(2)];
    let mapping = vec![(1, 0), (1, 2)];
    assert!(rollup_tree_bottomup(input, mapping).is_none());
}

#[test]
fn test_rollup_self_parent_fails() {
    let input = vec![Element(0), Element(1)];
    let mapping = vec![(1, 1)];
    assert!(rollup_tree(input, mapping).is_none());
}

fn sample_forest() -> Vec<CplxElement> {
    vec![
        CplxElement {
            data: 0,
            children: vec![CplxElement::new(1), CplxElement::new(2)],
        },
        CplxElement {
            data: 3,
            children: vec![
                CplxElement {
                    data: 4,
                    children: vec![CplxElement::new(6)],
                },
                CplxElement::new(5),
                CplxElement::new(7),
            ],
        },
        CplxElement::new(8),
    ]
}

#[test]
fn test_collapse_rollup_round_trip_topdown() {
    let collapsed = collapse_tree(sample_forest(), CollapseTreeOrd::TopDown);
    let mapping = collapsed.mapping_pairs();
    let rolled = rollup_tree(collapsed.elems, mapping).expect("round trip");
    assert_eq!(rolled, sample_forest());
}

#[test]
fn test_collapse_rollup_round_trip_bottomup() {
    let collapsed = collapse_tree(sample_forest(), CollapseTreeOrd::BottomUp);
    let mapping = collapsed.mapping_pairs();
    let rolled = rollup_tree_bottomup(collapsed.elems, mapping).expect("round trip");
    assert_eq!(rolled, sample_forest());
}
