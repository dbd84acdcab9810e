use spf::{intersect, make_repair_list, Intersect};

#[test]
pub fn repair() {
    let pc_inter1 = vec![
        Intersect {
            id: 1,
            p: true,
            q: false,
        },
        Intersect {
            id: 2,
            p: true,
            q: false,
        },
        Intersect {
            id: 3,
            p: true,
            q: true,
        },
        Intersect {
            id: 4,
            p: false,
            q: true,
        },
        Intersect {
            id: 5,
            p: false,
            q: true,
        },
    ];

    let pc_inter2 = vec![
        Intersect {
            id: 1,
            p: true,
            q: false,
        },
        Intersect {
            id: 2,
            p: true,
            q: false,
        },
        Intersect {
            id: 3,
            p: true,
            q: false,
        },
        Intersect {
            id: 4,
            p: false,
            q: true,
        },
        Intersect {
            id: 5,
            p: false,
            q: true,
        },
    ];

    let pc_inter3 = vec![
        Intersect {
            id: 1,
            p: true,
            q: false,
        },
        Intersect {
            id: 2,
            p: true,
            q: false,
        },
        Intersect {
            id: 3,
            p: true,
            q: false,
        },
        Intersect {
            id: 4,
            p: false,
            q: false,
        },
        Intersect {
            id: 5,
            p: false,
            q: true,
        },
    ];

    let pc_inter4 = vec![
        Intersect {
            id: 1,
            p: true,
            q: false,
        },
        Intersect {
            id: 2,
            p: true,
            q: false,
        },
        Intersect {
            id: 3,
            p: true,
            q: false,
        },
        Intersect {
            id: 4,
            p: false,
            q: false,
        },
        Intersect {
            id: 5,
            p: false,
            q: false,
        },
    ];

    let pc_inter5 = vec![
        Intersect {
            id: 1,
            p: true,
            q: false,
        },
        Intersect {
            id: 2,
            p: false,
            q: false,
        },
        Intersect {
            id: 3,
            p: false,
            q: false,
        },
        Intersect {
            id: 4,
            p: false,
            q: false,
        },
        Intersect {
            id: 5,
            p: false,
            q: true,
        },
    ];

    let pc_inter6 = vec![
        Intersect {
            id: 1,
            p: false,
            q: false,
        },
        Intersect {
            id: 2,
            p: false,
            q: false,
        },
        Intersect {
            id: 3,
            p: false,
            q: false,
        },
        Intersect {
            id: 4,
            p: false,
            q: false,
        },
        Intersect {
            id: 5,
            p: false,
            q: false,
        },
    ];

    // the last P-space node is already in Q-space: one instruction
    let repair_list = make_repair_list(&pc_inter1, 0, 100);
    assert_eq!(repair_list, vec![3]);
    // Q-space begins right after P-space ends
    let repair_list = make_repair_list(&pc_inter2, 0, 100);
    assert_eq!(repair_list, vec![3, 4]);
    // a gap between P-space and the nearest Q-space node
    let repair_list = make_repair_list(&pc_inter3, 0, 100);
    assert_eq!(repair_list, vec![3, 5]);
    // no Q-space node follows: no repair
    let repair_list = make_repair_list(&pc_inter4, 0, 100);
    assert_eq!(repair_list, Vec::<usize>::new());
    // P-space ends immediately, Q-space only at the far end
    let repair_list = make_repair_list(&pc_inter5, 0, 100);
    assert_eq!(repair_list, vec![1, 5]);
    // fully disjoint: no repair
    let repair_list = make_repair_list(&pc_inter6, 0, 100);
    assert_eq!(repair_list, Vec::<usize>::new());
}

#[test]
fn repair_bounds() {
    let ann = vec![
        Intersect {
            id: 1,
            p: true,
            q: false,
        },
        Intersect {
            id: 2,
            p: false,
            q: true,
        },
    ];
    // the start bound beyond the annotation list: nothing to scan
    assert_eq!(make_repair_list(&ann, 5, 100), Vec::<usize>::new());
    // a zero length bound: nothing to scan
    assert_eq!(make_repair_list(&ann, 0, 0), Vec::<usize>::new());
    // length bound cutting off the Q-space node: no repair
    assert_eq!(make_repair_list(&ann, 0, 1), Vec::<usize>::new());
    // the full range finds the pair
    assert_eq!(make_repair_list(&ann, 0, 2), vec![1, 2]);
    // starting at a node outside P-space: no anchor, no repair
    assert_eq!(make_repair_list(&ann, 1, 2), Vec::<usize>::new());
}

#[test]
fn repair_empty_annotation() {
    let ann: Vec<Intersect> = Vec::new();
    assert_eq!(make_repair_list(&ann, 0, 100), Vec::<usize>::new());
}

#[test]
fn intersect_annotates_membership() {
    let path = vec![2, 4, 5, 6];
    let p_space = vec![2, 3, 4];
    let q_space = vec![6];
    let ann = intersect(&path, &p_space, &q_space);
    assert_eq!(ann.len(), 4);
    assert_eq!(
        ann,
        vec![
            Intersect {
                id: 2,
                p: true,
                q: false,
            },
            Intersect {
                id: 4,
                p: true,
                q: false,
            },
            Intersect {
                id: 5,
                p: false,
                q: false,
            },
            Intersect {
                id: 6,
                p: false,
                q: true,
            },
        ]
    );
}
