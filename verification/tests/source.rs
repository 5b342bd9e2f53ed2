use gtether::resource::source::SourceIndex;

#[test]
fn test_sub_idx_cmp() {
    assert_eq!(SourceIndex::new(0), SourceIndex::new(0));
    assert_eq!(SourceIndex::new(42), SourceIndex::new(42));
    assert_eq!(SourceIndex::new(1).with_sub_idx(Some(2)), SourceIndex::new(1).with_sub_idx(Some(2)));

    assert!(SourceIndex::new(3) < SourceIndex::new(5));
    assert!(SourceIndex::new(5) > SourceIndex::new(3));
    assert!(SourceIndex::new(4) < SourceIndex::new(4).with_sub_idx(Some(42)));
    assert!(SourceIndex::new(4).with_sub_idx(Some(42)) > SourceIndex::new(4));
}

#[test]
fn test_sub_idx_cmp_min() {
    assert_eq!(SourceIndex::min(), SourceIndex::min());

    assert!(SourceIndex::min() < SourceIndex::new(usize::MIN));
    assert!(SourceIndex::min() < SourceIndex::new(1));
    assert!(SourceIndex::min() < SourceIndex::new(0).with_sub_idx(Some(0)));
    assert!(SourceIndex::min() < SourceIndex::new(0).with_sub_idx(Some(SourceIndex::min())));
    assert!(SourceIndex::min() < SourceIndex::max());

    assert!(SourceIndex::new(usize::MIN) > SourceIndex::min());
    assert!(SourceIndex::new(1) > SourceIndex::min());
    assert!(SourceIndex::new(0).with_sub_idx(Some(0)) > SourceIndex::min());
    assert!(SourceIndex::new(0).with_sub_idx(Some(SourceIndex::min())) > SourceIndex::min());
    assert!(SourceIndex::max() > SourceIndex::min());
}

#[test]
fn test_sub_idx_cmp_max() {
    assert_eq!(SourceIndex::max(), SourceIndex::max());

    assert!(SourceIndex::max() > SourceIndex::new(usize::MAX));
    assert!(SourceIndex::max() > SourceIndex::new(1));
    assert!(SourceIndex::max() > SourceIndex::new(0).with_sub_idx(Some(0)));
    assert!(SourceIndex::max() > SourceIndex::new(0).with_sub_idx(Some(SourceIndex::max())));
    assert!(SourceIndex::max() > SourceIndex::min());

    assert!(SourceIndex::new(usize::MAX) < SourceIndex::max());
    assert!(SourceIndex::new(1) < SourceIndex::max());
    assert!(SourceIndex::new(0).with_sub_idx(Some(0)) < SourceIndex::max());
    assert!(SourceIndex::new(0).with_sub_idx(Some(SourceIndex::max())) < SourceIndex::max());
    assert!(SourceIndex::min() < SourceIndex::max());
}

#[test]
fn test_index_order_of_nested_positions() {
    let a = SourceIndex::from_indices(&[1, 2, 3]);
    let b = SourceIndex::from_indices(&[1, 2, 4]);
    let c = SourceIndex::from_indices(&[1, 3]);
    assert!(a < b && b < c && a < c);
    assert!(a.lt(&b) && a.le(&b) && a.le(&a) && !a.lt(&a));
    assert!(SourceIndex::from_indices(&[1, 2]) < a);
    assert_eq!(a.idx(), 1);
    assert_eq!(a.sub_idx(), Some(&SourceIndex::from_indices(&[2, 3])));
    assert_eq!(SourceIndex::from(7).sub_idx(), None);
}

#[test]
fn test_index_sorting_agrees_with_comparison() {
    let mut list = vec![
        SourceIndex::max(),
        SourceIndex::from_indices(&[0, 5]),
        SourceIndex::new(3),
        SourceIndex::new(0),
        SourceIndex::min(),
    ];
    list.sort();
    assert_eq!(
        list,
        vec![
            SourceIndex::min(),
            SourceIndex::new(0),
            SourceIndex::from_indices(&[0, 5]),
            SourceIndex::new(3),
            SourceIndex::max(),
        ]
    );
}

#[test]
fn test_index_text() {
    assert_eq!(SourceIndex::new(12).to_text(), "12");
    assert_eq!(SourceIndex::new(12).with_sub_idx(Some(2)).to_text(), "12:2");
    assert_eq!(SourceIndex::min().to_text(), "0:MIN");
    assert_eq!(SourceIndex::max().to_text(), "18446744073709551615:MAX");
    assert_eq!(SourceIndex::from_indices(&[1, 2, 3]).debug_text(), "SourceIndex(1:2:3)");
}
