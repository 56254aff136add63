use binpack::{bin_pack, Item, NotPossible};

#[test]
fn test_bin_pack() {
    assert_eq!(bin_pack::<usize>(&[], &mut []), Ok(vec![]));
    assert_eq!(bin_pack::<usize>(&[], &mut [1]), Ok(vec![vec![]]));
    assert_eq!(
        bin_pack(&[(1, "a"), (2, "b"), (3, "c")], &mut [1, 2, 3]),
        Ok(vec![vec![(1, "a")], vec![(2, "b")], vec![(3, "c")]])
    );
    assert_eq!(
        bin_pack(
            &[
                (3, "a"),
                (3, "b"),
                (3, "c"),
                (3, "d"),
                (3, "e"),
                (3, "f"),
                (3, "g"),
                (3, "h")
            ],
            &mut [8, 8, 8]
        ),
        Err(NotPossible)
    );
    assert_eq!(
        bin_pack(
            &[
                (3, "a"),
                (3, "b"),
                (2, "c"),
                (3, "d"),
                (3, "e"),
                (2, "f"),
                (3, "g"),
                (3, "h"),
                (2, "i"),
            ],
            &mut [8, 8, 8]
        ),
        Ok(vec![
            vec![(3, "a"), (3, "b"), (2, "c")],
            vec![(3, "d"), (3, "e"), (2, "f")],
            vec![(3, "g"), (3, "h"), (2, "i")]
        ]),
    );
}

#[test]
fn sizes_of_the_two_item_shapes() {
    assert_eq!(7usize.size(), 7);
    assert_eq!(0usize.size(), 0);
    assert_eq!((5usize, "payload").size(), 5);
    assert_eq!((usize::MAX, vec![1u8, 2, 3]).size(), usize::MAX);
}

#[test]
fn no_items_give_one_empty_bin_per_capacity() {
    let mut free_space = [0usize, 7, 0, usize::MAX];
    let bins = bin_pack::<(usize, char)>(&[], &mut free_space).unwrap();
    assert_eq!(bins.len(), 4);
    assert!(bins.iter().all(|bin| bin.is_empty()));
    assert_eq!(free_space, [0, 7, 0, usize::MAX]);
}

#[test]
fn items_without_bins_cannot_be_packed() {
    assert_eq!(bin_pack(&[1usize], &mut []), Err(NotPossible));
    assert_eq!(bin_pack(&[0usize], &mut []), Err(NotPossible));
}

#[test]
fn an_item_larger_than_every_bin_cannot_be_packed() {
    let mut free_space = [4usize, 9, 2];
    assert_eq!(bin_pack(&[1usize, 10, 1], &mut free_space), Err(NotPossible));
    assert_eq!(free_space, [4, 9, 2]);
}

#[test]
fn the_highest_bin_with_room_is_taken_first() {
    assert_eq!(bin_pack(&[1usize], &mut [1, 1, 1]), Ok(vec![vec![], vec![], vec![1]]));
    assert_eq!(bin_pack(&[2usize], &mut [2, 5, 1]), Ok(vec![vec![], vec![2], vec![]]));
    assert_eq!(
        bin_pack(&[(1usize, 'a'), (1, 'b'), (1, 'c')], &mut [3, 2]),
        Ok(vec![vec![(1, 'a')], vec![(1, 'b'), (1, 'c')]])
    );
}

#[test]
fn a_dead_end_sends_the_item_to_a_lower_bin() {
    // The 2 would go to the last bin, but then the 4 has no place.
    assert_eq!(bin_pack(&[4usize, 2], &mut [2, 4]), Ok(vec![vec![2], vec![4]]));
    // The same over three bins, with the choice for the last item undone twice.
    assert_eq!(
        bin_pack(&[(5usize, "x"), (5, "y"), (1, "z")], &mut [1, 5, 5]),
        Ok(vec![vec![(1, "z")], vec![(5, "x")], vec![(5, "y")]])
    );
}

#[test]
fn items_of_size_zero_fit_into_full_bins() {
    assert_eq!(bin_pack(&[0usize, 0], &mut [0]), Ok(vec![vec![0, 0]]));
    assert_eq!(bin_pack(&[0usize, 3, 0], &mut [3, 0]), Ok(vec![vec![3], vec![0, 0]]));
}

#[test]
fn a_bin_may_be_filled_to_the_brim() {
    assert_eq!(
        bin_pack(&[usize::MAX - 1, 1], &mut [usize::MAX]),
        Ok(vec![vec![usize::MAX - 1, 1]])
    );
    assert_eq!(bin_pack(&[usize::MAX, 1], &mut [usize::MAX]), Err(NotPossible));
}

#[test]
fn free_space_is_restored_after_a_failure() {
    let mut free_space = [8usize, 8, 8];
    let items = [3usize, 3, 3, 3, 3, 3, 3, 3];
    assert_eq!(bin_pack(&items, &mut free_space), Err(NotPossible));
    assert_eq!(free_space, [8, 8, 8]);
}

#[test]
fn free_space_is_restored_after_a_success() {
    let mut free_space = [8usize, 8, 8];
    let items = [3usize, 3, 2, 3, 3, 2, 3, 3, 2];
    assert!(bin_pack(&items, &mut free_space).is_ok());
    assert_eq!(free_space, [8, 8, 8]);
}

#[test]
fn no_bin_is_overfilled_and_no_item_is_lost() {
    let items = [(4usize, 0u8), (1, 1), (6, 2), (2, 3), (3, 4), (5, 5), (1, 6)];
    let capacities = [7usize, 9, 6];
    let mut free_space = capacities;
    let bins = bin_pack(&items, &mut free_space).unwrap();
    assert_eq!(bins.len(), capacities.len());
    for (bin, capacity) in bins.iter().zip(capacities.iter()) {
        let used: usize = bin.iter().map(|item| item.size()).sum();
        assert!(used <= *capacity);
    }
    let mut placed: Vec<(usize, u8)> = bins.iter().flatten().cloned().collect();
    placed.sort();
    let mut given = items.to_vec();
    given.sort();
    assert_eq!(placed, given);
}

#[test]
fn each_bin_keeps_the_order_of_the_input() {
    let items = [(2usize, 0u32), (2, 1), (1, 2), (2, 3), (1, 4), (2, 5), (1, 6), (1, 7)];
    let bins = bin_pack(&items, &mut [6, 6]).unwrap();
    assert_eq!(
        bins,
        vec![
            vec![(2, 0), (2, 1), (2, 3)],
            vec![(1, 2), (1, 4), (2, 5), (1, 6), (1, 7)]
        ]
    );
    for bin in &bins {
        assert!(bin.windows(2).all(|pair| pair[0].1 < pair[1].1));
    }
}

#[test]
fn the_same_input_gives_the_same_outcome() {
    let items = [(3usize, 'a'), (5, 'b'), (2, 'c'), (4, 'd'), (1, 'e')];
    let mut free_space = [6usize, 5, 4];
    let first = bin_pack(&items, &mut free_space);
    let second = bin_pack(&items, &mut free_space);
    assert!(first.is_ok());
    assert_eq!(first, second);

    let mut too_small = [6usize, 5, 3];
    let third = bin_pack(&items, &mut too_small);
    let fourth = bin_pack(&items, &mut too_small);
    assert_eq!(third, Err(NotPossible));
    assert_eq!(third, fourth);
}
