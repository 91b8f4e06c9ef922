use algvis::helpers::get_new_generation;
use algvis::sorting_algorithms::bubble_sort::bubble_sort;
use algvis::sorting_algorithms::heap_sort::heap_sort;
use algvis::sorting_algorithms::insertion_sort::insertion_sort;
use algvis::sorting_algorithms::merge_sort::merge_sort;
use algvis::sorting_algorithms::quick_sort::_quick_sort;
use algvis::sorting_algorithms::quick_sort::quick_sort;
use algvis::sorting_algorithms::shell_sort::shell_sort;
use algvis::steps::SortType;
use std::collections::VecDeque;

type Algorithm = fn(&mut Vec<i32>, &mut VecDeque<SortType<i32>>);

fn algorithms() -> Vec<(&'static str, Algorithm, bool)> {
    vec![
        ("merge", merge_sort::<i32> as Algorithm, true),
        ("quick", quick_sort::<i32> as Algorithm, false),
        ("heap", heap_sort::<i32> as Algorithm, false),
        ("bubble", bubble_sort::<i32> as Algorithm, false),
        ("insertion", insertion_sort::<i32> as Algorithm, false),
        ("shell", shell_sort::<i32> as Algorithm, true),
    ]
}

/// Applies the steps of a log, oldest first, as the playback does.
fn replay(initial: &[i32], log: &VecDeque<SortType<i32>>, count: usize) -> Vec<i32> {
    let mut data = initial.to_vec();
    for step in log.iter().rev().take(count) {
        match *step {
            SortType::Assign(index, value) => data[index] = value,
            SortType::Swap(a, b) => data.swap(a, b),
        }
    }
    data
}

fn replay_from(data: &[i32], log: &VecDeque<SortType<i32>>, from: usize) -> Vec<i32> {
    let mut data = data.to_vec();
    for step in log.iter().rev().skip(from) {
        match *step {
            SortType::Assign(index, value) => data[index] = value,
            SortType::Swap(a, b) => data.swap(a, b),
        }
    }
    data
}

fn inputs() -> Vec<Vec<i32>> {
    let mut all = vec![
        vec![],
        vec![7],
        vec![1, 2],
        vec![2, 1],
        vec![3, 1, 2],
        vec![1, 2, 3, 4, 5],
        vec![5, 4, 3, 2, 1],
        vec![2, 2, 1, 1, 3, 3],
        vec![0, -1, i32::MAX, i32::MIN, 5, 5, -1],
        vec![9, 1, 8, 2, 7, 3, 6, 4, 5, 0],
    ];
    for size in 0..=200 {
        all.push(get_new_generation(&size));
    }
    all
}

#[test]
fn every_algorithm_sorts_and_its_log_replays_to_the_sorted_array() {
    for (name, algorithm, _) in algorithms() {
        for input in inputs() {
            let mut items = input.clone();
            let mut steps = VecDeque::new();
            algorithm(&mut items, &mut steps);
            let mut expected = input.clone();
            expected.sort();
            assert_eq!(items, expected, "{} on {:?}", name, input);
            assert_eq!(replay(&input, &steps, steps.len()), expected, "{} on {:?}", name, input);
        }
    }
}

#[test]
fn every_algorithm_records_steps_of_its_kind_inside_the_array() {
    for (name, algorithm, assigns) in algorithms() {
        for input in inputs() {
            let mut items = input.clone();
            let mut steps = VecDeque::new();
            algorithm(&mut items, &mut steps);
            for step in steps.iter() {
                match *step {
                    SortType::Assign(index, _) => {
                        assert!(assigns, "{} recorded an assignment", name);
                        assert!(index < input.len());
                    }
                    SortType::Swap(a, b) => {
                        assert!(!assigns, "{} recorded a swap", name);
                        assert!(a < input.len() && b < input.len());
                    }
                }
            }
        }
    }
}

#[test]
fn a_prefix_of_a_log_and_then_the_rest_give_what_the_whole_log_gives() {
    for (name, algorithm, _) in algorithms() {
        for input in [vec![3, 1, 2], vec![5, 4, 3, 2, 1], get_new_generation(&40)] {
            let mut items = input.clone();
            let mut steps = VecDeque::new();
            algorithm(&mut items, &mut steps);
            let whole = replay(&input, &steps, steps.len());
            for k in 0..=steps.len() {
                let prefix = replay(&input, &steps, k);
                assert_eq!(replay_from(&prefix, &steps, k), whole, "{} split at {}", name, k);
            }
        }
    }
}

#[test]
fn no_element_and_one_element_record_nothing() {
    for (name, algorithm, _) in algorithms() {
        for input in [vec![], vec![42]] {
            let mut items = input.clone();
            let mut steps = VecDeque::new();
            algorithm(&mut items, &mut steps);
            assert_eq!(items, input, "{}", name);
            assert!(steps.is_empty(), "{} recorded {:?}", name, steps);
        }
    }
}

#[test]
fn steps_are_pushed_in_front_of_the_steps_that_the_log_holds() {
    for (name, algorithm, _) in algorithms() {
        let mut items = vec![2, 1, 3];
        let mut steps = VecDeque::new();
        steps.push_front(SortType::Swap(7, 7));
        algorithm(&mut items, &mut steps);
        assert!(steps.len() > 1, "{}", name);
        assert_eq!(steps.back(), Some(&SortType::Swap(7, 7)), "{}", name);
    }
}

#[test]
fn merge_sort_of_three_records_the_placements_of_its_two_merges() {
    let input = vec![3, 1, 2];
    let mut items = input.clone();
    let mut steps = VecDeque::new();
    merge_sort(&mut items, &mut steps);
    assert_eq!(replay(&input, &steps, 0), vec![3, 1, 2]);
    assert_eq!(replay(&input, &steps, steps.len()), vec![1, 2, 3]);
    assert_eq!(items, vec![1, 2, 3]);
    // the merge of [1] and [2] places two elements, the last merge three
    let chronological: Vec<SortType<i32>> = steps.iter().rev().cloned().collect();
    assert_eq!(
        chronological,
        vec![
            SortType::Assign(1, 1),
            SortType::Assign(2, 2),
            SortType::Assign(0, 1),
            SortType::Assign(1, 2),
            SortType::Assign(2, 3),
        ]
    );
    assert_eq!(&chronological[2..], &[
        SortType::Assign(0, 1),
        SortType::Assign(1, 2),
        SortType::Assign(2, 3),
    ]);
}

#[test]
fn merge_sort_records_one_step_for_each_cell_of_each_merged_range() {
    fn expected(n: usize) -> usize {
        if n <= 1 {
            0
        } else {
            expected(n / 2) + expected(n - n / 2) + n
        }
    }
    for size in 0..60 {
        let mut items = get_new_generation(&size);
        let mut steps = VecDeque::new();
        merge_sort(&mut items, &mut steps);
        assert_eq!(steps.len(), expected(size as usize));
    }
    assert_eq!(expected(8), 24);
}

#[test]
fn merge_sort_takes_the_right_element_first_where_two_are_equal() {
    let mut items = vec![(1, 'a'), (1, 'b')];
    let mut steps = VecDeque::new();
    merge_sort(&mut items, &mut steps);
    assert_eq!(items, vec![(1, 'a'), (1, 'b')]);
    assert_eq!(steps.len(), 2);
}

#[test]
fn bubble_sort_records_one_swap_of_neighbours_for_each_inversion() {
    let mut items = vec![3, 1, 2];
    let mut steps = VecDeque::new();
    bubble_sort(&mut items, &mut steps);
    let chronological: Vec<SortType<i32>> = steps.iter().rev().cloned().collect();
    assert_eq!(chronological, vec![SortType::Swap(0, 1), SortType::Swap(1, 2)]);
}

#[test]
fn insertion_sort_moves_an_element_left_by_swaps() {
    let mut items = vec![2, 3, 1];
    let mut steps = VecDeque::new();
    insertion_sort(&mut items, &mut steps);
    let chronological: Vec<SortType<i32>> = steps.iter().rev().cloned().collect();
    assert_eq!(chronological, vec![SortType::Swap(2, 1), SortType::Swap(1, 0)]);
}

#[test]
fn shell_sort_records_assignments() {
    let mut items = vec![2, 1];
    let mut steps = VecDeque::new();
    shell_sort(&mut items, &mut steps);
    let chronological: Vec<SortType<i32>> = steps.iter().rev().cloned().collect();
    assert_eq!(chronological, vec![SortType::Assign(1, 2), SortType::Assign(0, 1)]);
    assert_eq!(items, vec![1, 2]);
}

#[test]
fn heap_sort_of_two_swaps_the_root_behind_the_heap() {
    let mut items = vec![1, 2];
    let mut steps = VecDeque::new();
    heap_sort(&mut items, &mut steps);
    let chronological: Vec<SortType<i32>> = steps.iter().rev().cloned().collect();
    assert_eq!(
        chronological,
        vec![SortType::Swap(0, 1), SortType::Swap(0, 1), SortType::Swap(0, 0)]
    );
    assert_eq!(items, vec![1, 2]);
}

#[test]
fn quick_sort_moves_the_middle_element_to_the_end_first() {
    let mut items = vec![1, 3, 2];
    let mut steps = VecDeque::new();
    quick_sort(&mut items, &mut steps);
    let chronological: Vec<SortType<i32>> = steps.iter().rev().cloned().collect();
    assert_eq!(chronological[0], SortType::Swap(1, 2));
    assert_eq!(items, vec![1, 2, 3]);
}

#[test]
fn quick_sort_of_a_part_records_the_cells_of_the_whole_array() {
    let mut part = vec![9, 8];
    let mut steps = VecDeque::new();
    _quick_sort(&mut part, &mut steps, 5);
    assert_eq!(part, vec![8, 9]);
    for step in steps.iter() {
        match *step {
            SortType::Swap(a, b) => assert!((5..7).contains(&a) && (5..7).contains(&b)),
            SortType::Assign(..) => panic!("quick sort recorded an assignment"),
        }
    }
    let mut whole = vec![0, 1, 2, 3, 4, 9, 8, 7];
    for step in steps.iter().rev() {
        if let SortType::Swap(a, b) = *step {
            whole.swap(a, b);
        }
    }
    assert_eq!(whole, vec![0, 1, 2, 3, 4, 8, 9, 7]);
}

#[test]
fn the_log_of_quick_sort_of_three() {
    let mut items = vec![1, 3, 2];
    let mut steps = VecDeque::new();
    quick_sort(&mut items, &mut steps);
    let chronological: Vec<SortType<i32>> = steps.iter().rev().cloned().collect();
    assert_eq!(
        chronological,
        vec![
            // the partition of the whole about its middle element
            SortType::Swap(1, 2),
            SortType::Swap(0, 0),
            SortType::Swap(1, 1),
            SortType::Swap(2, 2),
            // the partition of the two cells before the pivot
            SortType::Swap(1, 1),
            SortType::Swap(0, 0),
            SortType::Swap(1, 1),
        ]
    );
}

#[test]
fn the_log_of_shell_sort_of_three() {
    let mut items = vec![3, 1, 2];
    let mut steps = VecDeque::new();
    shell_sort(&mut items, &mut steps);
    let chronological: Vec<SortType<i32>> = steps.iter().rev().cloned().collect();
    assert_eq!(
        chronological,
        vec![
            SortType::Assign(1, 3),
            SortType::Assign(0, 1),
            SortType::Assign(2, 3),
            SortType::Assign(1, 2),
        ]
    );
}

#[test]
fn the_log_of_shell_sort_begins_with_the_widest_gap() {
    let mut items = vec![4, 3, 2, 1];
    let mut steps = VecDeque::new();
    shell_sort(&mut items, &mut steps);
    let chronological: Vec<SortType<i32>> = steps.iter().rev().cloned().collect();
    // gap two: cell two against cell zero, cell three against cell one
    assert_eq!(
        &chronological[..4],
        &[
            SortType::Assign(2, 4),
            SortType::Assign(0, 2),
            SortType::Assign(3, 3),
            SortType::Assign(1, 1),
        ]
    );
    assert_eq!(items, vec![1, 2, 3, 4]);
}

#[test]
fn the_log_of_heap_sort_of_three() {
    let mut items = vec![1, 2, 3];
    let mut steps = VecDeque::new();
    heap_sort(&mut items, &mut steps);
    let chronological: Vec<SortType<i32>> = steps.iter().rev().cloned().collect();
    assert_eq!(
        chronological,
        vec![
            // the heap is built
            SortType::Swap(0, 2),
            // the roots are moved behind the heap
            SortType::Swap(0, 2),
            SortType::Swap(0, 1),
            SortType::Swap(0, 1),
            SortType::Swap(0, 0),
        ]
    );
    assert_eq!(items, vec![1, 2, 3]);
}

#[test]
fn the_log_of_insertion_sort_of_four() {
    let mut items = vec![4, 3, 2, 1];
    let mut steps = VecDeque::new();
    insertion_sort(&mut items, &mut steps);
    let chronological: Vec<SortType<i32>> = steps.iter().rev().cloned().collect();
    assert_eq!(
        chronological,
        vec![
            SortType::Swap(1, 0),
            SortType::Swap(2, 1),
            SortType::Swap(1, 0),
            SortType::Swap(3, 2),
            SortType::Swap(2, 1),
            SortType::Swap(1, 0),
        ]
    );
}

#[test]
fn the_log_of_bubble_sort_of_four() {
    let mut items = vec![2, 1, 4, 3];
    let mut steps = VecDeque::new();
    bubble_sort(&mut items, &mut steps);
    let chronological: Vec<SortType<i32>> = steps.iter().rev().cloned().collect();
    assert_eq!(chronological, vec![SortType::Swap(0, 1), SortType::Swap(2, 3)]);
}
