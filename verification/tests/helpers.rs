use algvis::config::MazeConfigValues;
use algvis::config::SortConfigValues;
use algvis::coords::Coords;
use algvis::helpers::get_new_generation;
use algvis::helpers::parse_string_to_i32_or_default;
use algvis::helpers::shuffle;
use algvis::order::at_most;
use algvis::order::greater;
use algvis::order::less;
use algvis::services::maze_generator::Cell;
use algvis::steps::SortType;

#[test]
fn a_number_is_parsed() {
    assert_eq!(parse_string_to_i32_or_default("42".to_string(), 0), 42);
    assert_eq!(parse_string_to_i32_or_default("-7".to_string(), 0), -7);
    assert_eq!(parse_string_to_i32_or_default("+5".to_string(), 0), 5);
    assert_eq!(parse_string_to_i32_or_default("007".to_string(), 1), 7);
    assert_eq!(parse_string_to_i32_or_default("-0".to_string(), 1), 0);
    assert_eq!(parse_string_to_i32_or_default("2147483647".to_string(), 0), i32::MAX);
    assert_eq!(parse_string_to_i32_or_default("-2147483648".to_string(), 0), i32::MIN);
}

#[test]
fn what_is_no_number_gives_the_default() {
    for text in ["", "abc", " 1", "1 ", "1.5", "+", "-", "+-1", "1_000", "2147483648", "-2147483649", "٣"] {
        assert_eq!(parse_string_to_i32_or_default(text.to_string(), 17), 17, "{:?}", text);
    }
    assert_eq!(parse_string_to_i32_or_default("x".to_string(), -3), -3);
}

#[test]
fn a_generation_holds_the_numbers_from_one_up_to_the_count() {
    for count in [0, 1, 2, 10, 100] {
        let mut generation = get_new_generation(&count);
        assert_eq!(generation.len(), count as usize);
        generation.sort();
        assert_eq!(generation, (1..=count).collect::<Vec<i32>>());
    }
}

#[test]
fn a_generation_for_a_count_that_is_not_positive_is_empty() {
    assert!(get_new_generation(&0).is_empty());
    assert!(get_new_generation(&-5).is_empty());
}

#[test]
fn generations_come_in_an_order_taken_by_chance() {
    let ascending: Vec<i32> = (1..=50).collect();
    let mut moved = false;
    for _ in 0..20 {
        if get_new_generation(&50) != ascending {
            moved = true;
        }
    }
    assert!(moved);
}

#[test]
fn shuffle_keeps_the_elements() {
    let data = vec!['a', 'b', 'b', 'c', 'd', 'e', 'f', 'g'];
    let mut shuffled = shuffle(data.clone());
    assert_eq!(shuffled.len(), data.len());
    shuffled.sort();
    assert_eq!(shuffled, data);
    let mut moved = false;
    for _ in 0..40 {
        if shuffle(data.clone()) != data {
            moved = true;
        }
    }
    assert!(moved);
    assert_eq!(shuffle(Vec::<u8>::new()), Vec::<u8>::new());
}

#[test]
fn comparisons_are_those_of_the_type() {
    assert!(greater(&2, &1) && !greater(&1, &1) && !greater(&0, &1));
    assert!(less(&1, &2) && !less(&1, &1) && !less(&2, &1));
    assert!(at_most(&1, &2) && at_most(&1, &1) && !at_most(&2, &1));
}

#[test]
fn the_configuration_of_a_sorter_starts_with_merge_sort() {
    let config = SortConfigValues::new();
    assert_eq!(config.items_count, 100);
    assert_eq!(config.time_overall, 10);
    assert_eq!(config.current_algorithm_name, "merge_sort");
}

#[test]
fn the_configuration_of_a_mazer_starts_with_the_depth_first_solver() {
    let config = MazeConfigValues::new();
    assert_eq!(config.time_overall, 2);
    assert_eq!(config.size, 35);
    assert_eq!(config.cell_type, Cell::Entry);
    assert_eq!(config.current_algorithm_name, "dfs");
    assert_eq!(config.current_step, 0);
}

#[test]
fn coordinates_are_column_and_row() {
    let coords = Coords::from(3usize, 5usize);
    assert_eq!(coords.x, 3);
    assert_eq!(coords.y, 5);
    assert_eq!(coords.as_row_col(), (5, 3));
}

#[test]
fn a_step_in_words() {
    assert_eq!(SortType::<i32>::Swap(1, 12).to_string(), "Swap indexes 1 and 12");
    assert_eq!(SortType::<i32>::Swap(0, 3).to_string(), "Swap indexes 0 and 3");
    assert_eq!(SortType::<i32>::Swap(3, 3).to_string(), "Swap indexes 3 and 3");
    assert_eq!(SortType::<i32>::Swap(0, 0).to_string(), "");
    assert_eq!(SortType::Assign(4, -15).to_string(), "Set index 4 to -15");
    assert_eq!(SortType::Assign(0, 0).to_string(), "Set index 0 to 0");
    assert_eq!(SortType::Assign(10, i32::MIN).to_string(), "Set index 10 to -2147483648");
}

#[test]
fn the_cells_that_a_step_touched() {
    assert_eq!(SortType::<i32>::Swap(1, 12).colored_items(), vec![1, 12]);
    assert_eq!(SortType::<i32>::Swap(0, 4).colored_items(), vec![0, 4]);
    assert_eq!(SortType::<i32>::Swap(3, 3).colored_items(), vec![3, 3]);
    assert_eq!(SortType::<i32>::Swap(0, 0).colored_items(), Vec::<usize>::new());
    assert_eq!(SortType::Assign(7, -1).colored_items(), vec![7]);
    assert_eq!(SortType::Assign(0, 0).colored_items(), vec![0]);
}
