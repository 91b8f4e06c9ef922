use algvis::config::SortConfigValues;
use algvis::services::playable::Cursor;
use algvis::services::playable::StepTime;
use algvis::services::sorter::SortAlgorithm;
use algvis::services::sorter::Sorter;
use algvis::services::sorter::SortingAlgorithmEnum;
use algvis::steps::SortType;
use std::collections::VecDeque;

fn config(items: i32, seconds: i32, algorithm: &str) -> SortConfigValues {
    SortConfigValues {
        items_count: items,
        time_overall: seconds,
        current_algorithm_name: algorithm.to_string(),
    }
}

fn sorter_of(initial: Vec<i32>, algorithm: &str) -> Sorter {
    let mut sorter = Sorter {
        data: initial.clone(),
        algorithm: SortingAlgorithmEnum::MergeSort,
        active_step: 0,
        steps: VecDeque::new(),
        steps_time: StepTime { millis: 0, steps: 0 },
        initial_data: initial,
        is_playing: false,
    };
    sorter.sort(&config(0, 10, algorithm));
    sorter
}

const NAMES: [&str; 6] =
    ["merge_sort", "bubble_sort", "heap_sort", "quick_sort", "insertion_sort", "shell_sort"];

#[test]
fn an_algorithm_is_found_by_its_name() {
    assert_eq!(
        SortingAlgorithmEnum::from_string("merge_sort".to_string()),
        Ok(SortingAlgorithmEnum::MergeSort)
    );
    assert_eq!(
        SortingAlgorithmEnum::from_string("bubble_sort".to_string()),
        Ok(SortingAlgorithmEnum::BubbleSort)
    );
    assert_eq!(
        SortingAlgorithmEnum::from_string("heap_sort".to_string()),
        Ok(SortingAlgorithmEnum::HeapSort)
    );
    assert_eq!(
        SortingAlgorithmEnum::from_string("quick_sort".to_string()),
        Ok(SortingAlgorithmEnum::QuickSort)
    );
    assert_eq!(
        SortingAlgorithmEnum::from_string("insertion_sort".to_string()),
        Ok(SortingAlgorithmEnum::InsertionSort)
    );
    assert_eq!(
        SortingAlgorithmEnum::from_string("shell_sort".to_string()),
        Ok(SortingAlgorithmEnum::ShellSort)
    );
}

#[test]
fn a_name_of_no_algorithm_is_an_error() {
    for name in ["", "merge", "Merge_Sort", "bucket_sort", "merge_sort "] {
        assert_eq!(SortingAlgorithmEnum::from_string(name.to_string()), Err("Invalid variant"));
    }
}

#[test]
fn a_name_of_no_algorithm_chooses_merge_sort() {
    assert_eq!(SortAlgorithm::from(&config(3, 1, "no such sort")), SortingAlgorithmEnum::MergeSort);
    assert_eq!(SortAlgorithm::from(&config(3, 1, "heap_sort")), SortingAlgorithmEnum::HeapSort);
    let mut items = vec![3, 1, 2];
    let mut steps = VecDeque::new();
    SortAlgorithm::new().do_sort(&config(3, 1, "no such sort"), &mut items, &mut steps);
    assert_eq!(items, vec![1, 2, 3]);
    assert_eq!(steps.len(), 5);
    assert!(steps.iter().all(|step| matches!(step, SortType::Assign(..))));
}

#[test]
fn the_registry_runs_the_algorithm_of_the_name() {
    let mut items = vec![3, 1, 2];
    let mut steps = VecDeque::new();
    SortAlgorithm::new().do_sort(&config(3, 1, "bubble_sort"), &mut items, &mut steps);
    assert_eq!(items, vec![1, 2, 3]);
    let chronological: Vec<SortType<i32>> = steps.iter().rev().cloned().collect();
    assert_eq!(chronological, vec![SortType::Swap(0, 1), SortType::Swap(1, 2)]);

    let mut items = vec![2, 1];
    let mut steps = VecDeque::new();
    SortAlgorithm::from_enum(SortingAlgorithmEnum::ShellSort, &mut items, &mut steps);
    let chronological: Vec<SortType<i32>> = steps.iter().rev().cloned().collect();
    assert_eq!(chronological, vec![SortType::Assign(1, 2), SortType::Assign(0, 1)]);
}

#[test]
fn a_new_sorter_shows_its_array_before_the_first_step() {
    for name in NAMES {
        let sorter = Sorter::new(&config(30, 10, name));
        assert_eq!(sorter.initial_data.len(), 30);
        assert_eq!(sorter.data, sorter.initial_data);
        assert_eq!(sorter.active_step, 0);
        assert!(!sorter.is_playing);
        assert_eq!(sorter.steps_time, StepTime { millis: 0, steps: 0 });
        let mut sorted = sorter.initial_data.clone();
        sorted.sort();
        assert_eq!(sorted, (1..=30).collect::<Vec<i32>>());
        let mut at_end = sorter.clone();
        at_end.set_step(u32::MAX);
        assert_eq!(at_end.data, sorted, "{}", name);
    }
}

#[test]
fn set_step_shows_the_state_after_that_many_steps() {
    let mut sorter = sorter_of(vec![3, 1, 2], "merge_sort");
    let states = [
        vec![3, 1, 2],
        vec![3, 1, 2],
        vec![3, 1, 2],
        vec![1, 1, 2],
        vec![1, 2, 2],
        vec![1, 2, 3],
    ];
    for (step, state) in states.iter().enumerate() {
        sorter.set_step(step as u32);
        assert_eq!(&sorter.data, state);
        assert_eq!(sorter.active_step, step as u32);
        assert_eq!(sorter.get_active_step_string(), step.to_string());
    }
    assert_eq!(sorter.get_steps_len_string(), "5");
    for step in (0..states.len()).rev() {
        sorter.set_step(step as u32);
        assert_eq!(sorter.data, states[step]);
    }
}

#[test]
fn set_step_behind_the_end_goes_to_the_end() {
    let mut sorter = sorter_of(vec![3, 1, 2], "bubble_sort");
    sorter.set_step(100);
    assert_eq!(sorter.active_step, 2);
    assert_eq!(sorter.data, vec![1, 2, 3]);
}

#[test]
fn two_computations_of_one_step_agree() {
    for name in NAMES {
        let mut sorter = Sorter::new(&config(25, 5, name));
        let total = sorter.steps.len() as u32;
        for step in [0, 1, total / 3, total / 2, total] {
            let first = sorter.get_output_by_step(step);
            let second = sorter.get_output_by_step(step);
            assert_eq!(first, second);
            let mut other = sorter.clone();
            other.set_step(total);
            other.set_step(step);
            assert_eq!(other.data, first);
        }
    }
}

#[test]
fn get_output_by_step_leaves_the_sorter_as_it_is() {
    let mut sorter = sorter_of(vec![3, 1, 2], "quick_sort");
    sorter.set_step(1);
    let before = sorter.clone();
    let output = sorter.get_output_by_step(3);
    assert!(sorter == before);
    assert_ne!(output, sorter.data);
}

#[test]
fn a_step_outside_the_array_changes_nothing() {
    let mut sorter = sorter_of(vec![3, 1, 2], "bubble_sort");
    sorter.steps.push_front(SortType::Swap(0, 9));
    sorter.steps.push_front(SortType::Assign(9, 1));
    sorter.set_step(4);
    assert_eq!(sorter.data, vec![1, 2, 3]);
}

#[test]
fn the_active_item_is_the_step_that_was_applied_last() {
    let mut sorter = sorter_of(vec![3, 1, 2], "bubble_sort");
    assert_eq!(sorter.get_active_step_item(), SortType::Swap(0, 0));
    sorter.set_step(1);
    assert_eq!(sorter.get_active_step_item(), SortType::Swap(0, 1));
    sorter.set_step(2);
    assert_eq!(sorter.get_active_step_item(), SortType::Swap(1, 2));
    sorter.active_step = 3;
    assert_eq!(sorter.get_active_step_item(), SortType::Swap(0, 0));
}

#[test]
fn play_plans_the_time_for_the_steps_that_remain() {
    let mut sorter = sorter_of(vec![5, 4, 3, 2, 1], "bubble_sort");
    assert_eq!(sorter.steps.len(), 10);
    assert_eq!(sorter.tick_time(), 0);
    sorter.play(&config(5, 2, "bubble_sort"));
    assert!(sorter.is_playing);
    assert_eq!(sorter.active_step, 0);
    assert_eq!(sorter.steps_time, StepTime { millis: 2000, steps: 10 });
    assert_eq!(sorter.tick_time(), 200);

    sorter.set_step(6);
    sorter.stop();
    assert!(!sorter.is_playing);
    assert_eq!(sorter.steps_time, StepTime { millis: 0, steps: 0 });
    assert_eq!(sorter.tick_time(), 0);
    sorter.play(&config(5, 2, "bubble_sort"));
    assert_eq!(sorter.active_step, 6);
    assert_eq!(sorter.steps_time, StepTime { millis: 2000, steps: 4 });
    assert_eq!(sorter.tick_time(), 500);
}

#[test]
fn play_at_the_end_starts_again_from_the_first_step() {
    let mut sorter = sorter_of(vec![3, 1, 2], "bubble_sort");
    sorter.set_step(2);
    assert_eq!(sorter.data, vec![1, 2, 3]);
    sorter.play(&config(3, 1, "bubble_sort"));
    assert!(sorter.is_playing);
    assert_eq!(sorter.active_step, 0);
    assert_eq!(sorter.data, vec![3, 1, 2]);
    assert_eq!(sorter.steps_time, StepTime { millis: 1000, steps: 2 });
}

#[test]
fn play_of_a_sorter_that_plays_changes_nothing() {
    let mut sorter = sorter_of(vec![5, 4, 3, 2, 1], "bubble_sort");
    sorter.play(&config(5, 2, "bubble_sort"));
    sorter.tick();
    let before = sorter.clone();
    sorter.play(&config(5, 7, "bubble_sort"));
    assert!(sorter == before);
}

#[test]
fn an_empty_log_makes_play_and_tick_do_nothing() {
    let mut sorter = sorter_of(vec![1, 2, 3], "bubble_sort");
    assert!(sorter.steps.is_empty());
    let before = sorter.clone();
    sorter.play(&config(3, 10, "bubble_sort"));
    assert!(sorter == before);
    sorter.tick();
    assert!(sorter == before);
    assert_eq!(sorter.tick_time(), 0);
}

#[test]
fn a_time_that_is_not_positive_makes_play_do_nothing() {
    let mut sorter = sorter_of(vec![3, 1, 2], "bubble_sort");
    let before = sorter.clone();
    sorter.play(&config(3, 0, "bubble_sort"));
    assert!(sorter == before);
    sorter.play(&config(3, -4, "bubble_sort"));
    assert!(sorter == before);
}

#[test]
fn tick_of_a_sorter_that_does_not_play_changes_nothing() {
    let mut sorter = sorter_of(vec![3, 1, 2], "bubble_sort");
    sorter.set_step(1);
    let before = sorter.clone();
    sorter.tick();
    assert!(sorter == before);
}

#[test]
fn tick_moves_by_the_steps_that_are_due() {
    // 1000 ms for 10 steps: 100 ms a step, one step a tick
    let mut sorter = sorter_of(vec![5, 4, 3, 2, 1], "bubble_sort");
    sorter.play(&config(5, 1, "bubble_sort"));
    assert_eq!(sorter.tick_time(), 100);
    sorter.tick();
    assert_eq!(sorter.active_step, 1);
    assert_eq!(sorter.data, vec![4, 5, 3, 2, 1]);
    sorter.tick();
    assert_eq!(sorter.active_step, 2);
    assert!(sorter.is_playing);
}

#[test]
fn tick_keeps_the_animation_close_to_the_time_that_was_asked_for() {
    // one second for 1225 steps: less than a millisecond a step, so that a
    // tick every 33 ms has to move by 41 steps
    let descending: Vec<i32> = (1..=50).rev().collect();
    let mut sorter = sorter_of(descending, "bubble_sort");
    assert_eq!(sorter.steps.len(), 1225);
    sorter.play(&config(50, 1, "bubble_sort"));
    assert_eq!(sorter.steps_time.step_increment(), 41);
    assert_eq!(sorter.tick_time(), 33);
    let mut ticks = 0;
    while sorter.is_playing {
        let before = sorter.active_step;
        sorter.tick();
        ticks += 1;
        assert!(sorter.active_step == before + 41 || sorter.active_step == 1225);
        assert!(ticks <= 30);
    }
    assert_eq!(ticks, 30);
    assert_eq!(sorter.active_step, 1225);
    assert_eq!(sorter.data, (1..=50).collect::<Vec<i32>>());
}

#[test]
fn tick_at_the_end_comes_to_rest_and_further_ticks_change_nothing() {
    for name in NAMES {
        let mut sorter = Sorter::new(&config(20, 1, name));
        sorter.play(&config(20, 1, name));
        let total = sorter.steps.len() as u32;
        let mut guard = 0;
        while sorter.active_step < total {
            sorter.tick();
            guard += 1;
            assert!(guard < 10_000);
        }
        sorter.tick();
        assert!(!sorter.is_playing);
        assert_eq!(sorter.active_step, total);
        assert_eq!(sorter.tick_time(), 0);
        let rested = sorter.clone();
        for _ in 0..5 {
            sorter.tick();
            assert!(sorter == rested);
            assert!(!sorter.is_playing);
        }
    }
}

#[test]
fn the_tick_that_reaches_the_end_brings_the_sorter_to_rest() {
    let mut sorter = sorter_of(vec![3, 1, 2], "bubble_sort");
    sorter.play(&config(3, 1, "bubble_sort"));
    sorter.tick();
    assert!(sorter.is_playing);
    assert_eq!(sorter.active_step, 1);
    sorter.tick();
    assert!(!sorter.is_playing);
    assert_eq!(sorter.active_step, 2);
    assert_eq!(sorter.steps_time, StepTime { millis: 0, steps: 0 });
    assert_eq!(sorter.data, vec![1, 2, 3]);
}

#[test]
fn sort_replaces_the_log_and_rests_at_the_start() {
    let mut sorter = sorter_of(vec![3, 1, 2], "bubble_sort");
    sorter.play(&config(3, 1, "bubble_sort"));
    sorter.tick();
    sorter.sort(&config(3, 1, "merge_sort"));
    assert_eq!(sorter.steps.len(), 5);
    assert_eq!(sorter.active_step, 0);
    assert!(!sorter.is_playing);
    assert_eq!(sorter.data, vec![3, 1, 2]);
    assert_eq!(sorter.initial_data, vec![3, 1, 2]);
}

#[test]
fn generate_replaces_the_run() {
    let mut sorter = sorter_of(vec![3, 1, 2], "bubble_sort");
    sorter.set_step(2);
    sorter.generate(&config(12, 1, "heap_sort"));
    assert_eq!(sorter.initial_data.len(), 12);
    assert_eq!(sorter.data, sorter.initial_data);
    assert_eq!(sorter.active_step, 0);
    let mut sorted = sorter.initial_data.clone();
    sorted.sort();
    sorter.set_step(u32::MAX);
    assert_eq!(sorter.data, sorted);
}

#[test]
fn the_time_of_a_step() {
    let idle = StepTime::new_idle();
    assert!(idle.idles());
    assert_eq!(idle.step_increment(), 0);
    assert_eq!(idle.tick_interval(), 0);
    assert!(StepTime::new_planned(0, 10).idles());
    assert!(StepTime::new_planned(-1, 10).idles());
    assert!(StepTime::new_planned(5, 0).idles());

    // ten seconds for a hundred steps: 100 ms a step
    let slow = StepTime::new_planned(10, 100);
    assert_eq!(slow, StepTime { millis: 10_000, steps: 100 });
    assert_eq!(slow.step_increment(), 1);
    assert_eq!(slow.tick_interval(), 100);

    // 33.33 ms a step and a little more or less
    assert_eq!(StepTime { millis: 3333, steps: 100 }.step_increment(), 1);
    assert_eq!(StepTime { millis: 3334, steps: 100 }.step_increment(), 1);
    assert_eq!(StepTime { millis: 3332, steps: 100 }.step_increment(), 2);
    assert_eq!(StepTime { millis: 3332, steps: 100 }.tick_interval(), 33);
    assert_eq!(StepTime { millis: 3400, steps: 100 }.tick_interval(), 34);
    assert_eq!(StepTime { millis: 3399, steps: 100 }.tick_interval(), 33);

    // one second for a thousand steps: one millisecond a step
    let fast = StepTime::new_planned(1, 1000);
    assert_eq!(fast.step_increment(), 34);
    assert_eq!(fast.tick_interval(), 33);

    assert_eq!(StepTime::new_planned(i32::MAX, 1).tick_interval(), u32::MAX);
    assert_eq!(StepTime { millis: 1, steps: u32::MAX }.step_increment(), 143_151_259_943);
}

#[test]
fn the_cursor_moves_as_its_model_says() {
    let mut cursor = Cursor::new();
    assert_eq!(cursor.active_step, 0);
    assert!(!cursor.is_playing);
    cursor.seek(7, 5);
    assert_eq!(cursor.active_step, 5);
    cursor.seek(3, 5);
    assert_eq!(cursor.active_step, 3);
    cursor.play(1, 5);
    assert!(cursor.is_playing);
    assert_eq!(cursor.steps_time, StepTime { millis: 1000, steps: 2 });
    assert_eq!(cursor.interval(), 500);
    cursor.tick(5);
    assert_eq!(cursor.active_step, 4);
    cursor.stop();
    assert_eq!(cursor.interval(), 0);
    assert_eq!(cursor.steps_time, StepTime { millis: 0, steps: 0 });
    cursor.tick(5);
    assert_eq!(cursor.active_step, 4);
    cursor.play(1, 5);
    cursor.tick(5);
    assert_eq!(cursor.active_step, 5);
    assert!(!cursor.is_playing);
    let rested = cursor;
    cursor.tick(5);
    assert_eq!(cursor, rested);
    // a cursor behind the end of the log comes back to the end
    let mut cursor = Cursor { active_step: 9, is_playing: true, steps_time: StepTime::new_planned(1, 5) };
    cursor.tick(5);
    assert_eq!(cursor, Cursor { active_step: 5, is_playing: false, steps_time: StepTime::new_idle() });
}

#[test]
fn a_tick_of_a_cursor_at_rest_leaves_it_where_it_stands() {
    for step in 0..=5 {
        let mut cursor = Cursor::new();
        cursor.seek(step, 5);
        let before = cursor;
        cursor.tick(5);
        assert_eq!(cursor, before);
    }
}

#[test]
fn play_at_the_end_starts_again_whether_the_cursor_plays_or_not() {
    for playing in [false, true] {
        let mut cursor = Cursor {
            active_step: 5,
            is_playing: playing,
            steps_time: StepTime::new_planned(3, 2),
        };
        cursor.play(1, 5);
        assert_eq!(
            cursor,
            Cursor { active_step: 0, is_playing: true, steps_time: StepTime { millis: 1000, steps: 5 } }
        );
    }
    // inside the log a cursor that plays is left as it is
    let mut cursor = Cursor { active_step: 2, is_playing: true, steps_time: StepTime::new_planned(3, 3) };
    let before = cursor;
    cursor.play(1, 5);
    assert_eq!(cursor, before);
    // nothing to animate
    let mut cursor = Cursor { active_step: 0, is_playing: true, steps_time: StepTime::new_idle() };
    let before = cursor;
    cursor.play(1, 0);
    assert_eq!(cursor, before);
    cursor.play(0, 5);
    assert_eq!(cursor, before);
}

#[test]
fn play_of_a_sorter_that_was_moved_to_the_end_while_it_played_starts_again() {
    let mut sorter = sorter_of(vec![3, 1, 2], "bubble_sort");
    sorter.play(&config(3, 1, "bubble_sort"));
    sorter.set_step(2);
    assert!(sorter.is_playing);
    assert_eq!(sorter.data, vec![1, 2, 3]);
    sorter.play(&config(3, 4, "bubble_sort"));
    assert!(sorter.is_playing);
    assert_eq!(sorter.active_step, 0);
    assert_eq!(sorter.data, vec![3, 1, 2]);
    assert_eq!(sorter.steps_time, StepTime { millis: 4000, steps: 2 });
    assert_eq!(sorter.steps.len(), 2);
    assert_eq!(sorter.initial_data, vec![3, 1, 2]);
}

#[test]
fn a_new_sorter_is_one_of_merge_sort() {
    let sorter = Sorter::new(&config(10, 1, "heap_sort"));
    assert_eq!(sorter.algorithm, SortingAlgorithmEnum::MergeSort);
}

#[test]
fn a_tick_that_does_not_move_the_cursor_leaves_the_array_as_it_is_shown() {
    let mut sorter = sorter_of(vec![3, 1, 2], "bubble_sort");
    sorter.set_step(sorter.steps.len() as u32);
    sorter.data = vec![7, 8, 9];
    let before = sorter.clone();
    sorter.tick();
    assert!(sorter == before);
    sorter.set_step(0);
    sorter.data = vec![7, 8, 9];
    sorter.tick();
    assert_eq!(sorter.data, vec![7, 8, 9]);
    assert_eq!(sorter.active_step, 0);
}
