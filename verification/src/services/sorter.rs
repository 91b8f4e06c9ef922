//! The sorter: one run of a sorting algorithm over an array, and its
//! playback.

use crate::config::SortConfigValues;
use crate::helpers::get_new_generation;
use crate::helpers::one_up_to;
use crate::order::lemma_i32_lawful;
use crate::order::sorted;
use crate::services::playable::Cursor;
use crate::services::playable::StepTime;
use crate::sorting_algorithms::bubble_sort::bubble_sort;
use crate::sorting_algorithms::bubble_sort::bubble_sort_log;
use crate::sorting_algorithms::heap_sort::heap_sort;
use crate::sorting_algorithms::heap_sort::heap_sort_log;
use crate::sorting_algorithms::insertion_sort::insertion_sort;
use crate::sorting_algorithms::insertion_sort::insertion_sort_log;
use crate::sorting_algorithms::merge_sort::merge_sort;
use crate::sorting_algorithms::merge_sort::merge_sort_log;
use crate::sorting_algorithms::merge_sort::merge_sort_steps;
use crate::sorting_algorithms::quick_sort::quick_sort;
use crate::sorting_algorithms::quick_sort::quick_sort_log;
use crate::sorting_algorithms::shell_sort::shell_sort;
use crate::sorting_algorithms::shell_sort::shell_sort_log;
use crate::sorting_algorithms::sorts;
use crate::steps::all_assign;
use crate::steps::all_neighbours;
use crate::steps::all_swap;
use crate::steps::chronological;
use crate::steps::lemma_recorded_from_empty;
use crate::steps::recorded;
use crate::steps::replay;
use crate::steps::SortType;
use crate::text::decimal;
use crate::text::decimal_string;
use std::collections::VecDeque;
use vstd::prelude::*;
use vstd::string::StringExecFns;

verus! {

impl SortType<i32> {
    /// The step in words. A swap of cell zero with itself stands for no step
    /// and has no words.
    pub open spec fn words(self) -> Seq<char> {
        match self {
            SortType::Swap(idx1, idx2) => if idx1 == idx2 && idx1 == 0 {
                Seq::empty()
            } else {
                "Swap indexes "@ + decimal(idx1 as int) + " and "@ + decimal(idx2 as int)
            },
            SortType::Assign(idx, value) => "Set index "@ + decimal(idx as int) + " to "@ + decimal(
                value as int,
            ),
        }
    }

    /// The cells that the step touched, for the display to mark them. A
    /// swap of cell zero with itself stands for no step and touches none.
    pub open spec fn touched(self) -> Seq<usize> {
        match self {
            SortType::Swap(idx1, idx2) => if idx1 == idx2 && idx1 == 0 {
                Seq::empty()
            } else {
                seq![idx1, idx2]
            },
            SortType::Assign(idx, _) => seq![idx],
        }
    }

    /// The cells that the step touched, for the display to mark them.
    pub fn colored_items(&self) -> (items: Vec<usize>)
        ensures
            items@ == self.touched(),
    {
        let mut items: Vec<usize> = Vec::new();
        match self {
            SortType::Swap(idx1, idx2) => {
                if !(*idx1 == *idx2 && *idx1 == 0) {
                    items.push(*idx1);
                    items.push(*idx2);
                }
            },
            SortType::Assign(idx, _value) => {
                items.push(*idx);
            },
        }
        assert(items@ =~= self.touched());
        items
    }

    /// The step in words, for the display.
    pub fn to_string(&self) -> (text: String)
        ensures
            text@ == self.words(),
    {
        match self {
            SortType::Swap(idx1, idx2) => {
                if *idx1 == *idx2 && *idx1 == 0 {
                    String::new()
                } else {
                    let mut text = String::from_str("Swap indexes ");
                    text.append(decimal_string(*idx1 as i128).as_str());
                    text.append(" and ");
                    text.append(decimal_string(*idx2 as i128).as_str());
                    text
                }
            },
            SortType::Assign(idx, value) => {
                let mut text = String::from_str("Set index ");
                text.append(decimal_string(*idx as i128).as_str());
                text.append(" to ");
                text.append(decimal_string(*value as i128).as_str());
                text
            },
        }
    }
}

/// The sorting algorithms that the library knows.
#[derive(Clone, Copy, PartialEq, Eq, Debug, Structural)]
pub enum SortingAlgorithmEnum {
    MergeSort,
    BubbleSort,
    HeapSort,
    QuickSort,
    InsertionSort,
    ShellSort,
}

impl SortingAlgorithmEnum {
    /// The name by which a configuration chooses the algorithm.
    pub open spec fn name(self) -> Seq<char> {
        match self {
            SortingAlgorithmEnum::MergeSort => "merge_sort"@,
            SortingAlgorithmEnum::BubbleSort => "bubble_sort"@,
            SortingAlgorithmEnum::HeapSort => "heap_sort"@,
            SortingAlgorithmEnum::QuickSort => "quick_sort"@,
            SortingAlgorithmEnum::InsertionSort => "insertion_sort"@,
            SortingAlgorithmEnum::ShellSort => "shell_sort"@,
        }
    }

    /// The algorithm records assignments; the others record swaps.
    pub open spec fn records_assignments(self) -> bool {
        self == SortingAlgorithmEnum::MergeSort || self == SortingAlgorithmEnum::ShellSort
    }

    /// The algorithm of the name, or none where no algorithm has the name.
    pub open spec fn named(name: Seq<char>) -> Option<SortingAlgorithmEnum> {
        if name == "merge_sort"@ {
            Some(SortingAlgorithmEnum::MergeSort)
        } else if name == "bubble_sort"@ {
            Some(SortingAlgorithmEnum::BubbleSort)
        } else if name == "heap_sort"@ {
            Some(SortingAlgorithmEnum::HeapSort)
        } else if name == "quick_sort"@ {
            Some(SortingAlgorithmEnum::QuickSort)
        } else if name == "insertion_sort"@ {
            Some(SortingAlgorithmEnum::InsertionSort)
        } else if name == "shell_sort"@ {
            Some(SortingAlgorithmEnum::ShellSort)
        } else {
            None
        }
    }

    /// The algorithm of the name, or merge sort where no algorithm has the
    /// name.
    pub open spec fn chosen(name: Seq<char>) -> SortingAlgorithmEnum {
        match SortingAlgorithmEnum::named(name) {
            Some(algorithm) => algorithm,
            None => SortingAlgorithmEnum::MergeSort,
        }
    }

    /// The algorithm of the name. A name that no algorithm has is an error.
    pub fn from_string(s: String) -> (result: Result<SortingAlgorithmEnum, &'static str>)
        ensures
            match result {
                Ok(algorithm) => SortingAlgorithmEnum::named(s@) == Some(algorithm),
                Err(message) => SortingAlgorithmEnum::named(s@) is None && message@
                    == "Invalid variant"@,
            },
    {
        if s == String::from_str("merge_sort") {
            Ok(SortingAlgorithmEnum::MergeSort)
        } else if s == String::from_str("bubble_sort") {
            Ok(SortingAlgorithmEnum::BubbleSort)
        } else if s == String::from_str("heap_sort") {
            Ok(SortingAlgorithmEnum::HeapSort)
        } else if s == String::from_str("quick_sort") {
            Ok(SortingAlgorithmEnum::QuickSort)
        } else if s == String::from_str("insertion_sort") {
            Ok(SortingAlgorithmEnum::InsertionSort)
        } else if s == String::from_str("shell_sort") {
            Ok(SortingAlgorithmEnum::ShellSort)
        } else {
            Err("Invalid variant")
        }
    }
}

/// Every algorithm is the one that its own name chooses.
pub proof fn lemma_named_by_its_name(algorithm: SortingAlgorithmEnum)
    ensures
        SortingAlgorithmEnum::named(algorithm.name()) == Some(algorithm),
        SortingAlgorithmEnum::chosen(algorithm.name()) == algorithm,
{
    reveal_strlit("merge_sort");
    reveal_strlit("bubble_sort");
    reveal_strlit("heap_sort");
    reveal_strlit("quick_sort");
    reveal_strlit("insertion_sort");
    reveal_strlit("shell_sort");
    assert("merge_sort"@.len() == 10);
    assert("bubble_sort"@.len() == 11);
    assert("heap_sort"@.len() == 9);
    assert("quick_sort"@.len() == 10);
    assert("insertion_sort"@.len() == 14);
    assert("shell_sort"@.len() == 10);
    assert("merge_sort"@[0] == 'm');
    assert("quick_sort"@[0] == 'q');
    assert("shell_sort"@[0] == 's');
}

/// The log that the algorithm records for the items.
pub open spec fn log_of(algorithm: SortingAlgorithmEnum, items: Seq<i32>) -> Seq<SortType<i32>> {
    match algorithm {
        SortingAlgorithmEnum::MergeSort => merge_sort_log(items, 0),
        SortingAlgorithmEnum::BubbleSort => bubble_sort_log(items),
        SortingAlgorithmEnum::HeapSort => heap_sort_log(items),
        SortingAlgorithmEnum::QuickSort => quick_sort_log(items, 0),
        SortingAlgorithmEnum::InsertionSort => insertion_sort_log(items),
        SortingAlgorithmEnum::ShellSort => shell_sort_log(items),
    }
}

/// What a run of the algorithm does to an array and to a log: it sorts the
/// array and records its log, which holds steps of its kind. Merge sort
/// records as many steps as [`merge_sort_steps`] counts; bubble sort and
/// insertion sort record swaps of cells that lie side by side.
pub open spec fn runs(
    algorithm: SortingAlgorithmEnum,
    before: Seq<i32>,
    after: Seq<i32>,
    log_before: Seq<SortType<i32>>,
    log_after: Seq<SortType<i32>>,
) -> bool {
    &&& sorts(before, after, log_before, log_after)
    &&& recorded(log_before, log_after) == log_of(algorithm, before)
    &&& algorithm.records_assignments() ==> all_assign(recorded(log_before, log_after))
    &&& !algorithm.records_assignments() ==> all_swap(recorded(log_before, log_after))
    &&& algorithm == SortingAlgorithmEnum::MergeSort ==> recorded(log_before, log_after).len()
        == merge_sort_steps(before.len())
    &&& algorithm == SortingAlgorithmEnum::BubbleSort || algorithm
        == SortingAlgorithmEnum::InsertionSort ==> all_neighbours(
        recorded(log_before, log_after),
    )
}

/// The registry of the sorting algorithms: from the name in a configuration
/// to the algorithm.
pub struct SortAlgorithm;

impl SortAlgorithm {
    pub fn new() -> Self {
        Self
    }

    /// Sorts `items` with the algorithm that the configuration names, or with
    /// merge sort where it names none.
    pub fn do_sort(
        &self,
        sort_config: &SortConfigValues,
        items: &mut Vec<i32>,
        steps: &mut VecDeque<SortType<i32>>,
    )
        ensures
            runs(
                SortingAlgorithmEnum::chosen(sort_config.current_algorithm_name@),
                old(items)@,
                final(items)@,
                old(steps)@,
                final(steps)@,
            ),
    {
        SortAlgorithm::from_enum(SortAlgorithm::from(sort_config), items, steps)
    }

    /// The algorithm that the configuration names, or merge sort where it
    /// names none.
    pub fn from(sort_config: &SortConfigValues) -> (algorithm: SortingAlgorithmEnum)
        ensures
            algorithm == SortingAlgorithmEnum::chosen(sort_config.current_algorithm_name@),
    {
        let result = SortingAlgorithmEnum::from_string(sort_config.current_algorithm_name.clone());
        match result {
            Ok(v) => v,
            Err(_) => SortingAlgorithmEnum::MergeSort,
        }
    }

    /// Sorts `items` with the algorithm.
    pub fn from_enum(
        enum_value: SortingAlgorithmEnum,
        items: &mut Vec<i32>,
        steps: &mut VecDeque<SortType<i32>>,
    )
        ensures
            runs(enum_value, old(items)@, final(items)@, old(steps)@, final(steps)@),
    {
        proof {
            lemma_i32_lawful();
        }
        match enum_value {
            SortingAlgorithmEnum::MergeSort => merge_sort::<i32>(items, steps),
            SortingAlgorithmEnum::BubbleSort => bubble_sort::<i32>(items, steps),
            SortingAlgorithmEnum::HeapSort => heap_sort::<i32>(items, steps),
            SortingAlgorithmEnum::QuickSort => quick_sort::<i32>(items, steps),
            SortingAlgorithmEnum::InsertionSort => insertion_sort::<i32>(items, steps),
            SortingAlgorithmEnum::ShellSort => shell_sort::<i32>(items, steps),
        }
    }
}

/// One run of a sorting algorithm: the array as it was, the log of the
/// algorithm, and the playback of the log.
#[derive(Clone, PartialEq, Debug)]
pub struct Sorter {
    /// The array as it is shown: the initial array with the first
    /// `active_step` steps applied.
    pub data: Vec<i32>,
    pub algorithm: SortingAlgorithmEnum,
    /// The number of steps that are applied.
    pub active_step: u32,
    /// The log: the newest step at the front, the oldest at the back.
    pub steps: VecDeque<SortType<i32>>,
    /// The time that a step is given; idle where the animation does not run.
    pub steps_time: StepTime,
    /// The array as it was before the first step.
    pub initial_data: Vec<i32>,
    /// Whether the animation runs.
    pub is_playing: bool,
}

impl Sorter {
    /// The cursor of the playback.
    pub open spec fn cursor(&self) -> Cursor {
        Cursor {
            active_step: self.active_step,
            is_playing: self.is_playing,
            steps_time: self.steps_time,
        }
    }

    /// The number of steps that the playback can reach: the length of the
    /// log, as far as the cursor can count.
    pub open spec fn total(&self) -> u32 {
        if self.steps@.len() > u32::MAX {
            u32::MAX
        } else {
            self.steps@.len() as u32
        }
    }

    /// The array after the first `step` steps of the log, or after all of
    /// them where the log holds fewer.
    pub open spec fn state_at(&self, step: nat) -> Seq<i32> {
        replay(
            self.initial_data@,
            chronological(self.steps@).take(
                if step > self.steps@.len() {
                    self.steps@.len() as int
                } else {
                    step as int
                },
            ),
        )
    }

    /// The step that was applied last, or a swap of cell zero with itself
    /// where none was.
    pub open spec fn active_item(&self) -> SortType<i32> {
        if 1 <= self.active_step <= self.steps@.len() {
            self.steps@[self.steps@.len() - self.active_step]
        } else {
            SortType::Swap(0, 0)
        }
    }

    /// The sorter is what a tick makes of `before`: the run is the same, the
    /// cursor has moved as [`Cursor::ticked`] says, and the array is shown
    /// at the step of the cursor where that has changed, and as it was
    /// shown where it has not.
    pub open spec fn ticked_from(&self, before: &Sorter) -> bool {
        &&& self.initial_data == before.initial_data
        &&& self.steps == before.steps
        &&& self.algorithm == before.algorithm
        &&& self.cursor() == before.cursor().ticked(before.total())
        &&& self.active_step == before.active_step ==> self.data == before.data
        &&& self.active_step != before.active_step ==> self.data@ == before.state_at(
            self.active_step as nat,
        )
    }

    /// The run is that of `other`: the same array and the same log.
    pub open spec fn same_run(&self, other: &Sorter) -> bool {
        &&& self.initial_data@ == other.initial_data@
        &&& self.steps@ == other.steps@
        &&& self.algorithm == other.algorithm
    }

    /// A sorter for a new array, as the configuration asks for it, sorted by
    /// the algorithm that the configuration names and shown as it was before
    /// the first step.
    pub fn new(sort_config: &SortConfigValues) -> (sorter: Sorter)
        ensures
            sorter.initial_data@.to_multiset() == one_up_to(
                sort_config.items_count as int,
            ).to_multiset(),
            sorter.data@ == sorter.initial_data@,
            sorter.algorithm == SortingAlgorithmEnum::MergeSort,
            sorter.cursor() == Cursor::start(),
            runs(
                SortingAlgorithmEnum::chosen(sort_config.current_algorithm_name@),
                sorter.initial_data@,
                replay(sorter.initial_data@, chronological(sorter.steps@)),
                Seq::empty(),
                sorter.steps@,
            ),
    {
        let generation = get_new_generation(&sort_config.items_count);
        let mut sorter = Self {
            algorithm: SortingAlgorithmEnum::MergeSort,
            data: generation.clone(),
            active_step: 0,
            steps: VecDeque::new(),
            steps_time: StepTime::new_idle(),
            initial_data: generation,
            is_playing: false,
        };
        sorter.generate(sort_config);
        sorter
    }

    /// Sorts the initial array anew with the algorithm that the configuration
    /// names. The log is replaced by that of the new run, and the array is
    /// shown as it was before the first step, at rest.
    pub fn sort(&mut self, sort_config: &SortConfigValues)
        ensures
            final(self).initial_data@ == old(self).initial_data@,
            final(self).data@ == old(self).initial_data@,
            final(self).algorithm == old(self).algorithm,
            final(self).cursor() == Cursor::start(),
            runs(
                SortingAlgorithmEnum::chosen(sort_config.current_algorithm_name@),
                old(self).initial_data@,
                replay(old(self).initial_data@, chronological(final(self).steps@)),
                Seq::empty(),
                final(self).steps@,
            ),
    {
        let mut data = self.initial_data.clone();
        self.data = self.initial_data.clone();
        self.steps = VecDeque::new();
        self.active_step = 0;
        self.is_playing = false;
        self.steps_time = StepTime::new_idle();

        let algorithm = SortAlgorithm::new();
        algorithm.do_sort(sort_config, &mut data, &mut self.steps);
        proof {
            lemma_recorded_from_empty(self.steps@);
        }
    }

    fn _set_algorithm(&mut self, s: String)
        ensures
            final(self).algorithm == SortingAlgorithmEnum::chosen(s@),
            final(self).data == old(self).data,
            final(self).steps == old(self).steps,
            final(self).initial_data == old(self).initial_data,
            final(self).cursor() == old(self).cursor(),
    {
        self.algorithm =
        match SortingAlgorithmEnum::from_string(s) {
            Ok(algorithm) => algorithm,
            Err(_) => SortingAlgorithmEnum::MergeSort,
        };
    }

    /// Shows the array as it was before the first step and plans the time
    /// for all the steps.
    fn reset(&mut self, sort_config: &SortConfigValues)
        ensures
            final(self).same_run(old(self)),
            final(self).data@ == old(self).initial_data@,
            final(self).active_step == 0,
            final(self).is_playing == old(self).is_playing,
            final(self).steps_time == StepTime::planned(
                sort_config.time_overall,
                old(self).total(),
            ),
    {
        self.data = self.initial_data.clone();
        self.set_step(0);
        self.calculate_time(sort_config);
        proof {
            assert(chronological(self.steps@).take(0) =~= Seq::<SortType<i32>>::empty());
        }
    }

    /// Starts or resumes the animation, as [`Cursor::played`] says it, and
    /// shows the array at the step from which it goes on.
    pub fn play(&mut self, sort_config: &SortConfigValues)
        ensures
            final(self).same_run(old(self)),
            final(self).cursor() == old(self).cursor().played(
                sort_config.time_overall,
                old(self).total(),
            ),
            final(self).data@ == old(self).state_at(final(self).active_step as nat),
    {
        let total = self.max_steps();
        let mut cursor = self.get_cursor();
        cursor.play(sort_config.time_overall, total);
        self.data = self.get_output_by_step(cursor.active_step);
        self.set_cursor(cursor);
    }

    /// Plans the time for the steps that remain.
    fn calculate_time(&mut self, sort_config: &SortConfigValues)
        ensures
            final(self).same_run(old(self)),
            final(self).data == old(self).data,
            final(self).active_step == old(self).active_step,
            final(self).is_playing == old(self).is_playing,
            final(self).steps_time == StepTime::planned(
                sort_config.time_overall,
                if old(self).active_step <= old(self).total() {
                    (old(self).total() - old(self).active_step) as u32
                } else {
                    0
                },
            ),
    {
        let total = self.max_steps();
        let remaining = if self.active_step <= total {
            total - self.active_step
        } else {
            0
        };
        self.steps_time = StepTime::new_planned(sort_config.time_overall, remaining);
    }

    /// Brings the animation to rest at the step at which it stands.
    pub fn stop(&mut self)
        ensures
            final(self).same_run(old(self)),
            final(self).data == old(self).data,
            final(self).cursor() == old(self).cursor().stopped(),
    {
        self.is_playing = false;
        self.steps_time = StepTime::new_idle();
    }

    /// Moves the playback as one tick of the timer does, as
    /// [`Cursor::ticked`] says it. Where the cursor has moved, the array is
    /// shown at the step that it has come to; where it has not, the array
    /// is left as it is shown.
    pub fn tick(&mut self)
        ensures
            final(self).ticked_from(old(self)),
    {
        let max_steps = self.max_steps();
        let mut cursor = self.get_cursor();
        cursor.tick(max_steps);
        if cursor.active_step != self.active_step {
            self.data = self.get_output_by_step(cursor.active_step);
        }
        self.set_cursor(cursor);
    }

    /// Replaces the run by a new one: a new array, as the configuration asks
    /// for it, sorted by the algorithm that the configuration names.
    pub fn generate(&mut self, sort_config: &SortConfigValues)
        ensures
            final(self).initial_data@.to_multiset() == one_up_to(
                sort_config.items_count as int,
            ).to_multiset(),
            final(self).data@ == final(self).initial_data@,
            final(self).algorithm == old(self).algorithm,
            final(self).cursor() == Cursor::start(),
            runs(
                SortingAlgorithmEnum::chosen(sort_config.current_algorithm_name@),
                final(self).initial_data@,
                replay(final(self).initial_data@, chronological(final(self).steps@)),
                Seq::empty(),
                final(self).steps@,
            ),
    {
        self.data = get_new_generation(&sort_config.items_count);
        self.steps = VecDeque::new();
        self.initial_data = self.data.clone();
        self.sort(sort_config);
    }

    /// Moves the playback to `step`, or to the end of the log where `step`
    /// lies behind it, and shows the array at that step.
    pub fn set_step(&mut self, step: u32)
        ensures
            final(self).same_run(old(self)),
            final(self).cursor() == old(self).cursor().sought(step, old(self).total()),
            final(self).data@ == old(self).state_at(final(self).active_step as nat),
    {
        let total = self.max_steps();
        self.data = self.get_output_by_step(step);
        self.active_step = if step > total {
            total
        } else {
            step
        };
    }

    /// The number of steps that are applied, in decimal notation.
    pub fn get_active_step_string(&self) -> (text: String)
        ensures
            text@ == decimal(self.active_step as int),
    {
        decimal_string(self.active_step as i128)
    }

    /// The period at which the playback wants its ticks, in milliseconds:
    /// zero where it does not play.
    pub fn tick_time(&self) -> (millis: u32)
        ensures
            millis == self.cursor().tick_time(),
    {
        self.get_cursor().interval()
    }

    /// The array after the first `step` steps of the log, or after all of
    /// them where the log holds fewer. A step that lies outside the array
    /// changes nothing.
    pub fn get_output_by_step(&mut self, step: u32) -> (data: Vec<i32>)
        ensures
            data@ == old(self).state_at(step as nat),
            *final(self) == *old(self),
    {
        let mut data = self.initial_data.clone();
        let len = self.steps.len();
        let mut applied: usize = 0;
        proof {
            assert(chronological(self.steps@).take(0) =~= Seq::<SortType<i32>>::empty());
        }
        while applied < len && applied < step as usize
            invariant
                *self == *old(self),
                len == self.steps@.len(),
                applied <= len,
                applied <= step,
                data@ == replay(self.initial_data@, chronological(self.steps@).take(applied as int)),
            decreases len - applied,
        {
            let ghost prefix = chronological(self.steps@).take(applied as int);
            let step_item = self.steps[len - 1 - applied];
            proof {
                assert(chronological(self.steps@).take(applied + 1) =~= prefix.push(step_item));
                crate::steps::lemma_replay_push(self.initial_data@, prefix, step_item);
            }
            match step_item {
                SortType::Assign(index, val) => {
                    if index < data.len() {
                        data[index] = val;
                    }
                },
                SortType::Swap(index1, index2) => {
                    if index1 < data.len() && index2 < data.len() {
                        data.swap(index1, index2);
                    }
                },
            }
            applied += 1;
        }
        data
    }

    /// The length of the log, in decimal notation.
    pub fn get_steps_len_string(&self) -> (text: String)
        ensures
            text@ == decimal(self.steps@.len() as int),
    {
        decimal_string(self.steps.len() as i128)
    }

    /// The step that was applied last, or a swap of cell zero with itself
    /// where none was.
    pub fn get_active_step_item(&self) -> (item: SortType<i32>)
        ensures
            item == self.active_item(),
    {
        let len = self.steps.len();
        let active = self.active_step as usize;
        if 1 <= active && active <= len {
            self.steps[len - active]
        } else {
            SortType::Swap(0, 0)
        }
    }

    /// The number of steps that the playback can reach.
    fn max_steps(&self) -> (total: u32)
        ensures
            total == self.total(),
    {
        let len = self.steps.len();
        if len > u32::MAX as usize {
            u32::MAX
        } else {
            len as u32
        }
    }

    fn get_cursor(&self) -> (cursor: Cursor)
        ensures
            cursor == self.cursor(),
    {
        Cursor {
            active_step: self.active_step,
            is_playing: self.is_playing,
            steps_time: self.steps_time,
        }
    }

    fn set_cursor(&mut self, cursor: Cursor)
        ensures
            final(self).cursor() == cursor,
            final(self).data == old(self).data,
            final(self).steps == old(self).steps,
            final(self).initial_data == old(self).initial_data,
            final(self).algorithm == old(self).algorithm,
    {
        self.active_step = cursor.active_step;
        self.is_playing = cursor.is_playing;
        self.steps_time = cursor.steps_time;
    }
}

/// A sorter whose cursor stands at the end of its log is brought to rest by
/// a tick, which leaves the cursor at the end and the array as it is shown;
/// a further tick changes nothing at all.
pub proof fn lemma_tick_at_the_end_changes_nothing(before: Sorter, once: Sorter, twice: Sorter)
    requires
        before.active_step == before.total(),
        once.ticked_from(&before),
        twice.ticked_from(&once),
    ensures
        !once.is_playing,
        once.active_step == before.active_step,
        once.data == before.data,
        once.same_run(&before),
        twice == once,
{
}

/// A tick keeps the array shown at the step of the cursor.
pub proof fn lemma_tick_shows_the_step(before: Sorter, after: Sorter)
    requires
        before.data@ == before.state_at(before.active_step as nat),
        after.ticked_from(&before),
    ensures
        after.data@ == after.state_at(after.active_step as nat),
{
}

/// Two computations of the state at one step of one run agree: the state is
/// a function of the initial array, the log and the step.
pub proof fn lemma_state_at_is_determined(first: Sorter, second: Sorter, step: nat)
    requires
        first.same_run(&second),
    ensures
        first.state_at(step) == second.state_at(step),
{
}

} // verus!
