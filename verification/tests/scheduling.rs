//! Scheduling behaviour, exercised through the public facade.
use eva::{Error, Schedule, SchedulingStrategy, Task};

const SECOND: i64 = 1_000;
const MINUTE: i64 = 60 * SECOND;
const HOUR: i64 = 60 * MINUTE;
const DAY: i64 = 24 * HOUR;
const DELAY: i64 = MINUTE;

/// A fixed "now" instant, in milliseconds.
const NOW: i64 = 1_000_000_000_000;

fn task(id: u64, content: &str, deadline: i64, duration: i64, importance: i64) -> Task {
    Task { id, content: content.to_string(), deadline, duration, importance }
}

fn taskset_of_myrjam() -> Vec<Task> {
    let task1 = task(1, "take over the world", NOW + 6 * 365 * DAY, 1000 * HOUR, 10);
    let task2 = task(2, "make onion soup", NOW + 2 * HOUR, HOUR, 3);
    let task3 = task(3, "publish Commander Mango 3", NOW + (365 / 2) * DAY, 50 * HOUR, 6);
    let task4 = task(4, "sculpt", NOW + 30 * DAY, 10 * HOUR, 4);
    let task5 = task(5, "organise birthday present", NOW + 30 * DAY, 5 * HOUR, 10);
    let task6 = task(6, "make dentist appointment", NOW + 7 * DAY, 10 * MINUTE, 5);
    vec![task1, task2, task3, task4, task5, task6]
}

fn taskset_just_in_time() -> Vec<Task> {
    let task1 = task(1, "go to school", NOW + 23 * 365 * DAY, 23 * 365 * DAY - 2 * DELAY, 5);
    let task2 = task(2, "work till you die", NOW + 65 * 365 * DAY, 42 * 365 * DAY, 6);
    vec![task1, task2]
}

fn taskset_of_gandalf() -> Vec<Task> {
    vec![
        task(0, "Think of plan to get rid of The Ring", NOW + 12 * DAY + 15 * HOUR, 2 * DAY, 9),
        task(1, "Ask advice from Saruman", NOW + 8 * DAY + 15 * HOUR, 3 * DAY, 4),
        task(2, "Visit Bilbo in Rivendel", NOW + 13 * DAY + 15 * HOUR, 2 * DAY, 2),
        task(3, "Make some firework for the hobbits", NOW + 33 * HOUR, 3 * HOUR, 3),
        task(4, "Get riders of Rohan to help Gondor", NOW + 21 * DAY + 15 * HOUR, 7 * DAY, 7),
        task(5, "Find some good pipe-weed", NOW + 2 * DAY + 15 * HOUR, HOUR, 8),
        task(6, "Go shop for white clothing", NOW + 33 * DAY + 15 * HOUR, 2 * HOUR, 3),
        task(7, "Prepare epic-sounding one-liners", NOW + 34 * HOUR, 2 * HOUR, 10),
        task(8, "Recharge staff batteries", NOW + DAY + 15 * HOUR, 30 * MINUTE, 5),
    ]
}

fn taskset_with_missed_deadline() -> Vec<Task> {
    let task1 = task(1, "conquer the world", NOW + 3 * DAY, DAY, 5);
    let task2 = task(2, "save the world", NOW - DAY, 5 * MINUTE, 5);
    vec![task1, task2]
}

fn taskset_with_impossible_deadline() -> Vec<Task> {
    let task1 = task(1, "conquer the world", NOW + 3 * DAY, DAY, 5);
    let task2 = task(2, "save the world", NOW + 23 * HOUR, DAY, 5);
    vec![task1, task2]
}

fn taskset_impossible_combination() -> Vec<Task> {
    let task1 = task(1, "Learn Rust", NOW + DAY, DAY - 2 * DELAY, 5);
    let task2 = task(2, "Program Eva", NOW + 2 * DAY, DAY + 2 * MINUTE, 5);
    vec![task1, task2]
}

fn clone_tasks(tasks: &[Task]) -> Vec<Task> {
    tasks.iter().cloned().collect()
}

#[test]
fn schedule_for_myrjam() {
    let tasks = taskset_of_myrjam();
    let schedule = Schedule::schedule(NOW, clone_tasks(&tasks), SchedulingStrategy::Urgency)
        .unwrap();
    let mut expected_when = NOW + DELAY;
    // 1. Make onion soup, 1h, 3, in 2 hours
    assert_eq!(schedule.0[0].task, tasks[1]);
    assert_eq!(schedule.0[0].when, expected_when);
    expected_when += HOUR;
    // 5. Make dentist appointment, 10m, 5, in 7 days
    assert_eq!(schedule.0[1].task, tasks[5]);
    assert_eq!(schedule.0[1].when, expected_when);
    expected_when += 10 * MINUTE;
    // 4. Organise birthday present, 5h, 10, in 30 days
    assert_eq!(schedule.0[2].task, tasks[4]);
    assert_eq!(schedule.0[2].when, expected_when);
    expected_when += 5 * HOUR;
    // 3. Sculpt, 10h, 4, in 30 days
    assert_eq!(schedule.0[3].task, tasks[3]);
    assert_eq!(schedule.0[3].when, expected_when);
    expected_when += 10 * HOUR;
    // 2. Publish Commander Mango 3, 50h, 6, in 6 months
    assert_eq!(schedule.0[4].task, tasks[2]);
    assert_eq!(schedule.0[4].when, expected_when);
    expected_when += 50 * HOUR;
    // 0. Take over world, 1000h, 10, in 6 years
    assert_eq!(schedule.0[5].task, tasks[0]);
    assert_eq!(schedule.0[5].when, expected_when);
}

#[test]
fn schedule_myrjams_schedule_by_importance() {
    let tasks = taskset_of_myrjam();
    let schedule = Schedule::schedule(NOW, clone_tasks(&tasks), SchedulingStrategy::Importance)
        .unwrap();
    let mut expected_when = NOW + DELAY;
    // 5. Make dentist appointment, 10m, 5, in 7 days
    assert_eq!(schedule.0[0].task, tasks[5]);
    assert_eq!(schedule.0[0].when, expected_when);
    expected_when += 10 * MINUTE;
    // 1. Make onion soup, 1h, 3, in 2 hours
    assert_eq!(schedule.0[1].task, tasks[1]);
    assert_eq!(schedule.0[1].when, expected_when);
    expected_when += HOUR;
    // 4. Organise birthday present, 5h, 10, in 30 days
    assert_eq!(schedule.0[2].task, tasks[4]);
    assert_eq!(schedule.0[2].when, expected_when);
    expected_when += 5 * HOUR;
    // 2. Publish Commander Mango 3, 50h, 6, in 6 months
    assert_eq!(schedule.0[3].task, tasks[2]);
    assert_eq!(schedule.0[3].when, expected_when);
    expected_when += 50 * HOUR;
    // 3. Sculpt, 10h, 4, in 30 days
    assert_eq!(schedule.0[4].task, tasks[3]);
    assert_eq!(schedule.0[4].when, expected_when);
    expected_when += 10 * HOUR;
    // 0. Take over world, 1000h, 10, in 6 years
    assert_eq!(schedule.0[5].task, tasks[0]);
    assert_eq!(schedule.0[5].when, expected_when);
}

#[test]
fn schedule_gandalfs_schedule_by_importance() {
    let tasks = taskset_of_gandalf();
    let schedule = Schedule::schedule(NOW, clone_tasks(&tasks), SchedulingStrategy::Importance)
        .unwrap();
    let mut expected_when = NOW + DELAY;
    // 7. Prepare epic-sounding one-liners
    assert_eq!(schedule.0[0].task, tasks[7]);
    assert_eq!(schedule.0[0].when, expected_when);
    expected_when += 2 * HOUR;
    // 5. Find some good pipe-weed
    assert_eq!(schedule.0[1].task, tasks[5]);
    assert_eq!(schedule.0[1].when, expected_when);
    expected_when += HOUR;
    // 8. Recharge staff batteries
    assert_eq!(schedule.0[2].task, tasks[8]);
    assert_eq!(schedule.0[2].when, expected_when);
    expected_when += 30 * MINUTE;
    // 3. Make some firework for the hobbits
    assert_eq!(schedule.0[3].task, tasks[3]);
    assert_eq!(schedule.0[3].when, expected_when);
    expected_when += 3 * HOUR;
    // 0. Think of plan to get rid of The Ring
    assert_eq!(schedule.0[4].task, tasks[0]);
    assert_eq!(schedule.0[4].when, expected_when);
    expected_when += 2 * DAY;
    // 1. Ask advice from Saruman
    assert_eq!(schedule.0[5].task, tasks[1]);
    assert_eq!(schedule.0[5].when, expected_when);
    expected_when += 3 * DAY;
    // 6. Go shop for white clothing
    assert_eq!(schedule.0[6].task, tasks[6]);
    assert_eq!(schedule.0[6].when, expected_when);
    expected_when += 2 * HOUR;
    // 2. Visit Bilbo in Rivendel
    assert_eq!(schedule.0[7].task, tasks[2]);
    assert_eq!(schedule.0[7].when, expected_when);
    expected_when += 2 * DAY;
    // 4. Get riders of Rohan to help Gondor
    assert_eq!(schedule.0[8].task, tasks[4]);
    assert_eq!(schedule.0[8].when, expected_when);
}

fn strategies() -> Vec<SchedulingStrategy> {
    vec![SchedulingStrategy::Importance, SchedulingStrategy::Urgency]
}

#[test]
fn all_tasks_are_scheduled() {
    for strategy in strategies() {
        for tasks in [taskset_of_myrjam(), taskset_just_in_time()] {
            let schedule = Schedule::schedule(NOW, clone_tasks(&tasks), strategy).unwrap();
            assert_eq!(tasks.len(), schedule.0.len());
            for scheduled_task in schedule.0.iter() {
                assert!(tasks.contains(&scheduled_task.task));
            }
            for task in &tasks {
                assert!(schedule.0.iter().any(|scheduled_task| scheduled_task.task == *task));
            }
        }
    }
}

#[test]
fn tasks_are_scheduled_in_time() {
    for strategy in strategies() {
        for tasks in [taskset_of_myrjam(), taskset_just_in_time(), taskset_of_gandalf()] {
            let schedule = Schedule::schedule(NOW, clone_tasks(&tasks), strategy).unwrap();
            for scheduled_task in schedule.0.iter() {
                // Deadline safety and the safety delay.
                assert!(scheduled_task.when + scheduled_task.task.duration
                    <= scheduled_task.task.deadline);
                assert!(scheduled_task.when >= NOW + DELAY);
            }
            // Ascending by start time and pairwise disjoint.
            for pair in schedule.0.windows(2) {
                assert!(pair[0].when + pair[0].task.duration <= pair[1].when);
            }
        }
    }
}

#[test]
fn schedule_just_in_time() {
    for strategy in strategies() {
        let tasks = taskset_just_in_time();
        let schedule = Schedule::schedule(NOW, clone_tasks(&tasks), strategy).unwrap();
        assert_eq!(schedule.0[0].task, tasks[0]);
        assert_eq!(schedule.0[1].task, tasks[1]);
        assert_eq!(schedule.0[0].when, NOW + DELAY);
        assert_eq!(schedule.0[1].when, NOW - DELAY + 23 * 365 * DAY);
    }
}

#[test]
fn schedule_sets_of_two() {
    for strategy in strategies() {
        let mut tasks = vec![
            task(0, "find meaning to life", NOW + HOUR, HOUR - 2 * DELAY, 6),
            task(1, "stop giving a damn", NOW + 3 * HOUR, 2 * HOUR - 2 * DELAY, 5),
        ];
        // Normal scheduling: the deadlines force the first task first.
        {
            let schedule = Schedule::schedule(NOW, clone_tasks(&tasks), strategy).unwrap();
            assert_eq!(schedule.0[0].task, tasks[0]);
            assert_eq!(schedule.0[1].task, tasks[1]);
        }
        // Reversing the importance should maintain the scheduled order,
        // because it's the only way to meet the deadlines.
        tasks[0].importance = 5;
        tasks[1].importance = 6;
        {
            let schedule = Schedule::schedule(NOW, clone_tasks(&tasks), strategy).unwrap();
            assert_eq!(schedule.0[0].task, tasks[0]);
            assert_eq!(schedule.0[1].task, tasks[1]);
        }
        // Levelling the deadlines should make the more important task come
        // first again.
        tasks[0].deadline = NOW + 3 * HOUR;
        let schedule = Schedule::schedule(NOW, clone_tasks(&tasks), strategy).unwrap();
        assert_eq!(schedule.0[0].task, tasks[1]);
        assert_eq!(schedule.0[1].task, tasks[0]);
    }
}

#[test]
fn no_schedule() {
    for strategy in strategies() {
        let schedule = Schedule::schedule(NOW, vec![], strategy).unwrap();
        assert!(schedule.0.is_empty());
    }
}

#[test]
fn missed_deadline() {
    for strategy in strategies() {
        let tasks = taskset_with_missed_deadline();
        let result = Schedule::schedule(NOW, tasks, strategy);
        assert!(matches!(result, Err(Error::DeadlineMissed(ref t, true)) if t.id == 2));
    }
}

#[test]
fn impossible_deadline() {
    for strategy in strategies() {
        let tasks = taskset_with_impossible_deadline();
        let result = Schedule::schedule(NOW, tasks, strategy);
        assert!(matches!(result, Err(Error::DeadlineMissed(ref t, false)) if t.id == 2));
    }
}

#[test]
fn out_of_time() {
    for strategy in strategies() {
        let tasks = taskset_impossible_combination();
        let result = Schedule::schedule(NOW, tasks, strategy);
        assert!(matches!(result, Err(Error::NotEnoughTime(_))));
    }
}

#[test]
fn deadline_exactly_reachable_is_still_missed() {
    // A deadline equal to the delayed start plus the duration leaves no room.
    for strategy in strategies() {
        let tasks = vec![task(7, "squeeze in", NOW + DELAY + HOUR, HOUR, 5)];
        let result = Schedule::schedule(NOW, tasks, strategy);
        assert!(matches!(result, Err(Error::DeadlineMissed(ref t, false)) if t.id == 7));
    }
}

#[test]
fn zero_duration_task_is_scheduled_at_the_delayed_start() {
    for strategy in strategies() {
        let tasks = vec![task(3, "blink", NOW + HOUR, 0, 1)];
        let schedule = Schedule::schedule(NOW, tasks, strategy).unwrap();
        assert_eq!(schedule.0.len(), 1);
        assert_eq!(schedule.0[0].when, NOW + DELAY);
    }
}

#[test]
fn equal_tasks_are_all_scheduled() {
    // Tasks that agree on every field still each get their own slot.
    for strategy in strategies() {
        let tasks = vec![
            task(4, "twin", NOW + DAY, HOUR, 5),
            task(4, "twin", NOW + DAY, HOUR, 5),
        ];
        let schedule = Schedule::schedule(NOW, tasks, strategy).unwrap();
        assert_eq!(schedule.0.len(), 2);
        assert_eq!(schedule.0[0].when, NOW + DELAY);
        assert_eq!(schedule.0[1].when, NOW + DELAY + HOUR);
    }
}
