use schedulerust::scheduler::filter_schedule_with_slots;
use schedulerust::scheduler::Activity;
use schedulerust::scheduler::Schedule;
use schedulerust::scheduler::Slot;
use schedulerust::text::formated_activity_slots;
use schedulerust::text::get_name_text;

fn activity(name: &str, slot_names: &[&str]) -> Activity {
    Activity {
        name: name.into(),
        slots_to_use: slot_names.iter().map(|n| Slot::new(n)).collect(),
    }
}

fn schedule(activities: &[Activity]) -> Schedule {
    Schedule::new(activities.to_vec())
}

#[test]
fn contention_scenario_keeps_only_feasible_picks() {
    let slots = vec![Slot::new("s1"), Slot::new("s2")];
    let x = activity("X", &["s1"]);
    let y = activity("Y", &["s2"]);
    let z = activity("Z", &["s1"]);
    let activities = vec![x.clone(), y.clone(), z.clone()];

    let result = Schedule::get_all_valid_schedules(&activities, &slots, 2);

    assert_eq!(result.len(), 2);
    assert!(result.contains(&schedule(&[x.clone(), y.clone()])));
    assert!(result.contains(&schedule(&[y.clone(), z.clone()])));
    assert!(!result.contains(&schedule(&[x.clone(), z.clone()])));
}

#[test]
fn one_slot_cannot_serve_two_activities() {
    let slots = vec![Slot::new("s1")];
    let activities = vec![activity("X", &["s1"]), activity("Y", &["s1"])];

    let result = Schedule::get_all_valid_schedules(&activities, &slots, 2);

    assert!(result.is_empty());
}

#[test]
fn zero_count_yields_the_empty_schedule() {
    let activities: Vec<Activity> = Vec::new();
    let slots: Vec<Slot> = Vec::new();

    let result = Schedule::get_all_valid_schedules(&activities, &slots, 0);

    assert_eq!(result.len(), 1);
    assert!(result[0].activities().is_empty());
}

#[test]
fn count_beyond_pool_yields_nothing() {
    let slots = vec![Slot::new("s1"), Slot::new("s2")];
    let activities = vec![activity("X", &["s1"]), activity("Y", &["s2"])];

    let result = Schedule::get_all_valid_schedules(&activities, &slots, 3);

    assert!(result.is_empty());
}

#[test]
fn repeated_calls_agree_as_sets() {
    let slots = vec![Slot::new("s1"), Slot::new("s2"), Slot::new("s3")];
    let activities = vec![
        activity("X", &["s1"]),
        activity("Y", &["s2"]),
        activity("Z", &["s1", "s3"]),
    ];

    let first = Schedule::get_all_valid_schedules(&activities, &slots, 2);
    let second = Schedule::get_all_valid_schedules(&activities, &slots, 2);

    assert_eq!(first.len(), second.len());
    for s in &first {
        assert!(second.contains(s));
    }
    for s in &second {
        assert!(first.contains(s));
    }
}

#[test]
fn no_two_results_are_equivalent() {
    let slots = vec![Slot::new("s1"), Slot::new("s2"), Slot::new("s3")];
    let activities = vec![
        activity("X", &["s1"]),
        activity("Y", &["s2"]),
        activity("Z", &["s3"]),
    ];

    let result = Schedule::get_all_valid_schedules(&activities, &slots, 2);

    assert_eq!(result.len(), 3);
    for i in 0..result.len() {
        for j in 0..result.len() {
            if i != j {
                assert_ne!(result[i], result[j]);
            }
        }
    }
}

#[test]
fn generator_counts_ordered_arrangements() {
    let activities = vec![
        activity("X", &["s1"]),
        activity("Y", &["s2"]),
        activity("Z", &["s3"]),
    ];

    assert_eq!(Schedule::get_possible_schedules(&activities, 2).len(), 6);
    assert_eq!(Schedule::get_possible_schedules(&activities, 0).len(), 1);
    assert_eq!(Schedule::get_possible_schedules(&activities, 4).len(), 0);
}

#[test]
fn duplicate_slot_names_are_separate_units() {
    let slots = vec![Slot::new("s1"), Slot::new("s1")];
    let x = activity("X", &["s1"]);
    let y = activity("Y", &["s1"]);
    let activities = vec![x.clone(), y.clone()];

    let result = Schedule::get_all_valid_schedules(&activities, &slots, 2);

    assert_eq!(result.len(), 1);
    assert!(result.contains(&schedule(&[x, y])));
}

#[test]
fn activity_without_requirements_is_schedulable() {
    let slots: Vec<Slot> = Vec::new();
    let x = activity("X", &[]);
    let activities = vec![x.clone()];

    let result = Schedule::get_all_valid_schedules(&activities, &slots, 1);

    assert_eq!(result.len(), 1);
    assert!(result.contains(&schedule(&[x])));
}

#[test]
fn activity_equality_ignores_order_and_duplicates() {
    let a1 = activity("A", &["s1", "s2"]);
    let a2 = activity("A", &["s2", "s1", "s1"]);
    let a3 = activity("B", &["s1", "s2"]);
    let a4 = activity("A", &["s1"]);

    assert_eq!(a1, a2);
    assert_ne!(a1, a3);
    assert_ne!(a1, a4);
}

#[test]
fn schedule_equality_compares_multisets() {
    let a = activity("A", &["s1"]);
    let b = activity("B", &["s2"]);

    let s1 = schedule(&[a.clone(), b.clone()]);
    let s2 = schedule(&[b.clone(), a.clone()]);
    let s3 = schedule(&[a.clone(), a.clone(), b.clone()]);
    let s4 = schedule(&[a.clone(), b.clone(), b.clone()]);

    assert_eq!(s1, s2);
    assert_ne!(s3, s4);
}

#[test]
fn filter_consumes_the_working_pool() {
    let x = activity("X", &["s1"]);
    let schd = schedule(&[x]);

    let mut pool = vec![Slot::new("s1"), Slot::new("s2")];
    assert!(filter_schedule_with_slots(&schd, &mut pool));
    assert_eq!(pool.len(), 1);
    assert_eq!(pool[0].name, "s2");
}

#[test]
fn filter_rejects_on_first_shortage() {
    let x = activity("X", &["s1"]);
    let y = activity("Y", &["s1"]);
    let schd = schedule(&[x, y]);

    let mut pool = vec![Slot::new("s1")];
    assert!(!filter_schedule_with_slots(&schd, &mut pool));
    assert!(pool.is_empty());
}

#[test]
fn formatted_slots_render_one_line_each() {
    let a = activity("A", &["s1", "s2"]);
    assert_eq!(formated_activity_slots(&a), "\t- s1\n\t- s2\n");

    let empty = activity("B", &[]);
    assert_eq!(formated_activity_slots(&empty), "");
}

#[test]
fn banner_is_not_empty() {
    assert!(!get_name_text().is_empty());
}
