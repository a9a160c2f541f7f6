use std::collections::hash_map::DefaultHasher;
use std::hash::Hash;

use schedulerust::scheduler::filter_schedule_with_slots;
use schedulerust::scheduler::Activity;
use schedulerust::scheduler::Schedule;
use schedulerust::scheduler::Slot;

fn create_default_activities() -> Vec<Activity> {
    let slots = create_default_slots();

    let mut activities = Vec::<Activity>::new();
    activities.push(Activity {
        name: "atv1".into(),
        slots_to_use: vec![slots[0].clone()],
    });
    activities.push(Activity {
        name: "atv2".into(),
        slots_to_use: vec![slots[2].clone()],
    });
    activities.push(Activity {
        name: "atv3".into(),
        slots_to_use: vec![slots[1].clone()],
    });

    activities
}

fn create_equal_activities() -> [Activity; 2] {
    let slots = create_default_slots();

    [
        Activity {
            name: "atv1".into(),
            slots_to_use: vec![slots[1].clone(), slots[0].clone()],
        },
        Activity {
            name: "atv1".into(),
            slots_to_use: vec![slots[0].clone(), slots[1].clone()],
        },
    ]
}

fn create_default_slots_with_equals() -> [Slot; 3] {
    [Slot::new("teste"), Slot::new("teste1"), Slot::new("teste1")]
}

fn create_default_slots() -> [Slot; 3] {
    [Slot::new("teste"), Slot::new("teste1"), Slot::new("teste2")]
}

#[test]
fn test_create_slot() {
    let slot = Slot::new("teste");
    let my_slot = Slot {
        name: "teste".into(),
    };
    assert_eq!(slot.name, my_slot.name);
}

#[test]
fn test_slot_equals() {
    let slots = create_default_slots_with_equals();

    assert_eq!(slots[1], slots[2]);
    assert_ne!(slots[0], slots[2]);
}

#[test]
fn test_activity_new_with_slots() {
    let slot1 = Slot::new("teste");
    let slot2 = Slot::new("teste1");
    let slot3 = Slot::new("teste1");

    let activity = Activity::new_with_slots("nova atividade", vec![&slot1, &slot2, &slot3]);

    assert!(activity.slots_to_use.contains(&slot1));
    assert!(activity.slots_to_use.contains(&slot2));
    assert!(activity.slots_to_use.contains(&slot3));
}

#[test]
fn test_activity_can_be_allocated_in() {
    let slots = create_default_slots_with_equals();
    let new_slots = [Slot::new("um outro slot")];

    let atv = Activity::new_with_slots("teste", vec![&slots[0]]);
    assert!(atv.can_be_allocated_in(&slots));
    assert!(!atv.can_be_allocated_in(&new_slots));
}

#[test]
fn test_equals_schedules() {
    let activities = create_default_activities();

    let schdl1 = Schedule::new(vec![
        activities.get(1).unwrap().clone(),
        activities.get(0).unwrap().clone(),
    ]);
    let schdl2 = Schedule::new(vec![
        activities.get(1).unwrap().clone(),
        activities.get(0).unwrap().clone(),
    ]);
    let schdl3 = Schedule::new(vec![
        activities.get(2).unwrap().clone(),
        activities.get(1).unwrap().clone(),
    ]);

    assert_eq!(schdl1, schdl2);
    assert_ne!(schdl1, schdl3);
}

#[test]
fn test_schedule_get_possible_schedules() {
    let atvs = create_default_activities();

    let schedules = Schedule::get_possible_schedules(&atvs, 2);

    assert!(schedules.contains(&Schedule::new(vec![
        atvs.get(0).unwrap().clone(),
        atvs.get(1).unwrap().clone(),
    ])));
    assert!(schedules.contains(&Schedule::new(vec![
        atvs.get(1).unwrap().clone(),
        atvs.get(2).unwrap().clone(),
    ])));
}

#[test]
fn test_filter_schedule_with_slots() {
    let atvs = create_default_activities();
    let slots = create_default_slots();

    let schd = Schedule::new(vec![atvs[0].clone()]);

    let mut slots1 = vec![slots[1].clone()];
    assert!(!filter_schedule_with_slots(&schd, &mut slots1));

    let mut slots2 = vec![slots[0].clone()];
    assert!(filter_schedule_with_slots(&schd, &mut slots2));
}

#[test]
fn test_get_all_schedules() {
    let activities = create_default_activities();
    let slots = create_default_slots();

    let possible_schedules = Schedule::get_all_valid_schedules(&activities, &slots, 2);

    assert!(possible_schedules.contains(&Schedule::new(vec![
        activities.get(0).unwrap().clone(),
        activities.get(2).unwrap().clone(),
    ])));
    assert!(possible_schedules.contains(&Schedule::new(vec![
        activities.get(0).unwrap().clone(),
        activities.get(1).unwrap().clone(),
    ])));
    assert!(possible_schedules.contains(&Schedule::new(vec![
        activities.get(1).unwrap().clone(),
        activities.get(2).unwrap().clone(),
    ])));
}

#[test]
fn test_activiy_hash() {
    let activity = create_equal_activities();

    let mut hasher = DefaultHasher::new();
    assert_eq!(activity[0].hash(&mut hasher), activity[1].hash(&mut hasher));
}

#[test]
fn test_schedule_has() {
    let activities = create_default_activities();

    let schedule1 = Schedule::new(activities.clone());
    let schedule2 = Schedule::new(activities.clone());

    let mut hasher = DefaultHasher::new();
    assert_eq!(schedule1.hash(&mut hasher), schedule2.hash(&mut hasher));
}
