use markov_notes::models::{Employee, Group, ShiftType};
use markov_notes::shift_manager::ShiftManager;

fn group(id: &str) -> Group {
    Group { id: id.to_string(), name: format!("Grup {}", id), current_shift: ShiftType::Rest }
}

fn employee(id: &str, group_id: &str) -> Employee {
    Employee { id: id.to_string(), name: format!("Kişi {}", id), group_id: group_id.to_string() }
}

fn manager_with_groups(ids: &[&str]) -> ShiftManager {
    let mut manager = ShiftManager::new();
    for id in ids {
        assert_eq!(manager.add_group(group(id)), Ok(()));
    }
    manager
}

fn shifts(manager: &ShiftManager) -> Vec<(String, ShiftType)> {
    manager.get_current_shifts()
}

#[test]
fn a_new_manager_is_empty() {
    let manager = ShiftManager::new();
    assert!(manager.get_all_groups().is_empty());
    assert!(manager.get_all_employees().is_empty());
    assert!(manager.get_current_shifts().is_empty());
}

#[test]
fn groups_start_with_the_shift_of_their_count() {
    let manager = manager_with_groups(&["g1", "g2", "g3", "g4", "g5", "g6"]);
    assert_eq!(
        shifts(&manager),
        vec![
            ("g1".to_string(), ShiftType::Morning),
            ("g2".to_string(), ShiftType::Night),
            ("g3".to_string(), ShiftType::Rest),
            ("g4".to_string(), ShiftType::Rest),
            ("g5".to_string(), ShiftType::Morning),
            ("g6".to_string(), ShiftType::Night),
        ]
    );
}

#[test]
fn groups_are_kept_by_ascending_id() {
    let manager = manager_with_groups(&["c", "a", "d", "b"]);
    let all = manager.get_all_groups();
    let ids: Vec<&str> = all.iter().map(|g| g.id.as_str()).collect();
    assert_eq!(ids, vec!["a", "b", "c", "d"]);
    assert_eq!(all[0].current_shift, ShiftType::Night);
    assert_eq!(all[1].current_shift, ShiftType::Rest);
    assert_eq!(all[2].current_shift, ShiftType::Morning);
    assert_eq!(all[3].current_shift, ShiftType::Rest);
    assert_eq!(all[0].name, "Grup a");
}

#[test]
fn a_second_group_with_an_id_is_refused() {
    let mut manager = manager_with_groups(&["g1", "g2"]);
    assert_eq!(manager.add_group(group("g1")), Err("Bu ID'ye sahip grup zaten mevcut".to_string()));
    assert_eq!(manager.add_group(group("g2")), Err("Bu ID'ye sahip grup zaten mevcut".to_string()));
    assert_eq!(manager.get_all_groups().len(), 2);
    assert_eq!(manager.add_group(group("g0")), Ok(()));
    assert_eq!(shifts(&manager)[0], ("g0".to_string(), ShiftType::Rest));
}

#[test]
fn employees_are_added_once() {
    let mut manager = ShiftManager::new();
    assert_eq!(manager.add_employee(employee("e2", "g1")), Ok(()));
    assert_eq!(manager.add_employee(employee("e1", "g1")), Ok(()));
    assert_eq!(
        manager.add_employee(employee("e2", "g9")),
        Err("Bu ID'ye sahip personel zaten mevcut".to_string())
    );
    let all = manager.get_all_employees();
    let ids: Vec<&str> = all.iter().map(|e| e.id.as_str()).collect();
    assert_eq!(ids, vec!["e2", "e1"]);
    assert_eq!(all[0].group_id, "g1");
    assert_eq!(all[0].name, "Kişi e2");
}

#[test]
fn an_employee_moves_to_any_group() {
    let mut manager = ShiftManager::new();
    manager.add_employee(employee("e1", "g1")).unwrap();
    manager.add_employee(employee("e2", "g1")).unwrap();
    assert_eq!(manager.update_employee_group("e1", "yok"), Ok(()));
    let all = manager.get_all_employees();
    assert_eq!(all[0].group_id, "yok");
    assert_eq!(all[1].group_id, "g1");
    assert_eq!(
        manager.update_employee_group("e9", "g1"),
        Err("Personel bulunamadı".to_string())
    );
}

#[test]
fn a_change_needs_employee_and_group() {
    let mut manager = manager_with_groups(&["g1", "g2"]);
    manager.add_employee(employee("e1", "g1")).unwrap();
    assert_eq!(
        manager.validate_group_change("e9", "g1"),
        Err("Personel bulunamadı".to_string())
    );
    assert_eq!(
        manager.validate_group_change("e9", "g9"),
        Err("Personel bulunamadı".to_string())
    );
    assert_eq!(
        manager.validate_group_change("e1", "g9"),
        Err("Hedef grup bulunamadı".to_string())
    );
}

#[test]
fn a_change_needs_the_same_shift() {
    let mut manager = manager_with_groups(&["g1", "g2", "g3", "g4"]);
    manager.add_employee(employee("e1", "g1")).unwrap();
    manager.add_employee(employee("e3", "g3")).unwrap();
    manager.add_employee(employee("lost", "g9")).unwrap();
    assert_eq!(
        manager.validate_group_change("e1", "g2"),
        Err("Farklı vardiyada çalışan gruba transfer yapılamaz".to_string())
    );
    assert_eq!(manager.validate_group_change("e1", "g1"), Ok(()));
    assert_eq!(manager.validate_group_change("e3", "g4"), Ok(()));
    assert_eq!(manager.validate_group_change("lost", "g2"), Ok(()));
}

#[test]
fn a_schedule_rotates_the_groups() {
    let mut manager = manager_with_groups(&["g1", "g2", "g3", "g4"]);
    let schedule = manager.generate_schedule(0, 2);
    assert_eq!(schedule.len(), 8);
    let rows: Vec<(i64, &str, ShiftType)> =
        schedule.iter().map(|e| (e.date, e.group_id.as_str(), e.shift_type)).collect();
    assert_eq!(
        rows,
        vec![
            (0, "g1", ShiftType::Morning),
            (0, "g2", ShiftType::Night),
            (0, "g3", ShiftType::Rest),
            (0, "g4", ShiftType::Rest),
            (43200, "g1", ShiftType::Night),
            (43200, "g2", ShiftType::Rest),
            (43200, "g3", ShiftType::Rest),
            (43200, "g4", ShiftType::Morning),
        ]
    );
    assert_eq!(
        shifts(&manager),
        vec![
            ("g1".to_string(), ShiftType::Night),
            ("g2".to_string(), ShiftType::Rest),
            ("g3".to_string(), ShiftType::Rest),
            ("g4".to_string(), ShiftType::Morning),
        ]
    );
}

#[test]
fn a_schedule_counts_half_days_from_1970() {
    let mut manager = manager_with_groups(&["a", "b"]);
    let start = 172_800_000i64;
    let schedule = manager.generate_schedule(start, 1);
    let half_day = start / 43200;
    assert_eq!(half_day % 4, 0);
    assert_eq!(schedule[0].shift_type, ShiftType::Morning);
    assert_eq!(schedule[1].shift_type, ShiftType::Night);
    let later = manager.generate_schedule(start + 3 * 43200, 1);
    assert_eq!(later[0].date, start + 3 * 43200);
    assert_eq!(later[0].shift_type, ShiftType::Rest);
    assert_eq!(later[1].shift_type, ShiftType::Morning);
}

#[test]
fn a_schedule_has_fresh_ids() {
    let mut manager = manager_with_groups(&["g1", "g2", "g3"]);
    let schedule = manager.generate_schedule(86400, 4);
    assert_eq!(schedule.len(), 12);
    for entry in &schedule {
        assert_eq!(entry.id.chars().count(), 36);
    }
    for a in 0..schedule.len() {
        for b in a + 1..schedule.len() {
            assert_ne!(schedule[a].id, schedule[b].id);
        }
    }
}

#[test]
fn a_schedule_of_no_days_is_empty() {
    let mut manager = manager_with_groups(&["g1", "g2"]);
    assert!(manager.generate_schedule(0, 0).is_empty());
    assert!(manager.generate_schedule(0, -3).is_empty());
    assert_eq!(
        shifts(&manager),
        vec![("g1".to_string(), ShiftType::Morning), ("g2".to_string(), ShiftType::Night)]
    );
}

#[test]
fn a_schedule_without_groups_is_empty() {
    let mut manager = ShiftManager::new();
    assert!(manager.generate_schedule(-1_000_000, 5).is_empty());
}

#[test]
fn a_schedule_just_before_1970() {
    let mut manager = manager_with_groups(&["g1"]);
    let schedule = manager.generate_schedule(-1, 1);
    assert_eq!(schedule.len(), 1);
    assert_eq!(schedule[0].date, -1);
    assert_eq!(schedule[0].shift_type, ShiftType::Morning);
}
