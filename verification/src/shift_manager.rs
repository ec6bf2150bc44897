//! Groups of employees and the rotation of their shifts.

use crate::models::{employee_views, group_views, schedule_views};
use crate::random::fresh_id;
use crate::models::{Employee, EmployeeView, Group, GroupView, ScheduleView};
use crate::models::{ShiftSchedule, ShiftType};
use crate::text::{lemma_lex_irreflexive, lemma_lex_total, lemma_lex_transitive, lex_less};
use crate::text::{precedes, same_text};
use vstd::prelude::*;

verus! {

/// Whether the ids of `groups` ascend strictly in the order of strings.
pub open spec fn group_ids_ascend(groups: Seq<GroupView>) -> bool {
    forall|i: int, j: int| 0 <= i < j < groups.len() ==> lex_less(groups[i].id, groups[j].id)
}

/// Whether no two of `employees` share an id.
pub open spec fn employee_ids_differ(employees: Seq<EmployeeView>) -> bool {
    forall|i: int, j: int| 0 <= i < j < employees.len() ==> employees[i].id != employees[j].id
}

/// Whether the group at `at` has the id `id`.
pub open spec fn is_group_at(groups: Seq<GroupView>, id: Seq<char>, at: int) -> bool {
    0 <= at < groups.len() && groups[at].id == id
}

/// Whether the employee at `at` has the id `id`.
pub open spec fn is_employee_at(employees: Seq<EmployeeView>, id: Seq<char>, at: int) -> bool {
    0 <= at < employees.len() && employees[at].id == id
}

/// Whether one of `groups` has the id `id`.
pub open spec fn has_group(groups: Seq<GroupView>, id: Seq<char>) -> bool {
    exists|at: int| is_group_at(groups, id, at)
}

/// The group with the id `id`.
pub open spec fn group_of(groups: Seq<GroupView>, id: Seq<char>) -> GroupView {
    groups[choose|at: int| is_group_at(groups, id, at)]
}

/// Whether one of `employees` has the id `id`.
pub open spec fn has_employee(employees: Seq<EmployeeView>, id: Seq<char>) -> bool {
    exists|at: int| is_employee_at(employees, id, at)
}

/// The employee with the id `id`.
pub open spec fn employee_of(employees: Seq<EmployeeView>, id: Seq<char>) -> EmployeeView {
    employees[choose|at: int| is_employee_at(employees, id, at)]
}

/// The shift that a group starts with when `count` groups exist already.
pub open spec fn first_shift(count: nat) -> ShiftType {
    if count % 4 == 0 {
        ShiftType::Morning
    } else if count % 4 == 1 {
        ShiftType::Night
    } else {
        ShiftType::Rest
    }
}

/// `group` as it joins when `count` groups exist already: with the shift of
/// that count, whatever shift it came with.
pub open spec fn joined(group: GroupView, count: nat) -> GroupView {
    GroupView { current_shift: first_shift(count), ..group }
}

/// `employees` with the employee `id` moved to the group `group_id`.
pub open spec fn moved(employees: Seq<EmployeeView>, id: Seq<char>, group_id: Seq<char>) -> Seq<
    EmployeeView,
> {
    employees.map_values(
        |employee: EmployeeView|
            if employee.id == id {
                EmployeeView { group_id, ..employee }
            } else {
                employee
            },
    )
}

/// Why an employee cannot change to a group; `None` where the change is in
/// order. The employee must exist, then the new group; and where the
/// employee's present group exists, both groups must work the same shift.
pub open spec fn change_refusal(
    groups: Seq<GroupView>,
    employees: Seq<EmployeeView>,
    employee_id: Seq<char>,
    new_group_id: Seq<char>,
) -> Option<Seq<char>> {
    if !has_employee(employees, employee_id) {
        Some("Personel bulunamadı"@)
    } else if !has_group(groups, new_group_id) {
        Some("Hedef grup bulunamadı"@)
    } else {
        let present = employee_of(employees, employee_id).group_id;
        if has_group(groups, present) && group_of(groups, present).current_shift != group_of(
            groups,
            new_group_id,
        ).current_shift {
            Some("Farklı vardiyada çalışan gruba transfer yapılamaz"@)
        } else {
            None
        }
    }
}

/// The quotient of `a` by a positive `b`, rounded towards zero.
pub open spec fn truncated_quotient(a: int, b: int) -> int {
    if a >= 0 {
        a / b
    } else {
        -((-a) / b)
    }
}

/// How far the rotation has come at `time`, in seconds since the start of
/// 1970: the number of the half day, and of that the remainder by four, with
/// the sign of `time`.
pub open spec fn rotation(time: int) -> int {
    let half_day = truncated_quotient(time, 43200);
    half_day - 4 * truncated_quotient(half_day, 4)
}

/// The shift in a slot of the pattern: morning, night, and two of rest.
pub open spec fn shift_in_slot(slot: int) -> ShiftType {
    if slot == 0 {
        ShiftType::Morning
    } else if slot == 1 {
        ShiftType::Night
    } else {
        ShiftType::Rest
    }
}

/// The shift that the group at `place` works in the half day of `time`.
pub open spec fn shift_at(time: int, place: int) -> ShiftType {
    shift_in_slot((place + rotation(time)) % 4)
}

/// What a schedule entry assigns: a shift to a group from a time on.
pub struct Assignment {
    pub date: int,
    pub group_id: Seq<char>,
    pub shift_type: ShiftType,
}

/// What `entry` assigns.
pub open spec fn assignment_of(entry: ScheduleView) -> Assignment {
    Assignment { date: entry.date, group_id: entry.group_id, shift_type: entry.shift_type }
}

/// What the entries assign, in their order.
pub open spec fn assignments(entries: Seq<ScheduleView>) -> Seq<Assignment> {
    entries.map_values(|entry: ScheduleView| assignment_of(entry))
}

/// The assignments of one half day: one for each group, in their order.
pub open spec fn round(groups: Seq<GroupView>, time: int) -> Seq<Assignment> {
    Seq::new(
        groups.len(),
        |place: int|
            Assignment { date: time, group_id: groups[place].id, shift_type: shift_at(time, place) },
    )
}

/// The assignments of `steps` half days from `start` on.
pub open spec fn rotation_plan(groups: Seq<GroupView>, start: int, steps: nat) -> Seq<Assignment>
    decreases steps,
{
    if steps == 0 {
        Seq::empty()
    } else {
        rotation_plan(groups, start, (steps - 1) as nat) + round(
            groups,
            start + (steps - 1) * 43200,
        )
    }
}

/// `groups`, each with the shift that it works in the half day of `time`.
pub open spec fn with_shifts(groups: Seq<GroupView>, time: int) -> Seq<GroupView> {
    Seq::new(
        groups.len(),
        |place: int| GroupView { current_shift: shift_at(time, place), ..groups[place] },
    )
}

/// The number of half days that a request for `days` covers.
pub open spec fn steps_of(days: int) -> nat {
    if days > 0 {
        days as nat
    } else {
        0
    }
}

/// The groups, the employees and the last schedule that was made.
pub struct ShiftManager {
    groups: Vec<Group>,
    employees: Vec<Employee>,
    schedules: Vec<ShiftSchedule>,
}

impl ShiftManager {
    /// The groups, by ascending id.
    pub closed spec fn groups(&self) -> Seq<GroupView> {
        group_views(self.groups@)
    }

    /// The employees, in the order in which they were added.
    pub closed spec fn employees(&self) -> Seq<EmployeeView> {
        employee_views(self.employees@)
    }

    /// The entries of the last schedule.
    pub closed spec fn schedules(&self) -> Seq<ScheduleView> {
        schedule_views(self.schedules@)
    }

    #[verifier::type_invariant]
    closed spec fn ids_are_keys(&self) -> bool {
        group_ids_ascend(group_views(self.groups@)) && employee_ids_differ(
            employee_views(self.employees@),
        )
    }

    /// A manager without groups, employees or schedule.
    pub fn new() -> (manager: ShiftManager)
        ensures
            manager.groups() == Seq::<GroupView>::empty(),
            manager.employees() == Seq::<EmployeeView>::empty(),
            manager.schedules() == Seq::<ScheduleView>::empty(),
    {
        let manager = ShiftManager {
            groups: Vec::new(),
            employees: Vec::new(),
            schedules: Vec::new(),
        };
        assert(manager.groups() =~= Seq::<GroupView>::empty());
        assert(manager.employees() =~= Seq::<EmployeeView>::empty());
        assert(manager.schedules() =~= Seq::<ScheduleView>::empty());
        manager
    }

    /// The place of the group with the id `id`, if there is one.
    fn find_group(&self, id: &str) -> (found: Option<usize>)
        ensures
            match found {
                Some(at) => is_group_at(self.groups(), id@, at as int) && self.groups()[at as int]
                    == group_of(self.groups(), id@),
                None => !has_group(self.groups(), id@),
            },
    {
        proof {
            use_type_invariant(self);
        }
        let ghost views = self.groups();
        let mut i: usize = 0;
        while i < self.groups.len()
            invariant
                i <= self.groups.len(),
                views == self.groups(),
                group_ids_ascend(views),
                forall|k: int| 0 <= k < i ==> !is_group_at(views, id@, k),
            decreases self.groups.len() - i,
        {
            if same_text(self.groups[i].id.as_str(), id) {
                proof {
                    assert(views[i as int] == self.groups@[i as int]@);
                    assert(is_group_at(views, id@, i as int));
                    let other = choose|at: int| is_group_at(views, id@, at);
                    assert(is_group_at(views, id@, other));
                    if other != i {
                        lemma_lex_irreflexive(id@);
                    }
                }
                return Some(i);
            }
            i = i + 1;
        }
        None
    }

    /// The place of the employee with the id `id`, if there is one.
    fn find_employee(&self, id: &str) -> (found: Option<usize>)
        ensures
            match found {
                Some(at) => is_employee_at(self.employees(), id@, at as int)
                    && self.employees()[at as int] == employee_of(self.employees(), id@),
                None => !has_employee(self.employees(), id@),
            },
    {
        proof {
            use_type_invariant(self);
        }
        let ghost views = self.employees();
        let mut i: usize = 0;
        while i < self.employees.len()
            invariant
                i <= self.employees.len(),
                views == self.employees(),
                employee_ids_differ(views),
                forall|k: int| 0 <= k < i ==> !is_employee_at(views, id@, k),
            decreases self.employees.len() - i,
        {
            if same_text(self.employees[i].id.as_str(), id) {
                proof {
                    assert(views[i as int] == self.employees@[i as int]@);
                    assert(is_employee_at(views, id@, i as int));
                    let other = choose|at: int| is_employee_at(views, id@, at);
                    assert(is_employee_at(views, id@, other));
                }
                return Some(i);
            }
            i = i + 1;
        }
        None
    }

    /// Whether the employee may change to the group: `Ok` where nothing
    /// speaks against it, else the reason.
    pub fn validate_group_change(
        &self,
        employee_id: &str,
        new_group_id: &str,
    ) -> (verdict: Result<(), String>)
        ensures
            match verdict {
                Ok(_) => change_refusal(self.groups(), self.employees(), employee_id@, new_group_id@)
                    is None,
                Err(reason) => change_refusal(
                    self.groups(),
                    self.employees(),
                    employee_id@,
                    new_group_id@,
                ) == Some(reason@),
            },
    {
        let employee_at = match self.find_employee(employee_id) {
            Some(at) => at,
            None => { return Err("Personel bulunamadı".to_owned()); },
        };
        let new_at = match self.find_group(new_group_id) {
            Some(at) => at,
            None => { return Err("Hedef grup bulunamadı".to_owned()); },
        };
        assert(self.employees()[employee_at as int] == self.employees@[employee_at as int]@);
        assert(self.groups()[new_at as int] == self.groups@[new_at as int]@);
        match self.find_group(self.employees[employee_at].group_id.as_str()) {
            Some(present_at) => {
                assert(self.groups()[present_at as int] == self.groups@[present_at as int]@);
                if self.groups[present_at].current_shift != self.groups[new_at].current_shift {
                    return Err("Farklı vardiyada çalışan gruba transfer yapılamaz".to_owned());
                }
            },
            None => {},
        }
        Ok(())
    }

    /// The employees, in the order in which they were added.
    pub fn get_all_employees(&self) -> (all: Vec<Employee>)
        ensures
            employee_views(all@) == self.employees(),
            employee_ids_differ(self.employees()),
    {
        proof {
            use_type_invariant(self);
        }
        let mut all: Vec<Employee> = Vec::new();
        let mut i: usize = 0;
        while i < self.employees.len()
            invariant
                i <= self.employees.len(),
                all.len() == i,
                forall|k: int| 0 <= k < i ==> all@[k]@ == self.employees@[k]@,
            decreases self.employees.len() - i,
        {
            all.push(self.employees[i].clone());
            i = i + 1;
        }
        assert(employee_views(all@) =~= self.employees());
        all
    }

    /// The groups, by ascending id.
    pub fn get_all_groups(&self) -> (all: Vec<Group>)
        ensures
            group_views(all@) == self.groups(),
            group_ids_ascend(self.groups()),
    {
        proof {
            use_type_invariant(self);
        }
        let mut all: Vec<Group> = Vec::new();
        let mut i: usize = 0;
        while i < self.groups.len()
            invariant
                i <= self.groups.len(),
                all.len() == i,
                forall|k: int| 0 <= k < i ==> all@[k]@ == self.groups@[k]@,
            decreases self.groups.len() - i,
        {
            all.push(self.groups[i].clone());
            i = i + 1;
        }
        assert(group_views(all@) =~= self.groups());
        all
    }

    /// For each group, by ascending id, its id and the shift it works now.
    pub fn get_current_shifts(&self) -> (shifts: Vec<(String, ShiftType)>)
        ensures
            shifts.len() == self.groups().len(),
            forall|k: int|
                0 <= k < shifts.len() ==> (#[trigger] shifts@[k]).0@ == self.groups()[k].id
                    && shifts@[k].1 == self.groups()[k].current_shift,
    {
        let mut shifts: Vec<(String, ShiftType)> = Vec::new();
        let mut i: usize = 0;
        while i < self.groups.len()
            invariant
                i <= self.groups.len(),
                shifts.len() == i,
                forall|k: int|
                    0 <= k < i ==> (#[trigger] shifts@[k]).0@ == self.groups@[k].id@ && shifts@[k].1
                        == self.groups@[k].current_shift,
            decreases self.groups.len() - i,
        {
            shifts.push((self.groups[i].id.clone(), self.groups[i].current_shift));
            i = i + 1;
        }
        shifts
    }

    /// Adds `employee`, unless an employee with that id exists already.
    pub fn add_employee(&mut self, employee: Employee) -> (outcome: Result<(), String>)
        ensures
            final(self).groups() == old(self).groups(),
            final(self).schedules() == old(self).schedules(),
            match outcome {
                Ok(_) => {
                    &&& !has_employee(old(self).employees(), employee.id@)
                    &&& final(self).employees() == old(self).employees().push(employee@)
                },
                Err(reason) => {
                    &&& has_employee(old(self).employees(), employee.id@)
                    &&& reason@ == "Bu ID'ye sahip personel zaten mevcut"@
                    &&& final(self).employees() == old(self).employees()
                },
            },
    {
        proof {
            use_type_invariant(&*self);
        }
        if self.find_employee(employee.id.as_str()).is_some() {
            return Err("Bu ID'ye sahip personel zaten mevcut".to_owned());
        }
        let ghost before = self.employees();
        let mut employees: Vec<Employee> = Vec::new();
        core::mem::swap(&mut self.employees, &mut employees);
        employees.push(employee);
        proof {
            let after = employee_views(employees@);
            assert(after =~= before.push(employee@));
            assert forall|i: int, j: int| 0 <= i < j < after.len() implies after[i].id
                != after[j].id by {
                if j == before.len() {
                    assert(!is_employee_at(before, employee.id@, i));
                }
            }
        }
        core::mem::swap(&mut self.employees, &mut employees);
        Ok(())
    }

    /// Adds `group` with the shift that its place in the count of groups
    /// gives it, unless a group with that id exists already.
    pub fn add_group(&mut self, group: Group) -> (outcome: Result<(), String>)
        ensures
            final(self).employees() == old(self).employees(),
            final(self).schedules() == old(self).schedules(),
            group_ids_ascend(final(self).groups()),
            match outcome {
                Ok(_) => {
                    &&& !has_group(old(self).groups(), group.id@)
                    &&& exists|at: int|
                        0 <= at <= old(self).groups().len() && #[trigger] final(self).groups()
                            == old(self).groups().insert(
                            at,
                            joined(group@, old(self).groups().len()),
                        )
                },
                Err(reason) => {
                    &&& has_group(old(self).groups(), group.id@)
                    &&& reason@ == "Bu ID'ye sahip grup zaten mevcut"@
                    &&& final(self).groups() == old(self).groups()
                },
            },
    {
        proof {
            use_type_invariant(&*self);
        }
        let ghost before = self.groups();
        let count = self.groups.len();
        let mut at: usize = 0;
        while at < count && precedes(self.groups[at].id.as_str(), group.id.as_str())
            invariant
                at <= count,
                count == self.groups.len(),
                before == self.groups(),
                forall|k: int| 0 <= k < at ==> lex_less(before[k].id, group.id@),
            decreases count - at,
        {
            at = at + 1;
        }
        if at < count && same_text(self.groups[at].id.as_str(), group.id.as_str()) {
            assert(is_group_at(before, group.id@, at as int));
            return Err("Bu ID'ye sahip grup zaten mevcut".to_owned());
        }
        let current_shift = match count % 4 {
            0 => ShiftType::Morning,
            1 => ShiftType::Night,
            _ => ShiftType::Rest,
        };
        let added = Group { id: group.id, name: group.name, current_shift };
        let ghost view = added@;
        proof {
            if at < count {
                lemma_lex_total(before[at as int].id, view.id);
            }
            assert forall|k: int| at <= k < before.len() implies lex_less(
                view.id,
                #[trigger] before[k].id,
            ) by {
                if k > at {
                    lemma_lex_transitive(view.id, before[at as int].id, before[k].id);
                }
            }
            assert forall|k: int| !is_group_at(before, view.id, k) by {
                lemma_lex_irreflexive(view.id);
            }
        }
        let mut groups: Vec<Group> = Vec::new();
        core::mem::swap(&mut self.groups, &mut groups);
        groups.insert(at, added);
        proof {
            let after = group_views(groups@);
            assert(after =~= before.insert(at as int, view));
            assert forall|i: int, j: int| 0 <= i < j < after.len() implies lex_less(
                after[i].id,
                after[j].id,
            ) by {
                if i < at && j > at {
                    assert(after[i] == before[i] && after[j] == before[j - 1]);
                } else if i < at && j < at {
                    assert(after[i] == before[i] && after[j] == before[j]);
                } else if i > at {
                    assert(after[i] == before[i - 1] && after[j] == before[j - 1]);
                } else if i == at {
                    assert(after[j] == before[j - 1]);
                } else {
                    assert(after[i] == before[i]);
                }
            }
        }
        core::mem::swap(&mut self.groups, &mut groups);
        Ok(())
    }

    /// Moves the employee to the group `new_group_id`, which need not
    /// exist; fails where there is no such employee.
    pub fn update_employee_group(
        &mut self,
        employee_id: &str,
        new_group_id: &str,
    ) -> (outcome: Result<(), String>)
        ensures
            final(self).groups() == old(self).groups(),
            final(self).schedules() == old(self).schedules(),
            match outcome {
                Ok(_) => {
                    &&& has_employee(old(self).employees(), employee_id@)
                    &&& final(self).employees() == moved(
                        old(self).employees(),
                        employee_id@,
                        new_group_id@,
                    )
                },
                Err(reason) => {
                    &&& !has_employee(old(self).employees(), employee_id@)
                    &&& reason@ == "Personel bulunamadı"@
                    &&& final(self).employees() == old(self).employees()
                },
            },
    {
        proof {
            use_type_invariant(&*self);
        }
        let at = match self.find_employee(employee_id) {
            Some(at) => at,
            None => { return Err("Personel bulunamadı".to_owned()); },
        };
        let ghost before = self.employees();
        let mut employees: Vec<Employee> = Vec::new();
        core::mem::swap(&mut self.employees, &mut employees);
        employees[at].group_id = new_group_id.to_owned();
        proof {
            let after = employee_views(employees@);
            assert forall|k: int| 0 <= k < after.len() implies #[trigger] after[k] == moved(
                before,
                employee_id@,
                new_group_id@,
            )[k] by {
                assert(before[k] == old(self).employees@[k]@);
                if k != at {
                    assert(employees@[k] == old(self).employees@[k]);
                }
            }
            assert(after =~= moved(before, employee_id@, new_group_id@));
            assert forall|i: int, j: int| 0 <= i < j < after.len() implies after[i].id
                != after[j].id by {
                assert(after[i].id == before[i].id && after[j].id == before[j].id);
            }
        }
        core::mem::swap(&mut self.employees, &mut employees);
        Ok(())
    }

    /// Makes the schedule of `days` half days from `start` on, which counts
    /// the seconds since the start of 1970: in each half day every group, by
    /// ascending id, gets the shift of its place in the rotation, under a
    /// fresh random id. The groups keep the shift of the last half day, and
    /// the schedule replaces the one before. The time that follows the last
    /// half day must still be a number of seconds that the machine can
    /// hold, and with groups to schedule the rotation must not be negative
    /// in any of the half days: it is from 1970 on, and before that where
    /// the number of the half day is a multiple of four.
    pub fn generate_schedule(&mut self, start: i64, days: i64) -> (schedule: Vec<ShiftSchedule>)
        requires
            days > 0 ==> start + days * 43200 <= i64::MAX,
            old(self).groups().len() > 0 ==> forall|step: int|
                0 <= step < days ==> #[trigger] rotation(start + step * 43200) >= 0,
        ensures
            assignments(schedule_views(schedule@)) == rotation_plan(
                old(self).groups(),
                start as int,
                steps_of(days as int),
            ),
            forall|k: int| 0 <= k < schedule.len() ==> (#[trigger] schedule@[k]).id@.len() == 36,
            final(self).schedules() == schedule_views(schedule@),
            final(self).employees() == old(self).employees(),
            final(self).groups() == if days > 0 {
                with_shifts(old(self).groups(), start + (days - 1) * 43200)
            } else {
                old(self).groups()
            },
    {
        proof {
            use_type_invariant(&*self);
        }
        let ghost before = self.groups();
        let mut groups: Vec<Group> = Vec::new();
        core::mem::swap(&mut self.groups, &mut groups);
        let count = groups.len();
        let mut schedule: Vec<ShiftSchedule> = Vec::new();
        let mut current: i64 = start;
        let mut step: i64 = 0;
        assert(assignments(schedule_views(schedule@)) =~= rotation_plan(before, start as int, 0));
        while step < days
            invariant
                0 <= step,
                days > 0 ==> step <= days,
                days <= 0 ==> step == 0,
                days > 0 ==> start + days * 43200 <= i64::MAX,
                current == start + step * 43200,
                count == groups.len(),
                before.len() == count,
                count > 0 ==> forall|s: int|
                    0 <= s < days ==> #[trigger] rotation(start + s * 43200) >= 0,
                forall|k: int|
                    0 <= k < count ==> (#[trigger] groups@[k]).id@ == before[k].id && groups@[k].name@
                        == before[k].name,
                group_views(groups@) == if step > 0 {
                    with_shifts(before, start + (step - 1) * 43200)
                } else {
                    before
                },
                assignments(schedule_views(schedule@)) == rotation_plan(
                    before,
                    start as int,
                    step as nat,
                ),
                forall|k: int| 0 <= k < schedule.len() ==> (#[trigger] schedule@[k]).id@.len() == 36,
            decreases days - step,
        {
            let ghost planned = rotation_plan(before, start as int, step as nat);
            let ghost time = current as int;
            let mut place: usize = 0;
            assert(assignments(schedule_views(schedule@)) =~= planned + round(before, time).take(0));
            while place < count
                invariant
                    place <= count,
                    count == groups.len(),
                    before.len() == count,
                    time == current,
                    0 <= step < days,
                    time == start + step * 43200,
                    count > 0 ==> rotation(time) >= 0,
                    forall|k: int|
                        0 <= k < count ==> (#[trigger] groups@[k]).id@ == before[k].id
                            && groups@[k].name@ == before[k].name,
                    forall|k: int|
                        0 <= k < place ==> (#[trigger] groups@[k]).current_shift == shift_at(time, k),
                    assignments(schedule_views(schedule@)) == planned + round(before, time).take(
                        place as int,
                    ),
                    forall|k: int|
                        0 <= k < schedule.len() ==> (#[trigger] schedule@[k]).id@.len() == 36,
                decreases count - place,
            {
                assert(rotation(start + step * 43200) >= 0);
                let position: i64 = (current / 43200) % 4;
                let turn: i64 = (place % 4) as i64;
                let slot: i64 = (turn + position) % 4;
                assert(slot == (place + rotation(time)) % 4);
                let shift_type = if slot == 0 {
                    ShiftType::Morning
                } else if slot == 1 {
                    ShiftType::Night
                } else {
                    ShiftType::Rest
                };
                groups[place].current_shift = shift_type;
                let entry = ShiftSchedule {
                    id: fresh_id(),
                    date: current,
                    group_id: groups[place].id.clone(),
                    shift_type,
                };
                let ghost earlier = assignments(schedule_views(schedule@));
                schedule.push(entry);
                proof {
                    let now = assignments(schedule_views(schedule@));
                    assert(now =~= earlier.push(assignment_of(entry@)));
                    assert(round(before, time).take(place + 1) =~= round(before, time).take(
                        place as int,
                    ).push(round(before, time)[place as int]));
                    assert(now =~= planned + round(before, time).take(place + 1));
                }
                place = place + 1;
            }
            proof {
                assert(round(before, time).take(count as int) =~= round(before, time));
                assert(group_views(groups@) =~= with_shifts(before, time));
            }
            step = step + 1;
            current = current + 43200;
        }
        proof {
            let after = group_views(groups@);
            assert forall|i: int, j: int| 0 <= i < j < after.len() implies lex_less(
                after[i].id,
                after[j].id,
            ) by {
                assert(after[i].id == before[i].id && after[j].id == before[j].id);
            }
        }
        core::mem::swap(&mut self.groups, &mut groups);
        let mut kept: Vec<ShiftSchedule> = Vec::new();
        let mut k: usize = 0;
        while k < schedule.len()
            invariant
                k <= schedule.len(),
                kept.len() == k,
                forall|i: int| 0 <= i < k ==> kept@[i]@ == schedule@[i]@,
            decreases schedule.len() - k,
        {
            kept.push(schedule[k].clone());
            k = k + 1;
        }
        assert(schedule_views(kept@) =~= schedule_views(schedule@));
        self.schedules = kept;
        schedule
    }
}

} // verus!
