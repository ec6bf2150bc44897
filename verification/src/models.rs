//! The records that pass between the library and its callers.

use crate::index::Words;
use crate::score::{Ratio, Score};
use crate::text::same_text;
use vstd::prelude::*;

verus! {

/// A note as the store keeps it.
pub struct SQLiteNote {
    pub id: i64,
    pub title: String,
    pub content: String,
    pub priority: String,
    pub date: String,
    pub time: String,
    pub status: String,
    pub due_date: Option<String>,
    pub reminder: bool,
    pub last_notified: Option<String>,
    pub is_important: bool,
    pub is_notified: bool,
    pub category: String,
    pub tags: String,
    pub created_at: String,
    pub updated_at: String,
}

/// What a search reads of a note. A field is `None` where the note has no
/// text under that name.
pub struct NoteRecord {
    pub id: Option<String>,
    pub content: Option<String>,
    pub category: Option<String>,
    pub priority: Option<String>,
    pub date: Option<String>,
}

/// A note record as plain text.
pub struct NoteView {
    pub id: Option<Seq<char>>,
    pub content: Option<Seq<char>>,
    pub category: Option<Seq<char>>,
    pub priority: Option<Seq<char>>,
    pub date: Option<Seq<char>>,
}

/// The characters of a string that may be missing.
pub open spec fn text_of(field: Option<String>) -> Option<Seq<char>> {
    match field {
        Some(text) => Some(text@),
        None => None,
    }
}

/// The text of a field; the empty text where it is missing.
pub open spec fn or_empty(field: Option<Seq<char>>) -> Seq<char> {
    match field {
        Some(text) => text,
        None => Seq::empty(),
    }
}

impl View for NoteRecord {
    type V = NoteView;

    open spec fn view(&self) -> NoteView {
        NoteView {
            id: text_of(self.id),
            content: text_of(self.content),
            category: text_of(self.category),
            priority: text_of(self.priority),
            date: text_of(self.date),
        }
    }
}

/// The views of a list of note records.
pub open spec fn note_views(notes: Seq<NoteRecord>) -> Seq<NoteView> {
    notes.map_values(|note: NoteRecord| note@)
}

/// What a text was filed under: its categories and its tags.
pub struct Metadata {
    pub category: Vec<String>,
    pub tags: Vec<String>,
}

/// The importance of a text: how many of its words are keywords, and the
/// chain's hits over the number of its words.
pub struct Importance {
    pub keyword_count: usize,
    pub score: Score,
}

/// What the analyzers say of a text.
pub struct ContentAnalysis {
    pub sentiment: String,
    pub category: Vec<String>,
    pub keywords: Vec<String>,
    pub importance: Importance,
    pub suggested_tags: Vec<String>,
}

/// A note that a search has kept.
pub struct SemanticMatch {
    pub note_id: String,
    pub relevance: Score,
    pub matched_terms: Vec<String>,
}

/// A kept note as plain values.
pub struct MatchView {
    pub note_id: Seq<char>,
    pub relevance: Ratio,
    pub matched_terms: Words,
}

impl View for SemanticMatch {
    type V = MatchView;

    open spec fn view(&self) -> MatchView {
        MatchView {
            note_id: self.note_id@,
            relevance: self.relevance@,
            matched_terms: self.matched_terms.deep_view(),
        }
    }
}

/// The views of a list of matches.
pub open spec fn match_views(matches: Seq<SemanticMatch>) -> Seq<MatchView> {
    matches.map_values(|found: SemanticMatch| found@)
}

/// The first and the last date of a list of notes.
pub struct DateRange {
    pub start: String,
    pub end: String,
}

/// The filters that a list of notes suggests.
pub struct SuggestedFilters {
    pub category: Option<Vec<String>>,
    pub priority: Option<Vec<String>>,
    pub date_range: Option<DateRange>,
}

/// What a search answers: the kept notes, best first, and the filters.
pub struct SearchResult {
    pub semantic_matches: Vec<SemanticMatch>,
    pub suggested_filters: SuggestedFilters,
}

/// What a query is taken for.
#[derive(Clone, Copy, Debug, PartialEq, Eq, Structural)]
pub enum QueryKind {
    Date,
    Text,
}

/// A classified query: its kind and, for a date, the date in its normal
/// form; for a text, the query itself.
pub struct QueryAnalysis {
    pub kind: QueryKind,
    pub value: String,
}

/// The part of the day that a group works.
#[derive(Clone, Copy, Debug, PartialEq, Eq, Structural)]
pub enum ShiftType {
    Morning,
    Night,
    Rest,
}

/// The name under which a shift is stored.
pub open spec fn shift_label(shift: ShiftType) -> Seq<char> {
    match shift {
        ShiftType::Morning => "Morning"@,
        ShiftType::Night => "Night"@,
        ShiftType::Rest => "Rest"@,
    }
}

/// The shift that a stored name stands for; a name that is neither
/// `Morning` nor `Night` stands for rest.
pub open spec fn shift_named(label: Seq<char>) -> ShiftType {
    if label == "Morning"@ {
        ShiftType::Morning
    } else if label == "Night"@ {
        ShiftType::Night
    } else {
        ShiftType::Rest
    }
}

impl ShiftType {
    /// The name under which the shift is stored.
    pub fn label(&self) -> (label: String)
        ensures
            label@ == shift_label(*self),
    {
        match self {
            ShiftType::Morning => "Morning".to_owned(),
            ShiftType::Night => "Night".to_owned(),
            ShiftType::Rest => "Rest".to_owned(),
        }
    }

    /// The shift that a stored name stands for.
    pub fn from_label(label: &str) -> (shift: ShiftType)
        ensures
            shift == shift_named(label@),
    {
        if same_text(label, "Morning") {
            ShiftType::Morning
        } else if same_text(label, "Night") {
            ShiftType::Night
        } else {
            ShiftType::Rest
        }
    }
}

/// A member of the staff, in one group.
pub struct Employee {
    pub id: String,
    pub name: String,
    pub group_id: String,
}

/// An employee as plain text.
pub struct EmployeeView {
    pub id: Seq<char>,
    pub name: Seq<char>,
    pub group_id: Seq<char>,
}

impl View for Employee {
    type V = EmployeeView;

    open spec fn view(&self) -> EmployeeView {
        EmployeeView { id: self.id@, name: self.name@, group_id: self.group_id@ }
    }
}

impl Clone for Employee {
    fn clone(&self) -> (copy: Employee)
        ensures
            copy@ == self@,
    {
        Employee { id: self.id.clone(), name: self.name.clone(), group_id: self.group_id.clone() }
    }
}

/// A group of employees with the shift that it works now.
pub struct Group {
    pub id: String,
    pub name: String,
    pub current_shift: ShiftType,
}

/// A group as plain values.
pub struct GroupView {
    pub id: Seq<char>,
    pub name: Seq<char>,
    pub current_shift: ShiftType,
}

impl View for Group {
    type V = GroupView;

    open spec fn view(&self) -> GroupView {
        GroupView { id: self.id@, name: self.name@, current_shift: self.current_shift }
    }
}

impl Clone for Group {
    fn clone(&self) -> (copy: Group)
        ensures
            copy@ == self@,
    {
        Group { id: self.id.clone(), name: self.name.clone(), current_shift: self.current_shift }
    }
}

/// One entry of a schedule: the shift of a group from `date` on, which
/// counts the seconds since the start of 1970.
pub struct ShiftSchedule {
    pub id: String,
    pub date: i64,
    pub group_id: String,
    pub shift_type: ShiftType,
}

/// An entry of a schedule as plain values.
pub struct ScheduleView {
    pub id: Seq<char>,
    pub date: int,
    pub group_id: Seq<char>,
    pub shift_type: ShiftType,
}

impl View for ShiftSchedule {
    type V = ScheduleView;

    open spec fn view(&self) -> ScheduleView {
        ScheduleView {
            id: self.id@,
            date: self.date as int,
            group_id: self.group_id@,
            shift_type: self.shift_type,
        }
    }
}

impl Clone for ShiftSchedule {
    fn clone(&self) -> (copy: ShiftSchedule)
        ensures
            copy@ == self@,
    {
        ShiftSchedule {
            id: self.id.clone(),
            date: self.date,
            group_id: self.group_id.clone(),
            shift_type: self.shift_type,
        }
    }
}

/// The views of a list of employees.
pub open spec fn employee_views(employees: Seq<Employee>) -> Seq<EmployeeView> {
    employees.map_values(|employee: Employee| employee@)
}

/// The views of a list of groups.
pub open spec fn group_views(groups: Seq<Group>) -> Seq<GroupView> {
    groups.map_values(|group: Group| group@)
}

/// The views of a list of schedule entries.
pub open spec fn schedule_views(entries: Seq<ShiftSchedule>) -> Seq<ScheduleView> {
    entries.map_values(|entry: ShiftSchedule| entry@)
}

} // verus!
