//! The task record: the one entity the store manages.

use vstd::prelude::*;

verus! {

/// Completion state of a task. The two states are only ever changed by an
/// explicit user-directed overwrite; nothing transitions automatically.
#[derive(Clone, Copy, PartialEq, Eq, Structural, Debug)]
pub enum Status {
    Completed,
    NotCompleted,
}

/// Priority of a task: a closed set of three named levels.
#[derive(Clone, Copy, PartialEq, Eq, Structural, Debug)]
pub enum Priority {
    High,
    Medium,
    Low,
}

/// One task entry. `id` is unique within a collection and `created` is
/// stamped once at creation time; neither is ever edited afterwards.
#[derive(Debug)]
pub struct Todo {
    pub id: u32,
    pub title: String,
    pub description: String,
    pub status: Status,
    pub priority: Priority,
    pub created: String,
}

/// The mathematical shadow of a [`Todo`]: the same fields with strings
/// seen as character sequences. All contracts speak of this form.
#[verifier::ext_equal]
pub struct TodoView {
    pub id: u32,
    pub title: Seq<char>,
    pub description: Seq<char>,
    pub status: Status,
    pub priority: Priority,
    pub created: Seq<char>,
}

impl View for Todo {
    type V = TodoView;

    open spec fn view(&self) -> TodoView {
        TodoView {
            id: self.id,
            title: self.title@,
            description: self.description@,
            status: self.status,
            priority: self.priority,
            created: self.created@,
        }
    }
}

/// The model of a whole collection: the records in insertion order.
pub open spec fn views(s: Seq<Todo>) -> Seq<TodoView> {
    s.map_values(|t: Todo| t@)
}

impl Status {
    /// The numeric code the interactive surface uses for this state.
    pub open spec fn spec_code(self) -> u32 {
        match self {
            Status::Completed => 0,
            Status::NotCompleted => 1,
        }
    }

    /// Maps a user-entered code to a state: `0` is `Completed`,
    /// `1` is `NotCompleted`, anything else is rejected.
    pub fn from_code(code: u32) -> (r: Option<Status>)
        ensures
            r matches Some(st) ==> st.spec_code() == code,
            r is None <==> code > 1,
    {
        match code {
            0 => Some(Status::Completed),
            1 => Some(Status::NotCompleted),
            _ => None,
        }
    }

    /// The numeric code, as executable code.
    pub fn code(self) -> (r: u32)
        ensures
            r == self.spec_code(),
    {
        match self {
            Status::Completed => 0,
            Status::NotCompleted => 1,
        }
    }
}

impl Priority {
    /// The numeric code the interactive surface uses for this level.
    pub open spec fn spec_code(self) -> u32 {
        match self {
            Priority::High => 1,
            Priority::Medium => 2,
            Priority::Low => 3,
        }
    }

    /// Maps a user-entered code to a level: `1` is `High`, `2` is
    /// `Medium`, `3` is `Low`, anything else is rejected.
    pub fn from_code(code: u32) -> (r: Option<Priority>)
        ensures
            r matches Some(p) ==> p.spec_code() == code,
            r is None <==> (code == 0 || code > 3),
    {
        match code {
            1 => Some(Priority::High),
            2 => Some(Priority::Medium),
            3 => Some(Priority::Low),
            _ => None,
        }
    }

    /// The numeric code, as executable code.
    pub fn code(self) -> (r: u32)
        ensures
            r == self.spec_code(),
    {
        match self {
            Priority::High => 1,
            Priority::Medium => 2,
            Priority::Low => 3,
        }
    }
}

} // verus!
