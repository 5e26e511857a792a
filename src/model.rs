//! The task data model. Durations are whole seconds; due dates are Unix
//! timestamps in seconds.

use vstd::prelude::*;
use vstd::string::StringExecFns;

verus! {

/// Pomodoro settings. Lengths are in seconds.
pub struct Config {
    /// The number of pomodoro sessions before a long break.
    pub long_break_after: u32,
    /// The length of the pomodoro timer.
    pub pomodoro_length: u64,
    /// The length of a short break.
    pub short_break_length: u64,
    /// The length of a long break.
    pub long_break_length: u64,
}

impl Default for Config {
    fn default() -> (r: Self)
        ensures
            r.pomodoro_length == 20 * 60,
            r.short_break_length == 5 * 60,
            r.long_break_length == 15 * 60,
            r.long_break_after == 4,
    {
        Config {
            pomodoro_length: 20 * 60,
            short_break_length: 5 * 60,
            long_break_length: 15 * 60,
            long_break_after: 4,
        }
    }
}

impl Config {
    /// Replaces every setting with the values given on the command line.
    pub fn add(
        self,
        pomodoro_length: u64,
        short_break_length: u64,
        long_break_length: u64,
        long_break_frequency: u32,
    ) -> (r: Config)
        ensures
            r.pomodoro_length == pomodoro_length,
            r.short_break_length == short_break_length,
            r.long_break_length == long_break_length,
            r.long_break_after == long_break_frequency,
    {
        let mut config = self;
        config.pomodoro_length = pomodoro_length;
        config.short_break_length = short_break_length;
        config.long_break_length = long_break_length;
        config.long_break_after = long_break_frequency;
        config
    }
}

/// One unit of work.
pub struct Task {
    pub description: String,
    /// Estimated work in seconds; absent counts as zero.
    pub estimated_time: Option<u64>,
    /// Names of the tasks this one depends on.
    pub depends_on: Vec<String>,
    /// A milestone: complete once all of its dependencies are complete.
    pub symbolic: bool,
    pub complete: bool,
    /// Due date as a Unix timestamp in seconds.
    pub due: Option<i64>,
}

/// The mathematical value of a task.
pub struct TaskView {
    pub description: Seq<char>,
    pub estimated_time: Option<u64>,
    pub depends_on: Seq<Seq<char>>,
    pub symbolic: bool,
    pub complete: bool,
    pub due: Option<i64>,
}

impl View for Task {
    type V = TaskView;

    open spec fn view(&self) -> TaskView {
        TaskView {
            description: self.description@,
            estimated_time: self.estimated_time,
            depends_on: self.depends_on@.map_values(|s: String| s@),
            symbolic: self.symbolic,
            complete: self.complete,
            due: self.due,
        }
    }
}

impl Default for Task {
    fn default() -> (r: Self)
        ensures
            r@ == (TaskView {
                description: Seq::empty(),
                estimated_time: None,
                depends_on: Seq::empty(),
                symbolic: false,
                complete: false,
                due: None,
            }),
    {
        let r = Task {
            description: String::new(),
            estimated_time: None,
            depends_on: Vec::new(),
            symbolic: false,
            complete: false,
            due: None,
        };
        assert(r@.depends_on =~= Seq::empty());
        r
    }
}

/// Copies a list of names, keeping each name.
pub fn copy_names(names: &Vec<String>) -> (r: Vec<String>)
    ensures
        r@.map_values(|s: String| s@) == names@.map_values(|s: String| s@),
{
    let mut r: Vec<String> = Vec::new();
    let mut i: usize = 0;
    while i < names.len()
        invariant
            i <= names.len(),
            r@.len() == i,
            forall|k: int| 0 <= k < i ==> r@[k]@ == names@[k]@,
        decreases names.len() - i,
    {
        r.push(names[i].clone());
        i = i + 1;
    }
    assert(r@.map_values(|s: String| s@) =~= names@.map_values(|s: String| s@));
    r
}

impl Task {
    /// A copy of the task with every field kept.
    pub fn duplicate(&self) -> (r: Task)
        ensures
            r@ == self@,
    {
        Task {
            description: self.description.clone(),
            estimated_time: self.estimated_time,
            depends_on: copy_names(&self.depends_on),
            symbolic: self.symbolic,
            complete: self.complete,
            due: self.due,
        }
    }
}

/// A node of the derived dependency graph.
pub struct TaskNode {
    pub name: String,
    pub complete: bool,
    pub is_root: bool,
}

impl View for TaskNode {
    type V = (Seq<char>, bool, bool);

    open spec fn view(&self) -> (Seq<char>, bool, bool) {
        (self.name@, self.complete, self.is_root)
    }
}

/// The text shown for a node: `root`, or the name and the completion flag.
pub open spec fn node_label(name: Seq<char>, complete: bool, is_root: bool) -> Seq<char> {
    if is_root {
        "root"@
    } else {
        name + ": "@ + (if complete { "true"@ } else { "false"@ })
    }
}

impl TaskNode {
    /// The text shown for this node when the graph is printed.
    pub fn label(&self) -> (r: String)
        ensures
            r@ == node_label(self.name@, self.complete, self.is_root),
    {
        proof {
            reveal_strlit("root");
            reveal_strlit(": ");
            reveal_strlit("true");
            reveal_strlit("false");
        }
        if self.is_root {
            String::from_str("root")
        } else {
            let mut s = self.name.clone();
            s.append(": ");
            if self.complete {
                s.append("true");
            } else {
                s.append("false");
            }
            s
        }
    }
}

} // verus!
