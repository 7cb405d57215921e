use vstd::prelude::*;
use vstd::string::*;

verus! {

/// Parameters of a function call task.
#[derive(PartialEq, Eq, Structural, Clone, Copy, Debug)]
pub struct FunctionPayload {}

/// Parameters of a script task.
#[derive(PartialEq, Eq, Structural, Clone, Copy, Debug)]
pub struct ScriptPayload {}

/// Parameters of a subscription task.
#[derive(PartialEq, Eq, Structural, Clone, Copy, Debug)]
pub struct SubscriptionPayload {}

/// The closed set of task kinds a message can carry.
#[derive(PartialEq, Eq, Structural, Clone, Copy, Debug)]
pub enum TaskType {
    Function,
    Script,
    Subscription,
}

/// A typed task payload, one variant per task kind.
#[derive(PartialEq, Eq, Structural, Clone, Copy, Debug)]
pub enum TaskPayload {
    Function(FunctionPayload),
    Script(ScriptPayload),
    Subscription(SubscriptionPayload),
}

/// Failures of the task payload model.
#[derive(PartialEq, Eq, Structural, Clone, Copy, Debug)]
pub enum TaskError {
    /// The task type names no known variant.
    UnknownTaskVariant,
    /// The task parameters do not decode into the variant's payload.
    TaskParamsDecodeError,
}

pub open spec fn type_of_payload(p: TaskPayload) -> TaskType {
    match p {
        TaskPayload::Function(_) => TaskType::Function,
        TaskPayload::Script(_) => TaskType::Script,
        TaskPayload::Subscription(_) => TaskType::Subscription,
    }
}

pub open spec fn task_type_name(t: TaskType) -> Seq<char> {
    match t {
        TaskType::Function => seq!['F', 'u', 'n', 'c', 't', 'i', 'o', 'n'],
        TaskType::Script => seq!['S', 'c', 'r', 'i', 'p', 't'],
        TaskType::Subscription => seq![
            'S', 'u', 'b', 's', 'c', 'r', 'i', 'p', 't', 'i', 'o', 'n',
        ],
    }
}

fn str_eq(a: &str, b: &str) -> (r: bool)
    ensures
        r == (a@ == b@),
{
    if a.unicode_len() != b.unicode_len() {
        return false;
    }
    let n = a.unicode_len();
    let mut i: usize = 0;
    while i < n
        invariant
            i <= n,
            n == a@.len(),
            n == b@.len(),
            forall|k: int| 0 <= k < i ==> a@[k] == b@[k],
        decreases n - i,
    {
        if a.get_char(i) != b.get_char(i) {
            return false;
        }
        i += 1;
    }
    assert(a@ =~= b@);
    true
}

impl TaskType {
    /// Reads a task type from its name, as it stands on the wire.
    pub fn from_name(name: &str) -> (r: Result<TaskType, TaskError>)
        ensures
            match r {
                Ok(t) => task_type_name(t) == name@,
                Err(e) => e == TaskError::UnknownTaskVariant && (forall|t: TaskType|
                    task_type_name(t) != name@),
            },
    {
        proof {
            reveal_strlit("Function");
            reveal_strlit("Script");
            reveal_strlit("Subscription");
            assert("Function"@ =~= task_type_name(TaskType::Function));
            assert("Script"@ =~= task_type_name(TaskType::Script));
            assert("Subscription"@ =~= task_type_name(TaskType::Subscription));
        }
        if str_eq(name, "Function") {
            Ok(TaskType::Function)
        } else if str_eq(name, "Script") {
            Ok(TaskType::Script)
        } else if str_eq(name, "Subscription") {
            Ok(TaskType::Subscription)
        } else {
            Err(TaskError::UnknownTaskVariant)
        }
    }
}

impl TaskPayload {
    /// The task kind of this payload.
    pub fn task_type(&self) -> (r: TaskType)
        ensures
            r == type_of_payload(*self),
    {
        match self {
            TaskPayload::Function(_) => TaskType::Function,
            TaskPayload::Script(_) => TaskType::Script,
            TaskPayload::Subscription(_) => TaskType::Subscription,
        }
    }
}

} // verus!
