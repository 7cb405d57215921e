use vstd::prelude::*;
use std::collections::HashMap;

verus! {

broadcast use vstd::std_specs::hash::group_hash_axioms;

/// One piece of a text message, addressed by application and task.
#[derive(Debug)]
pub struct MessageChunk {
    pub app_id: u64,
    pub task_id: u64,
    pub sequence: u64,
    pub data: String,
    pub is_last: bool,
}

/// Text messages being put together, per application and then per task.
pub struct MessageAccumulator {
    messages: HashMap<u64, HashMap<u64, String>>,
}

/// The tasks of one application, with their text so far.
pub open spec fn task_texts(m: Map<u64, HashMap<u64, String>>, app_id: u64) -> Map<u64, Seq<char>> {
    if m.contains_key(app_id) {
        m[app_id]@.map_values(|s: String| s@)
    } else {
        Map::empty()
    }
}

/// The text gathered so far under `(app_id, task_id)`; empty where none is.
pub open spec fn text_so_far(
    v: Map<u64, Map<u64, Seq<char>>>,
    app_id: u64,
    task_id: u64,
) -> Seq<char> {
    if v.contains_key(app_id) && v[app_id].contains_key(task_id) {
        v[app_id][task_id]
    } else {
        Seq::<char>::empty()
    }
}

/// The tasks of one application; none where the application is unknown.
pub open spec fn tasks_of(v: Map<u64, Map<u64, Seq<char>>>, app_id: u64) -> Map<u64, Seq<char>> {
    if v.contains_key(app_id) {
        v[app_id]
    } else {
        Map::empty()
    }
}

impl MessageAccumulator {
    pub closed spec fn view(&self) -> Map<u64, Map<u64, Seq<char>>> {
        Map::new(
            |a: u64| self.messages@.contains_key(a),
            |a: u64| task_texts(self.messages@, a),
        )
    }

    /// An accumulator holding nothing.
    pub fn new() -> (r: MessageAccumulator)
        ensures
            r@ == Map::<u64, Map<u64, Seq<char>>>::empty(),
    {
        let r = MessageAccumulator { messages: HashMap::new() };
        assert(r@ =~= Map::<u64, Map<u64, Seq<char>>>::empty());
        r
    }

    /// Appends the chunk's text to its task's message. On the last chunk the
    /// whole message comes out and the task leaves the accumulator (its
    /// application stays, possibly with no task); otherwise nothing comes out.
    pub fn add_chunk(&mut self, chunk: MessageChunk) -> (r: Option<String>)
        ensures
            ({
                let text = text_so_far(old(self)@, chunk.app_id, chunk.task_id) + chunk.data@;
                let tasks = tasks_of(old(self)@, chunk.app_id);
                if chunk.is_last {
                    &&& r matches Some(s)
                    &&& s@ == text
                    &&& final(self)@ == old(self)@.insert(chunk.app_id, tasks.remove(chunk.task_id))
                } else {
                    &&& r is None
                    &&& final(self)@ == old(self)@.insert(
                        chunk.app_id,
                        tasks.insert(chunk.task_id, text),
                    )
                }
            }),
    {
        let ghost old_v = self@;
        let ghost old_m = self.messages@;
        let mut task_map = match self.messages.remove(&chunk.app_id) {
            Some(m) => m,
            None => HashMap::new(),
        };
        let ghost old_tasks = task_map@;
        assert(task_map@.map_values(|s: String| s@) =~= tasks_of(old_v, chunk.app_id));
        let mut message = match task_map.remove(&chunk.task_id) {
            Some(s) => s,
            None => String::new(),
        };
        assert(message@ == text_so_far(old_v, chunk.app_id, chunk.task_id));
        message.append(chunk.data.as_str());
        let r = if chunk.is_last {
            Some(message)
        } else {
            task_map.insert(chunk.task_id, message);
            None
        };
        self.messages.insert(chunk.app_id, task_map);
        proof {
            let tasks = tasks_of(old_v, chunk.app_id);
            if chunk.is_last {
                assert(task_map@.map_values(|s: String| s@) =~= tasks.remove(chunk.task_id));
                assert(self@ =~= old_v.insert(chunk.app_id, tasks.remove(chunk.task_id)));
            } else {
                let text = text_so_far(old_v, chunk.app_id, chunk.task_id) + chunk.data@;
                assert(task_map@.map_values(|s: String| s@) =~= tasks.insert(chunk.task_id, text));
                assert(self@ =~= old_v.insert(chunk.app_id, tasks.insert(chunk.task_id, text)));
            }
        }
        r
    }
}

} // verus!
