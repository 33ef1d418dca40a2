//! Which task a node gets that asks for one.
use crate::registry::NodeRegistry;
use crate::task_store::{InferenceTask, TaskStore};
use vstd::prelude::*;

verus! {

use crate::seqs::first_index;
use crate::task_store::{is_handout, queue_after, queue_fits, task_assigned};

/// The registered nodes and the tasks.
#[derive(Debug)]
pub struct TaskRouter<F> {
    pub registry: NodeRegistry,
    pub task_store: TaskStore<F>,
}

/// What a node that asks for work gets, and what becomes of the tasks.
pub open spec fn handed_out<F>(
    pre: TaskRouter<F>,
    node_id: Seq<char>,
    now: u64,
    r: Option<InferenceTask<F>>,
    post: TaskRouter<F>,
) -> bool {
    &&& post.registry == pre.registry
    &&& !pre.registry.nodes@.dom().contains(node_id) ==> r is None && post.task_store
        == pre.task_store
    &&& pre.registry.nodes@.dom().contains(node_id) ==> {
        let models = pre.registry.nodes@[node_id].capabilities.available_models@;
        let tasks = pre.task_store.tasks@;
        let queue = pre.task_store.pending_queue@;
        let k = first_index(queue, queue_fits(tasks, models));
        &&& post.task_store.pending_queue@ == queue_after(queue, tasks, models)
        &&& if k < queue.len() {
            let id = queue[k]@;
            &&& r is Some
            &&& is_handout(r->0, tasks[id])
            &&& post.task_store.tasks@ == tasks.insert(id, post.task_store.tasks@[id])
            &&& task_assigned(tasks[id], post.task_store.tasks@[id], node_id, now)
        } else {
            r is None && post.task_store.tasks@ == tasks
        }
    }
}

impl<F: Copy> TaskRouter<F> {
    /// A router over these nodes and tasks.
    pub fn new(registry: NodeRegistry, task_store: TaskStore<F>) -> (r: Self)
        ensures
            r.registry == registry,
            r.task_store == task_store,
    {
        TaskRouter { registry, task_store }
    }

    /// Hands the first waiting task for one of the node's models to the node; an unknown node
    /// gets none.
    pub fn assign_task_for_node(&mut self, node_id: &str, now: u64) -> (r: Option<
        InferenceTask<F>,
    >)
        requires
            old(self).task_store.wf(),
        ensures
            final(self).task_store.wf(),
            final(self).registry == old(self).registry,
            handed_out(*old(self), node_id@, now, r, *final(self)),
    {
        match self.registry.get_node(node_id) {
            None => None,
            Some(node) => self.task_store.assign_pending_task(
                node_id,
                &node.capabilities.available_models,
                now,
            ),
        }
    }
}

} // verus!
