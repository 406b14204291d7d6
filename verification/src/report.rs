//! What a run of a DAG leaves behind.
use vstd::prelude::*;

use crate::json::Json;
use crate::ordered::OrderedMap;
use crate::spec::texts;
use crate::state::TaskState;

verus! {

/// Result of a DAG run.
#[derive(Debug, PartialEq, Eq)]
pub struct RunReport {
    pub run_id: String,
    /// Final state per task id.
    pub task_states: OrderedMap<TaskState>,
    /// JSON output per task id.
    pub task_outputs: OrderedMap<Json>,
    /// Task ids in the order in which the runner took them.
    pub topo_order: Vec<String>,
}

/// What the values of a map say.
pub open spec fn json_texts(map: Map<Seq<char>, Json>) -> Map<Seq<char>, Seq<char>> {
    map.map_values(|json: Json| json@)
}

pub(crate) proof fn lemma_json_texts_grow(before: Map<Seq<char>, Json>, key: Seq<char>, json: Json)
    ensures
        json_texts(before.insert(key, json)) == json_texts(before).insert(key, json@),
{
    assert(json_texts(before.insert(key, json)) =~= json_texts(before).insert(key, json@));
}

/// What a [`RunReport`] says.
pub struct ReportView {
    pub run_id: Seq<char>,
    pub task_states: Map<Seq<char>, TaskState>,
    pub task_outputs: Map<Seq<char>, Seq<char>>,
    pub topo_order: Seq<Seq<char>>,
}

impl View for RunReport {
    type V = ReportView;

    open spec fn view(&self) -> ReportView {
        ReportView {
            run_id: self.run_id@,
            task_states: self.task_states@,
            task_outputs: json_texts(self.task_outputs@),
            topo_order: texts(self.topo_order@),
        }
    }
}

/// What a report says is what it holds.
pub proof fn report_says_what_it_holds(report: RunReport, id: Seq<char>, k: int)
    ensures
        report@.run_id == report.run_id@,
        report@.task_states == report.task_states@,
        report@.task_outputs.contains_key(id) <==> report.task_outputs@.contains_key(id),
        report.task_outputs@.contains_key(id) ==> report@.task_outputs[id]
            == report.task_outputs@[id]@,
        report@.topo_order.len() == report.topo_order@.len(),
        0 <= k < report.topo_order@.len() ==> report@.topo_order[k] == report.topo_order@[k]@,
{
}

/// Every task succeeded.
pub open spec fn every_task_succeeded(states: Map<Seq<char>, TaskState>) -> bool {
    forall|id: Seq<char>| #[trigger] states.contains_key(id) ==> states[id] is Succeeded
}

/// The outputs of the tasks in `order`, without those that have none.
pub open spec fn outputs_along(order: Seq<Seq<char>>, outputs: Map<Seq<char>, Json>) -> Seq<Json>
    decreases order.len(),
{
    if order.len() == 0 {
        Seq::empty()
    } else {
        let front = outputs_along(order.drop_last(), outputs);
        if outputs.contains_key(order.last()) {
            front.push(outputs[order.last()])
        } else {
            front
        }
    }
}

/// The outputs along an order are those of the tasks that have one, in that
/// order.
pub proof fn outputs_along_keep_the_order(order: Seq<Seq<char>>, outputs: Map<Seq<char>, Json>)
    ensures
        outputs_along(order, outputs) == order.filter(
            |id: Seq<char>| outputs.contains_key(id),
        ).map_values(|id: Seq<char>| outputs[id]),
    decreases order.len(),
{
    reveal(Seq::filter);
    let has = |id: Seq<char>| outputs.contains_key(id);
    let value = |id: Seq<char>| outputs[id];
    if order.len() > 0 {
        let front = order.drop_last();
        outputs_along_keep_the_order(front, outputs);
        if has(order.last()) {
            assert(order.filter(has) == front.filter(has).push(order.last()));
            assert(order.filter(has).map_values(value) =~= front.filter(has).map_values(value).push(
                outputs[order.last()],
            ));
        }
    } else {
        assert(order.filter(has).map_values(value) =~= Seq::empty());
    }
}

impl Clone for RunReport {
    fn clone(&self) -> (copy: Self)
        ensures
            copy@ == self@,
            copy.run_id == self.run_id,
            copy.task_states@ == self.task_states@,
            copy.task_outputs@ == self.task_outputs@,
            texts(copy.topo_order@) == texts(self.topo_order@),
            self.wf() ==> copy.wf(),
    {
        let copy = RunReport {
            run_id: self.run_id.clone(),
            task_states: self.task_states.clone(),
            task_outputs: self.task_outputs.clone(),
            topo_order: self.topo_order.clone(),
        };
        proof {
            self.task_states.keys_are_the_domain();
            copy.task_states.keys_are_the_domain();
            self.task_outputs.keys_are_the_domain();
            copy.task_outputs.keys_are_the_domain();
            assert(copy.task_states@ =~= self.task_states@);
            assert(copy.task_outputs@ =~= self.task_outputs@);
            assert(texts(copy.topo_order@) =~= texts(self.topo_order@));
        }
        copy
    }
}

impl RunReport {
    /// What every report keeps.
    pub open spec fn wf(self) -> bool {
        self.task_states.wf() && self.task_outputs.wf()
    }

    /// Whether every task succeeded.
    pub fn all_succeeded(&self) -> (all: bool)
        requires
            self.wf(),
        ensures
            all == every_task_succeeded(self.task_states@),
            all == forall|id: Seq<char>| #[trigger]
                self.task_states@.contains_key(id) ==> self.task_states@[id] is Succeeded,
    {
        proof {
            self.task_states.keys_are_the_domain();
        }
        let ghost keys = self.task_states.keys();
        let count: usize = self.task_states.len();
        for k in 0..count
            invariant
                self.wf(),
                keys == self.task_states.keys(),
                count == keys.len(),
                forall|id: Seq<char>| #[trigger]
                    self.task_states@.contains_key(id) <==> keys.contains(id),
                forall|j: int| 0 <= j < k ==> self.task_states@[#[trigger] keys[j]] is Succeeded,
        {
            let (id, state) = self.task_states.entry(k);
            match state {
                TaskState::Succeeded => {},
                _ => {
                    assert(self.task_states@.contains_key(id@));
                    return false;
                },
            }
        }
        proof {
            assert forall|id: Seq<char>| #[trigger]
                self.task_states@.contains_key(id) implies self.task_states@[id] is Succeeded by {
                assert(keys[keys.index_of(id)] == id);
            }
        }
        true
    }

    /// The outputs in the order in which the runner took the tasks; a task
    /// without output is left out.
    pub fn outputs_in_order(&self) -> (outputs: Vec<&Json>)
        requires
            self.wf(),
        ensures
            outputs@.map_values(|json: &Json| *json) == outputs_along(
                texts(self.topo_order@),
                self.task_outputs@,
            ),
            outputs@.map_values(|json: &Json| *json) == texts(self.topo_order@).filter(
                |id: Seq<char>| self.task_outputs@.contains_key(id),
            ).map_values(|id: Seq<char>| self.task_outputs@[id]),
    {
        let ghost order = texts(self.topo_order@);
        let mut outputs: Vec<&Json> = Vec::new();
        assert(outputs@.map_values(|json: &Json| *json) =~= outputs_along(
            order.take(0),
            self.task_outputs@,
        ));
        for k in 0..self.topo_order.len()
            invariant
                self.wf(),
                order == texts(self.topo_order@),
                outputs@.map_values(|json: &Json| *json) == outputs_along(
                    order.take(k as int),
                    self.task_outputs@,
                ),
        {
            let ghost before = outputs@;
            proof {
                assert(order.take(k + 1).drop_last() =~= order.take(k as int));
                assert(order[k as int] == self.topo_order@[k as int]@);
            }
            if let Some(json) = self.task_outputs.get(self.topo_order[k].as_str()) {
                outputs.push(json);
                assert(outputs@.map_values(|json: &Json| *json) =~= before.map_values(
                    |json: &Json| *json,
                ).push(*json));
            }
        }
        proof {
            assert(order.take(order.len() as int) =~= order);
            outputs_along_keep_the_order(order, self.task_outputs@);
        }
        outputs
    }
}

} // verus!
