//! The resources of a `forjar.yaml`, and the order in which they depend on each
//! other.
use indexmap::IndexMap;
use vstd::prelude::*;

use crate::dag::{Dag, DagError};
use crate::digraph::{positions, topo_result, NodeIndex};
use crate::local::{named_edges, named_nodes, pair_texts};
use crate::spec::{
    connected, dependencies, handle, ids, lemma_dependency_places, lemma_has_last_place,
    lemma_linked_edges, lemma_linked_exactly, link, linked, place_tasks,
    task_dependencies, task_views, tasks_come_after_dependencies, texts,
    unknown_dependency_message, unknown_dependency_text, wanted_edges, SpecError, SpecErrorView,
    TaskSpec, TaskSpecView,
};
use crate::topology::{acyclic_graph_has_insertion_order, insertion_order, is_topological_order};

verus! {

#[verifier::external_type_specification]
#[verifier::external_body]
#[verifier::reject_recursive_types(K)]
#[verifier::reject_recursive_types(V)]
#[verifier::reject_recursive_types(S)]
pub struct ExIndexMap<K, V, S>(IndexMap<K, V, S>);

/// One resource.
#[derive(Debug)]
pub struct ForjarResource {
    /// The resources that this one comes after.
    pub depends_on: Vec<String>,
    /// What kind of resource it is, such as a file or a package.
    pub resource_type: Option<String>,
}

/// What a [`ForjarResource`] says.
pub struct ForjarResourceView {
    pub depends_on: Seq<Seq<char>>,
    pub resource_type: Option<Seq<char>>,
}

impl View for ForjarResource {
    type V = ForjarResourceView;

    open spec fn view(&self) -> ForjarResourceView {
        ForjarResourceView {
            depends_on: texts(self.depends_on@),
            resource_type: match self.resource_type {
                Some(kind) => Some(kind@),
                None => None,
            },
        }
    }
}

/// What a resource says is what it holds.
pub proof fn resource_says_what_it_holds(resource: ForjarResource, d: int)
    ensures
        resource@.depends_on.len() == resource.depends_on@.len(),
        0 <= d < resource.depends_on@.len() ==> resource@.depends_on[d]
            == resource.depends_on@[d]@,
        resource.resource_type is None ==> resource@.resource_type is None,
        resource.resource_type matches Some(kind) ==> resource@.resource_type == Some(kind@),
{
}

/// The entries of an `indexmap::IndexMap`, in their order.
pub uninterp spec fn map_entries(map: IndexMap<String, ForjarResource>) -> Seq<
    (Seq<char>, ForjarResourceView),
>;

/// An entry has the key.
pub open spec fn has_key(entries: Seq<(Seq<char>, ForjarResourceView)>, key: Seq<char>) -> bool {
    exists|k: int| 0 <= k < entries.len() && (#[trigger] entries[k]).0 == key
}

/// The entries with `value` for `key`: in the place of the one that has the key,
/// or at the end.
pub open spec fn with_entry(
    entries: Seq<(Seq<char>, ForjarResourceView)>,
    key: Seq<char>,
    value: ForjarResourceView,
) -> Seq<(Seq<char>, ForjarResourceView)> {
    if has_key(entries, key) {
        entries.map_values(
            |entry: (Seq<char>, ForjarResourceView)|
                if entry.0 == key {
                    (key, value)
                } else {
                    entry
                },
        )
    } else {
        entries.push((key, value))
    }
}

/// `indexmap::IndexMap::new`: no entries.
#[verifier::external_body]
fn new_map() -> (map: IndexMap<String, ForjarResource>)
    ensures
        map_entries(map).len() == 0,
{
    IndexMap::new()
}

/// `indexmap::IndexMap::insert`: the value takes the place of the one that the
/// key had, or key and value come last.
#[verifier::external_body]
fn map_insert(map: &mut IndexMap<String, ForjarResource>, key: String, value: ForjarResource)
    ensures
        map_entries(*final(map)) == with_entry(map_entries(*old(map)), key@, value@),
{
    map.insert(key, value);
}

/// `indexmap::IndexMap::len`: the number of entries.
#[verifier::external_body]
fn map_len(map: &IndexMap<String, ForjarResource>) -> (count: usize)
    ensures
        count == map_entries(*map).len(),
{
    map.len()
}

/// `indexmap::IndexMap::get_index`: the entry at a place.
#[verifier::external_body]
fn map_get_index(map: &IndexMap<String, ForjarResource>, place: usize) -> (entry: Option<
    (&String, &ForjarResource),
>)
    ensures
        match entry {
            Some((key, value)) => {
                &&& place < map_entries(*map).len()
                &&& map_entries(*map)[place as int] == (key@, value@)
            },
            None => place >= map_entries(*map).len(),
        },
{
    map.get_index(place)
}

/// `indexmap::IndexMap::get`: the value of the entry that has the key, if there
/// is one.
#[verifier::external_body]
fn map_get<'a>(map: &'a IndexMap<String, ForjarResource>, key: &str) -> (value: Option<
    &'a ForjarResource,
>)
    ensures
        match value {
            Some(value) => map_entries(*map).contains((key@, value@)),
            None => !has_key(map_entries(*map), key@),
        },
{
    map.get(key)
}

/// The resources of a `forjar.yaml` by their ids, in the order in which they are
/// written.
#[derive(Debug)]
pub struct ForjarYaml {
    resources: IndexMap<String, ForjarResource>,
}

impl View for ForjarYaml {
    type V = Seq<(Seq<char>, ForjarResourceView)>;

    closed spec fn view(&self) -> Seq<(Seq<char>, ForjarResourceView)> {
        map_entries(self.resources)
    }
}

/// The ids of resources.
pub open spec fn resource_ids(entries: Seq<(Seq<char>, ForjarResourceView)>) -> Seq<Seq<char>> {
    entries.map_values(|entry: (Seq<char>, ForjarResourceView)| entry.0)
}

/// The resources as tasks.
pub open spec fn resource_tasks(entries: Seq<(Seq<char>, ForjarResourceView)>) -> Seq<
    TaskSpecView,
> {
    entries.map_values(
        |entry: (Seq<char>, ForjarResourceView)|
            TaskSpecView { id: entry.0, depends_on: entry.1.depends_on },
    )
}

/// For each dependency, resource by resource, the id that is depended on and
/// that of the resource that depends.
pub open spec fn dependency_pairs(tasks: Seq<TaskSpecView>) -> Seq<(Seq<char>, Seq<char>)> {
    dependencies(tasks).map_values(
        |dependency: (int, Seq<char>)| (dependency.1, tasks[dependency.0].id),
    )
}

/// The ids of tasks in a topological order, or why there is none.
pub open spec fn ordered_ids(tasks: Seq<TaskSpecView>) -> Result<Seq<Seq<char>>, SpecErrorView> {
    match linked(ids(tasks), dependencies(tasks)) {
        Err(error) => Err(error),
        Ok(edges) => match topo_result(tasks.len(), edges) {
            Ok(order) => Ok(named_nodes(order, ids(tasks))),
            Err(node) => Err(SpecErrorView::Cyclic(DagError::Cycle(handle(node)))),
        },
    }
}

impl ForjarYaml {
    /// No two resources have the same id.
    pub open spec fn wf(self) -> bool {
        resource_ids(self@).no_duplicates()
    }

    /// The resources and their dependencies are no more than a DAG can hold.
    pub open spec fn fits(self) -> bool {
        &&& self@.len() <= u32::MAX
        &&& dependencies(resource_tasks(self@)).len() <= u32::MAX
    }

    /// No resources.
    pub fn new() -> (yaml: Self)
        ensures
            yaml.wf(),
            yaml@.len() == 0,
    {
        ForjarYaml { resources: new_map() }
    }

    /// Adds a resource; where the id is taken, it takes the place of the one that
    /// has it.
    pub fn insert(&mut self, id: String, resource: ForjarResource)
        requires
            old(self).wf(),
        ensures
            final(self).wf(),
            final(self)@ == with_entry(old(self)@, id@, resource@),
    {
        let ghost before = self@;
        let ghost key = id@;
        let ghost value = resource@;
        map_insert(&mut self.resources, id, resource);
        proof {
            let after = self@;
            let old_ids = resource_ids(before);
            let new_ids = resource_ids(after);
            if has_key(before, key) {
                assert(new_ids =~= old_ids);
            } else {
                assert(new_ids =~= old_ids.push(key));
                assert forall|i: int, j: int|
                    0 <= i < new_ids.len() && 0 <= j < new_ids.len() && i != j implies new_ids[i]
                    != new_ids[j] by {
                    if i < before.len() {
                        assert(before[i].0 != key && old_ids[i] == before[i].0);
                    }
                    if j < before.len() {
                        assert(before[j].0 != key && old_ids[j] == before[j].0);
                    }
                }
            }
        }
    }

    /// The number of resources.
    pub fn len(&self) -> (count: usize)
        ensures
            count == self@.len(),
    {
        map_len(&self.resources)
    }

    /// The resource that has the id, if there is one.
    pub fn get(&self, id: &str) -> (resource: Option<&ForjarResource>)
        ensures
            match resource {
                Some(resource) => self@.contains((id@, resource@)),
                None => !has_key(self@, id@),
            },
    {
        map_get(&self.resources, id)
    }

    /// The ids of the resources, in their order.
    pub fn task_ids(&self) -> (found: Vec<String>)
        ensures
            texts(found@) == resource_ids(self@),
            found@.len() == self@.len(),
            forall|k: int| 0 <= k < found@.len() ==> (#[trigger] found@[k])@ == self@[k].0,
    {
        let count: usize = self.len();
        let mut found: Vec<String> = Vec::new();
        for k in 0..count
            invariant
                count == self@.len(),
                found@.len() == k,
                forall|j: int| 0 <= j < k ==> (#[trigger] found@[j])@ == self@[j].0,
        {
            if let Some((id, _)) = map_get_index(&self.resources, k) {
                found.push(id.clone());
            }
        }
        assert(texts(found@) =~= resource_ids(self@));
        found
    }

    /// The resources as tasks.
    fn tasks(&self) -> (tasks: Vec<TaskSpec>)
        ensures
            task_views(tasks@) == resource_tasks(self@),
    {
        let count: usize = self.len();
        let mut tasks: Vec<TaskSpec> = Vec::new();
        for k in 0..count
            invariant
                count == self@.len(),
                tasks@.len() == k,
                forall|j: int| 0 <= j < k ==> (#[trigger] tasks@[j])@ == resource_tasks(self@)[j],
        {
            if let Some((id, resource)) = map_get_index(&self.resources, k) {
                let depends_on = resource.depends_on.clone();
                assert(texts(depends_on@) =~= texts(resource.depends_on@));
                tasks.push(TaskSpec { id: id.clone(), depends_on });
            }
        }
        assert(task_views(tasks@) =~= resource_tasks(self@));
        tasks
    }

    /// For each dependency, resource by resource, the id that is depended on and
    /// that of the resource that depends.
    pub fn edge_pairs(&self) -> (pairs: Vec<(String, String)>)
        ensures
            pair_texts(pairs@) == dependency_pairs(resource_tasks(self@)),
            pair_texts(pairs@) == Seq::new(
                self@.len(),
                |t: int|
                    Seq::new(
                        self@[t].1.depends_on.len(),
                        |d: int| (self@[t].1.depends_on[d], self@[t].0),
                    ),
            ).flatten(),
            pairs@.len() == dependency_pairs(resource_tasks(self@)).len(),
            forall|k: int|
                0 <= k < pairs@.len() ==> dependency_pairs(resource_tasks(self@))[k] == (
                    (#[trigger] pairs@[k]).0@,
                    pairs@[k].1@,
                ),
    {
        let ghost views = resource_tasks(self@);
        let tasks = self.tasks();
        let mut pairs: Vec<(String, String)> = Vec::new();
        assert(pair_texts(pairs@) =~= dependency_pairs(views.take(0)));
        for t in 0..tasks.len()
            invariant
                views == task_views(tasks@),
                pair_texts(pairs@) == dependency_pairs(views.take(t as int)),
        {
            let task = &tasks[t];
            let ghost done = pairs@;
            for d in 0..task.depends_on.len()
                invariant
                    *task == tasks@[t as int],
                    pairs@.len() == done.len() + d,
                    forall|j: int| 0 <= j < done.len() ==> #[trigger] pairs@[j] == done[j],
                    forall|j: int|
                        done.len() <= j < pairs@.len() ==> (
                            (#[trigger] pairs@[j]).0@,
                            pairs@[j].1@,
                        ) == (task.depends_on@[j - done.len()]@, task.id@),
            {
                pairs.push((task.depends_on[d].clone(), task.id.clone()));
            }
            proof {
                let front = views.take(t as int);
                let more = views.take(t + 1);
                assert(more.drop_last() =~= front);
                lemma_dependency_places(front);
                assert(dependencies(more) == dependencies(front) + task_dependencies(
                    t as int,
                    more.last().depends_on,
                ));
                assert(pair_texts(done).len() == dependencies(front).len());
                assert forall|j: int| 0 <= j < pairs@.len() implies #[trigger] pair_texts(
                    pairs@,
                )[j] == dependency_pairs(more)[j] by {
                    if j < done.len() {
                        assert(pair_texts(pairs@)[j] == pair_texts(done)[j]);
                        assert(pair_texts(done)[j] == dependency_pairs(front)[j]);
                        assert(dependencies(more)[j] == dependencies(front)[j]);
                    }
                }
                assert(pair_texts(pairs@) =~= dependency_pairs(more));
            }
        }
        proof {
            assert(views.take(views.len() as int) =~= views);
            pairs_come_task_by_task(views);
            let lists = Seq::new(
                self@.len(),
                |t: int|
                    Seq::new(
                        self@[t].1.depends_on.len(),
                        |d: int| (self@[t].1.depends_on[d], self@[t].0),
                    ),
            );
            let others = Seq::new(
                views.len(),
                |t: int|
                    Seq::new(
                        views[t].depends_on.len(),
                        |d: int| (views[t].depends_on[d], views[t].id),
                    ),
            );
            assert forall|t: int| 0 <= t < lists.len() implies #[trigger] lists[t] == others[t] by {
                assert(lists[t] =~= others[t]);
            }
            assert(lists =~= others);
        }
        pairs
    }
}

/// A resource is a task with its id and its dependencies.
pub proof fn resources_are_tasks(entries: Seq<(Seq<char>, ForjarResourceView)>, k: int)
    requires
        0 <= k < entries.len(),
    ensures
        resource_tasks(entries).len() == entries.len(),
        resource_tasks(entries)[k].id == entries[k].0,
        resource_tasks(entries)[k].depends_on == entries[k].1.depends_on,
        resource_ids(entries).len() == entries.len(),
        resource_ids(entries)[k] == entries[k].0,
{
}

/// The pairs come task by task: for each dependency its name and the id of the
/// task.
pub proof fn pairs_come_task_by_task(tasks: Seq<TaskSpecView>)
    ensures
        dependency_pairs(tasks) == Seq::new(
            tasks.len(),
            |t: int|
                Seq::new(tasks[t].depends_on.len(), |d: int| (tasks[t].depends_on[d], tasks[t].id)),
        ).flatten(),
    decreases tasks.len(),
{
    let lists = Seq::new(
        tasks.len(),
        |t: int|
            Seq::new(tasks[t].depends_on.len(), |d: int| (tasks[t].depends_on[d], tasks[t].id)),
    );
    lists.lemma_flatten_and_flatten_alt_are_equivalent();
    if tasks.len() > 0 {
        let front = tasks.drop_last();
        let before = Seq::new(
            front.len(),
            |t: int|
                Seq::new(front[t].depends_on.len(), |d: int| (front[t].depends_on[d], front[t].id)),
        );
        pairs_come_task_by_task(front);
        before.lemma_flatten_and_flatten_alt_are_equivalent();
        assert forall|t: int| 0 <= t < front.len() implies #[trigger] lists.drop_last()[t]
            == before[t] by {
            assert(lists.drop_last()[t] =~= before[t]);
        }
        assert(lists.drop_last() =~= before);
        lemma_dependency_places(front);
        let done = dependencies(front);
        assert forall|k: int| 0 <= k < dependency_pairs(tasks).len() implies #[trigger]
        dependency_pairs(tasks)[k] == (dependency_pairs(front) + lists.last())[k] by {
            if k < done.len() {
                assert(dependencies(tasks)[k] == done[k]);
                assert(tasks[done[k].0] == front[done[k].0]);
            }
        }
        assert(dependency_pairs(tasks) =~= dependency_pairs(front) + lists.last());
    } else {
        assert(dependency_pairs(tasks) =~= Seq::empty());
    }
}

/// The same names occur in both.
pub open spec fn same_names(a: Seq<Seq<char>>, b: Seq<Seq<char>>) -> bool {
    forall|name: Seq<char>| #[trigger] a.contains(name) <==> b.contains(name)
}

proof fn lemma_order_keeps_names(
    names: Seq<Seq<char>>,
    edges: Seq<(int, int)>,
    order: Seq<int>,
)
    requires
        is_topological_order(names.len(), edges, order),
    ensures
        same_names(named_nodes(order, names), names),
{
    let along = named_nodes(order, names);
    assert forall|name: Seq<char>| #[trigger] along.contains(name) <==> names.contains(name) by {
        if along.contains(name) {
            let k = along.index_of(name);
            assert(names[order[k]] == name);
        }
        if names.contains(name) {
            let node = names.index_of(name);
            assert(order.contains(node));
            assert(along[order.index_of(node)] == name);
        }
    }
}

/// The names of the nodes in a topological order.
pub fn names_along(dag: &Dag<String>, order: &Vec<NodeIndex>) -> (names: Vec<String>)
    requires
        dag.wf(),
        is_topological_order(dag@.payloads.len(), dag@.edges, positions(order@)),
    ensures
        texts(names@) == named_nodes(positions(order@), texts(dag@.payloads)),
        names@.len() == order@.len(),
        forall|k: int|
            0 <= k < order@.len() ==> (#[trigger] names@[k])@ == dag@.payloads[order@[k].0 as int]@,
{
    assert forall|k: int| 0 <= k < order@.len() implies dag@.has_node(#[trigger] order@[k]) by {
        assert(positions(order@)[k] == order@[k].position());
    }
    let payloads = dag.payloads(order.as_slice());
    let mut names: Vec<String> = Vec::new();
    for k in 0..payloads.len()
        invariant
            names@.len() == k,
            forall|j: int| 0 <= j < k ==> #[trigger] names@[j] == *payloads@[j],
    {
        names.push(payloads[k].clone());
    }
    assert(texts(names@) =~= named_nodes(positions(order@), texts(dag@.payloads)));
    names
}

/// The ids of the resources in a topological order, or why there is none.
#[verifier::spinoff_prover]
#[verifier::rlimit(40)]
pub fn topo_order_from_resources(yaml: &ForjarYaml) -> (order: Result<Vec<String>, SpecError>)
    requires
        yaml.wf(),
        yaml.fits(),
    ensures
        order is Ok <==> connected(resource_tasks(yaml@)) is Ok,
        match order {
            Ok(order) => ordered_ids(resource_tasks(yaml@)) == Ok::<Seq<Seq<char>>, SpecErrorView>(
                texts(order@),
            ),
            Err(error) => ordered_ids(resource_tasks(yaml@)) == Err::<
                Seq<Seq<char>>,
                SpecErrorView,
            >(error@),
        },
        order matches Ok(order) ==> same_names(texts(order@), resource_ids(yaml@)),
{
    let ghost views = resource_tasks(yaml@);
    let ghost names = ids(views);
    let tasks = yaml.tasks();
    let (dag, places) = place_tasks(&tasks);
    let mut dag = dag;
    match link(&mut dag, &tasks, &places) {
        Ok(()) => {},
        Err(error) => {
            return Err(error);
        },
    }
    let ghost edges = dag@.edges;
    assert(texts(dag@.payloads) =~= names);
    match dag.topo_sort() {
        Ok(order) => {
            proof {
                lemma_order_keeps_names(names, edges, positions(order@));
                assert(names =~= resource_ids(yaml@));
            }
            Ok(names_along(&dag, &order))
        },
        Err(error) => {
            assert(error == DagError::Cycle(handle(topo_result(names.len(), edges)->Err_0)));
            Err(SpecError::Cyclic(error))
        },
    }
}

/// The message for people where the resources have no order.
pub open spec fn order_failure(error: SpecErrorView) -> Seq<char> {
    match error {
        SpecErrorView::DuplicateTask { id } => error.text(""@),
        SpecErrorView::UnknownDependency { task, dependency } => unknown_dependency_text(
            "forjar.yaml: "@,
            task,
            dependency,
        ),
        SpecErrorView::RefusedEdge { task, dependency, error } => {
            "ForjarRunner: failed to add edge "@ + dependency + " -> "@ + task
        },
        SpecErrorView::Cyclic(error) => "ForjarRunner: topo_sort failed"@,
    }
}

/// The messages where the resources have no order, word for word.
pub proof fn order_failures_in_full(error: SpecErrorView)
    ensures
        order_failure(error) == match error {
            SpecErrorView::DuplicateTask { id } => "duplicate task id: "@ + id,
            SpecErrorView::UnknownDependency { task, dependency } => "forjar.yaml: '"@ + task
                + "' depends on unknown '"@ + dependency + "'"@,
            SpecErrorView::RefusedEdge { task, dependency, .. } => {
                "ForjarRunner: failed to add edge "@ + dependency + " -> "@ + task
            },
            SpecErrorView::Cyclic(_) => "ForjarRunner: topo_sort failed"@,
        },
{
    reveal_strlit("forjar.yaml: ");
    reveal_strlit("'");
    reveal_strlit("forjar.yaml: '");
    assert("forjar.yaml: "@ + "'"@ =~= "forjar.yaml: '"@);
}

/// Writes the message for people where the resources have no order.
pub fn order_failure_message(error: &SpecError) -> (text: String)
    ensures
        text@ == order_failure(error@),
        match *error {
            SpecError::DuplicateTask { id } => text@ == "duplicate task id: "@ + id@,
            SpecError::UnknownDependency { task, dependency } => text@ == "forjar.yaml: '"@ + task@
                + "' depends on unknown '"@ + dependency@ + "'"@,
            SpecError::RefusedEdge { task, dependency, .. } => text@
                == "ForjarRunner: failed to add edge "@ + dependency@ + " -> "@ + task@,
            SpecError::Cyclic(_) => text@ == "ForjarRunner: topo_sort failed"@,
        },
{
    proof {
        order_failures_in_full(error@);
    }
    match error {
        SpecError::DuplicateTask { .. } => error.runnable_message(),
        SpecError::UnknownDependency { task, dependency } => unknown_dependency_message(
            "forjar.yaml: ",
            task.as_str(),
            dependency.as_str(),
        ),
        SpecError::RefusedEdge { task, dependency, .. } => {
            let mut text = "ForjarRunner: failed to add edge ".to_owned();
            text.append(dependency.as_str());
            text.append(" -> ");
            text.append(task.as_str());
            text
        },
        SpecError::Cyclic(_) => "ForjarRunner: topo_sort failed".to_owned(),
    }
}

/// Where the ids of tasks are put in order, each comes after those that its task
/// depends on.
pub proof fn ordered_ids_follow_dependencies(
    tasks: Seq<TaskSpecView>,
    order: Seq<Seq<char>>,
    task: int,
    k: int,
    i: int,
    j: int,
)
    requires
        ids(tasks).no_duplicates(),
        ordered_ids(tasks) == Ok::<Seq<Seq<char>>, SpecErrorView>(order),
        0 <= task < tasks.len(),
        0 <= k < tasks[task].depends_on.len(),
        0 <= i < order.len(),
        0 <= j < order.len(),
        order[i] == tasks[task].depends_on[k],
        order[j] == tasks[task].id,
    ensures
        i < j,
{
    let names = ids(tasks);
    let edges = linked(names, dependencies(tasks))->Ok_0;
    let nodes = insertion_order(tasks.len(), edges);
    lemma_dependency_places(tasks);
    lemma_linked_edges(names, dependencies(tasks));
    acyclic_graph_has_insertion_order(tasks.len(), edges);
    assert(order == named_nodes(nodes, names));
    assert(names[nodes[j]] == names[task]);
    assert(names[nodes[i]] == tasks[nodes[i]].id);
    tasks_come_after_dependencies(tasks, nodes, task, k, i, j);
}

/// Tasks that give no DAG have no order, for the same reason.
pub proof fn no_dag_no_order(tasks: Seq<TaskSpecView>)
    ensures
        connected(tasks) matches Err(error) ==> ordered_ids(tasks) == Err::<
            Seq<Seq<char>>,
            SpecErrorView,
        >(error),
{
}

/// The edges recorded for resources are those that a local run of the same tasks
/// records, and both take the tasks in the same order.
pub proof fn runners_agree(tasks: Seq<TaskSpecView>)
    requires
        connected(tasks) is Ok,
    ensures
        dependency_pairs(tasks) == named_edges(connected(tasks)->Ok_0, ids(tasks)),
        ordered_ids(tasks) == Ok::<Seq<Seq<char>>, SpecErrorView>(
            named_nodes(insertion_order(tasks.len(), connected(tasks)->Ok_0), ids(tasks)),
        ),
{
    let names = ids(tasks);
    let wanted = dependencies(tasks);
    let edges = connected(tasks)->Ok_0;
    lemma_linked_exactly(names, wanted);
    lemma_dependency_places(tasks);
    assert forall|k: int| 0 <= k < wanted.len() implies #[trigger] dependency_pairs(tasks)[k]
        == named_edges(edges, names)[k] by {
        let (place, dependency) = wanted[k];
        assert(edges[k] == wanted_edges(names, wanted)[k]);
        assert(names.contains(wanted[k].1));
        assert(names[place] == tasks[place].id);
        assert(names.contains(names[place]));
        lemma_has_last_place(names, dependency);
        lemma_has_last_place(names, names[place]);
    }
    assert(dependency_pairs(tasks) =~= named_edges(edges, names));
}

} // verus!
