//! Written-down DAGs: tasks with the names of the tasks they depend on.
use vstd::hash_map::StringHashMap;
use vstd::prelude::*;

use crate::dag::{Dag, DagError};
use crate::digraph::{topo_result, NodeIndex};
use crate::task::{EchoTask, TaskOutputView};
use crate::topology::{edges_in_range, is_acyclic, is_topological_order, is_walk, on_cycle};

verus! {

/// One task of a [`DagSpec`].
#[derive(Debug)]
pub struct TaskSpec {
    pub id: String,
    /// The tasks that this one comes after.
    pub depends_on: Vec<String>,
}

/// A DAG as it is written down: each task becomes a node, each entry of
/// `depends_on` an edge into it.
#[derive(Debug)]
pub struct DagSpec {
    /// Human-readable name.
    pub name: String,
    pub description: String,
    /// Tasks, in any order.
    pub tasks: Vec<TaskSpec>,
}

/// Why no DAG can be built.
#[derive(Debug)]
pub enum SpecError {
    /// Two tasks have the same id.
    DuplicateTask { id: String },
    /// A task depends on one that is not there.
    UnknownDependency { task: String, dependency: String },
    /// The edge for a dependency was refused.
    RefusedEdge { task: String, dependency: String, error: DagError },
    /// The tasks depend on each other in a circle.
    Cyclic(DagError),
}

/// What a [`TaskSpec`] says.
pub struct TaskSpecView {
    pub id: Seq<char>,
    pub depends_on: Seq<Seq<char>>,
}

/// What a [`SpecError`] says.
pub enum SpecErrorView {
    DuplicateTask { id: Seq<char> },
    UnknownDependency { task: Seq<char>, dependency: Seq<char> },
    RefusedEdge { task: Seq<char>, dependency: Seq<char>, error: DagError },
    Cyclic(DagError),
}

impl Clone for TaskSpec {
    fn clone(&self) -> (copy: Self)
        ensures
            copy@ == self@,
    {
        let depends_on = self.depends_on.clone();
        assert(texts(depends_on@) =~= texts(self.depends_on@));
        TaskSpec { id: self.id.clone(), depends_on }
    }
}

impl Clone for DagSpec {
    fn clone(&self) -> (copy: Self)
        ensures
            copy.name == self.name,
            copy.description == self.description,
            task_views(copy.tasks@) == task_views(self.tasks@),
    {
        let tasks = self.tasks.clone();
        assert(task_views(tasks@) =~= task_views(self.tasks@));
        DagSpec { name: self.name.clone(), description: self.description.clone(), tasks }
    }
}

impl View for TaskSpec {
    type V = TaskSpecView;

    open spec fn view(&self) -> TaskSpecView {
        TaskSpecView { id: self.id@, depends_on: texts(self.depends_on@) }
    }
}

impl View for SpecError {
    type V = SpecErrorView;

    open spec fn view(&self) -> SpecErrorView {
        match *self {
            SpecError::DuplicateTask { id } => SpecErrorView::DuplicateTask { id: id@ },
            SpecError::UnknownDependency { task, dependency } => SpecErrorView::UnknownDependency {
                task: task@,
                dependency: dependency@,
            },
            SpecError::RefusedEdge { task, dependency, error } => SpecErrorView::RefusedEdge {
                task: task@,
                dependency: dependency@,
                error,
            },
            SpecError::Cyclic(error) => SpecErrorView::Cyclic(error),
        }
    }
}

/// The message about a dependency that is not there; `prefix` stands before the
/// task.
pub open spec fn unknown_dependency_text(
    prefix: Seq<char>,
    task: Seq<char>,
    dependency: Seq<char>,
) -> Seq<char> {
    prefix + "'"@ + task + "' depends on unknown '"@ + dependency + "'"@
}

/// Writes the message about a dependency that is not there.
pub fn unknown_dependency_message(prefix: &str, task: &str, dependency: &str) -> (text: String)
    ensures
        text@ == unknown_dependency_text(prefix@, task@, dependency@),
        text@ == prefix@ + "'"@ + task@ + "' depends on unknown '"@ + dependency@ + "'"@,
{
    let mut text = prefix.to_owned();
    text.append("'");
    text.append(task);
    text.append("' depends on unknown '");
    text.append(dependency);
    text.append("'");
    text
}

impl SpecErrorView {
    /// The message for people; `prefix` stands before a task whose dependency is
    /// not there.
    pub open spec fn text(self, prefix: Seq<char>) -> Seq<char> {
        match self {
            SpecErrorView::DuplicateTask { id } => "duplicate task id: "@ + id,
            SpecErrorView::UnknownDependency { task, dependency } => unknown_dependency_text(
                prefix,
                task,
                dependency,
            ),
            SpecErrorView::RefusedEdge { task, dependency, error } => error.text(),
            SpecErrorView::Cyclic(error) => error.text(),
        }
    }
}

impl SpecError {
    /// The message for people where a specification is built.
    pub fn message(&self) -> (text: String)
        ensures
            text@ == self@.text("task "@),
            match *self {
                SpecError::DuplicateTask { id } => text@ == "duplicate task id: "@ + id@,
                SpecError::UnknownDependency { task, dependency } => text@ == "task '"@ + task@
                    + "' depends on unknown '"@ + dependency@ + "'"@,
                SpecError::RefusedEdge { error, .. } => text@ == error.text(),
                SpecError::Cyclic(error) => text@ == error.text(),
            },
    {
        proof {
            reveal_strlit("task ");
            reveal_strlit("'");
            reveal_strlit("task '");
            assert("task "@ + "'"@ =~= "task '"@);
        }
        self.message_after("task ")
    }

    /// The message for people where a runnable DAG is built.
    pub fn runnable_message(&self) -> (text: String)
        ensures
            text@ == self@.text(""@),
            match *self {
                SpecError::DuplicateTask { id } => text@ == "duplicate task id: "@ + id@,
                SpecError::UnknownDependency { task, dependency } => text@ == "'"@ + task@
                    + "' depends on unknown '"@ + dependency@ + "'"@,
                SpecError::RefusedEdge { error, .. } => text@ == error.text(),
                SpecError::Cyclic(error) => text@ == error.text(),
            },
    {
        proof {
            reveal_strlit("");
            assert(""@ + "'"@ =~= "'"@);
        }
        self.message_after("")
    }

    fn message_after(&self, prefix: &str) -> (text: String)
        ensures
            text@ == self@.text(prefix@),
            match *self {
                SpecError::DuplicateTask { id } => text@ == "duplicate task id: "@ + id@,
                SpecError::UnknownDependency { task, dependency } => text@ == prefix@ + "'"@ + task@
                    + "' depends on unknown '"@ + dependency@ + "'"@,
                SpecError::RefusedEdge { error, .. } => text@ == error.text(),
                SpecError::Cyclic(error) => text@ == error.text(),
            },
    {
        match self {
            SpecError::DuplicateTask { id } => {
                let mut text = "duplicate task id: ".to_owned();
                text.append(id.as_str());
                text
            },
            SpecError::UnknownDependency { task, dependency } => unknown_dependency_message(
                prefix,
                task.as_str(),
                dependency.as_str(),
            ),
            SpecError::RefusedEdge { error, .. } => error.message(),
            SpecError::Cyclic(error) => error.message(),
        }
    }
}

/// What strings say.
pub open spec fn texts(strings: Seq<String>) -> Seq<Seq<char>> {
    strings.map_values(|s: String| s@)
}

/// What task entries say.
pub open spec fn task_views(tasks: Seq<TaskSpec>) -> Seq<TaskSpecView> {
    tasks.map_values(|task: TaskSpec| task@)
}

/// The ids of tasks.
pub open spec fn ids(tasks: Seq<TaskSpecView>) -> Seq<Seq<char>> {
    tasks.map_values(|task: TaskSpecView| task.id)
}

/// All dependencies, task by task: the place of the task and the name of what
/// it depends on.
pub open spec fn dependencies(tasks: Seq<TaskSpecView>) -> Seq<(int, Seq<char>)>
    decreases tasks.len(),
{
    if tasks.len() == 0 {
        Seq::empty()
    } else {
        dependencies(tasks.drop_last()) + task_dependencies(
            tasks.len() - 1,
            tasks.last().depends_on,
        )
    }
}

/// The dependencies of the task at `place`.
pub open spec fn task_dependencies(place: int, depends_on: Seq<Seq<char>>) -> Seq<
    (int, Seq<char>),
> {
    depends_on.map_values(|dependency: Seq<char>| (place, dependency))
}

/// `name` is last found at `place`.
pub open spec fn is_last_place(names: Seq<Seq<char>>, name: Seq<char>, place: int) -> bool {
    &&& 0 <= place < names.len()
    &&& names[place] == name
    &&& forall|later: int| place < later < names.len() ==> #[trigger] names[later] != name
}

/// The node of a task: the last that has its name.
pub open spec fn node_named(names: Seq<Seq<char>>, name: Seq<char>) -> int {
    choose|place: int| is_last_place(names, name, place)
}

/// A node number as a handle.
pub open spec fn handle(node: int) -> NodeIndex {
    NodeIndex(node as u32)
}

/// The edges for `wanted`, each from the task that is depended on to the one
/// that depends, or the first dependency that gives none.
pub open spec fn linked(names: Seq<Seq<char>>, wanted: Seq<(int, Seq<char>)>) -> Result<
    Seq<(int, int)>,
    SpecErrorView,
>
    decreases wanted.len(),
{
    if wanted.len() == 0 {
        Ok(Seq::empty())
    } else {
        match linked(names, wanted.drop_last()) {
            Err(error) => Err(error),
            Ok(edges) => link_one(names, edges, wanted.last().0, wanted.last().1),
        }
    }
}

/// The edges with that for one more dependency, or why it gives none.
pub open spec fn link_one(
    names: Seq<Seq<char>>,
    edges: Seq<(int, int)>,
    place: int,
    dependency: Seq<char>,
) -> Result<Seq<(int, int)>, SpecErrorView> {
    let task = names[place];
    let to = node_named(names, task);
    let from = node_named(names, dependency);
    if !names.contains(dependency) {
        Err(SpecErrorView::UnknownDependency { task, dependency })
    } else if edges.contains((from, to)) {
        Err(
            SpecErrorView::RefusedEdge {
                task,
                dependency,
                error: DagError::DuplicateEdge { from: handle(from), to: handle(to) },
            },
        )
    } else {
        Ok(edges.push((from, to)))
    }
}

/// The edges of the DAG for `tasks`, or why there is none.
pub open spec fn connected(tasks: Seq<TaskSpecView>) -> Result<Seq<(int, int)>, SpecErrorView> {
    match linked(ids(tasks), dependencies(tasks)) {
        Err(error) => Err(error),
        Ok(edges) => if is_acyclic(tasks.len(), edges) {
            Ok(edges)
        } else {
            Err(
                SpecErrorView::Cyclic(
                    DagError::Cycle(handle(topo_result(tasks.len(), edges)->Err_0)),
                ),
            )
        },
    }
}

/// The id at `place` is the first to repeat an earlier one.
pub open spec fn first_repeat(names: Seq<Seq<char>>, place: int) -> bool {
    &&& 0 <= place < names.len()
    &&& names.take(place).no_duplicates()
    &&& names.take(place).contains(names[place])
}

/// The edges of the DAG that a specification describes, or why it describes
/// none: a repeated id first, then a dependency that gives no edge, then a
/// cycle.
pub open spec fn built(tasks: Seq<TaskSpecView>) -> Result<Seq<(int, int)>, SpecErrorView> {
    if ids(tasks).no_duplicates() {
        connected(tasks)
    } else {
        Err(
            SpecErrorView::DuplicateTask {
                id: ids(tasks)[choose|place: int| first_repeat(ids(tasks), place)],
            },
        )
    }
}

/// The places of all names are known, the last where a name comes twice.
pub open spec fn places_known(names: Seq<Seq<char>>, places: Map<Seq<char>, NodeIndex>) -> bool {
    &&& forall|name: Seq<char>| #[trigger] places.contains_key(name) <==> names.contains(name)
    &&& forall|name: Seq<char>| #[trigger]
        places.contains_key(name) ==> is_last_place(names, name, places[name].position())
}

proof fn lemma_last_place_is_unique(names: Seq<Seq<char>>, name: Seq<char>, a: int)
    requires
        is_last_place(names, name, a),
    ensures
        node_named(names, name) == a,
{
    let b = node_named(names, name);
    assert(is_last_place(names, name, b));
    if a < b {
        assert(names[b] != name);
    } else if b < a {
        assert(names[a] != name);
    }
}

proof fn lemma_places_grow(
    names: Seq<Seq<char>>,
    places: Map<Seq<char>, NodeIndex>,
    name: Seq<char>,
    node: NodeIndex,
)
    requires
        places_known(names, places),
        node.position() == names.len(),
    ensures
        places_known(names.push(name), places.insert(name, node)),
{
    let more = names.push(name);
    let known = places.insert(name, node);
    assert forall|n: Seq<char>| #[trigger] known.contains_key(n) <==> more.contains(n) by {
        if names.contains(n) {
            assert(more[names.index_of(n)] == n);
        }
        if n == name {
            assert(more[names.len() as int] == n);
        }
        if more.contains(n) && n != name {
            let k = more.index_of(n);
            assert(names[k] == n);
        }
    }
    assert forall|n: Seq<char>| #[trigger] known.contains_key(n) implies is_last_place(
        more,
        n,
        known[n].position(),
    ) by {
        if n != name {
            assert(places.contains_key(n));
            assert(is_last_place(names, n, places[n].position()));
        }
    }
}

proof fn lemma_first_repeat_is_unique(names: Seq<Seq<char>>, place: int)
    requires
        first_repeat(names, place),
    ensures
        !names.no_duplicates(),
        (choose|p: int| first_repeat(names, p)) == place,
{
    let front = names.take(place);
    let i = front.index_of(names[place]);
    assert(names[i] == front[i]);
    let other = choose|p: int| first_repeat(names, p);
    assert(first_repeat(names, other));
    let there = names.take(other);
    let j = there.index_of(names[other]);
    assert(names[j] == there[j]);
    if other < place {
        assert(front[other] == front[j]);
    } else if place < other {
        assert(there[place] == there[i]);
    }
}

/// The edges for `wanted` join the nodes of `names`, and none comes twice.
pub(crate) proof fn lemma_linked_edges(names: Seq<Seq<char>>, wanted: Seq<(int, Seq<char>)>)
    requires
        forall|k: int| 0 <= k < wanted.len() ==> 0 <= (#[trigger] wanted[k]).0 < names.len(),
    ensures
        linked(names, wanted) matches Ok(edges) ==> {
            &&& edges_in_range(names.len(), edges)
            &&& edges.no_duplicates()
            &&& edges.len() == wanted.len()
        },
    decreases wanted.len(),
{
    if wanted.len() > 0 {
        lemma_linked_edges(names, wanted.drop_last());
        if let Ok(edges) = linked(names, wanted) {
            let (place, dependency) = wanted.last();
            lemma_has_last_place(names, dependency);
            lemma_has_last_place(names, names[place]);
        }
    }
}

pub(crate) proof fn lemma_has_last_place(names: Seq<Seq<char>>, name: Seq<char>)
    requires
        names.contains(name),
    ensures
        is_last_place(names, name, node_named(names, name)),
    decreases names.len(),
{
    let end = names.len() - 1;
    if names[end] == name {
        assert(is_last_place(names, name, end));
    } else {
        let front = names.drop_last();
        assert(front[names.index_of(name)] == name);
        lemma_has_last_place(front, name);
        let place = node_named(front, name);
        assert(is_last_place(names, name, place)) by {
            assert forall|later: int| place < later < names.len() implies #[trigger] names[later]
                != name by {
                if later < end {
                    assert(front[later] != name);
                }
            }
        }
    }
}

pub(crate) proof fn lemma_dependency_places(tasks: Seq<TaskSpecView>)
    ensures
        forall|k: int|
            0 <= k < dependencies(tasks).len() ==> 0 <= (#[trigger] dependencies(tasks)[k]).0
                < tasks.len(),
    decreases tasks.len(),
{
    if tasks.len() > 0 {
        lemma_dependency_places(tasks.drop_last());
        let front = dependencies(tasks.drop_last());
        assert forall|k: int| 0 <= k < dependencies(tasks).len() implies 0 <= (
        #[trigger] dependencies(tasks)[k]).0 < tasks.len() by {
            if k < front.len() {
                assert(dependencies(tasks)[k] == front[k]);
            }
        }
    }
}

/// More dependencies cannot mend one that gave no edge.
proof fn lemma_link_failure_stays(
    names: Seq<Seq<char>>,
    some: Seq<(int, Seq<char>)>,
    more: Seq<(int, Seq<char>)>,
)
    requires
        linked(names, some) is Err,
    ensures
        linked(names, some + more) == linked(names, some),
    decreases more.len(),
{
    if more.len() == 0 {
        assert(some + more =~= some);
    } else {
        lemma_link_failure_stays(names, some, more.drop_last());
        assert((some + more).drop_last() =~= some + more.drop_last());
    }
}

/// The dependencies of the first tasks come first.
proof fn lemma_dependencies_split(tasks: Seq<TaskSpecView>, count: int) -> (rest: Seq<
    (int, Seq<char>),
>)
    requires
        0 <= count <= tasks.len(),
    ensures
        dependencies(tasks) == dependencies(tasks.take(count)) + rest,
    decreases tasks.len() - count,
{
    if count == tasks.len() {
        assert(tasks.take(count) =~= tasks);
        let rest = Seq::<(int, Seq<char>)>::empty();
        assert(dependencies(tasks) + rest =~= dependencies(tasks));
        rest
    } else {
        let later = lemma_dependencies_split(tasks, count + 1);
        let step = tasks.take(count + 1);
        assert(step.drop_last() =~= tasks.take(count));
        let rest = task_dependencies(count, tasks[count].depends_on) + later;
        assert(dependencies(tasks) =~= dependencies(tasks.take(count)) + rest);
        rest
    }
}

/// Adds the edges for the dependencies of `tasks` to a DAG that holds a node
/// for each of them and no edge.
#[verifier::spinoff_prover]
pub(crate) fn link<T>(
    dag: &mut Dag<T>,
    tasks: &Vec<TaskSpec>,
    places: &StringHashMap<NodeIndex>,
) -> (result: Result<(), SpecError>)
    requires
        old(dag).wf(),
        old(dag)@.edges.len() == 0,
        old(dag)@.payloads.len() == tasks@.len(),
        places_known(ids(task_views(tasks@)), places@),
        dependencies(task_views(tasks@)).len() <= u32::MAX,
    ensures
        final(dag).wf(),
        final(dag)@.payloads == old(dag)@.payloads,
        match result {
            Ok(()) => linked(ids(task_views(tasks@)), dependencies(task_views(tasks@))) == Ok::<
                Seq<(int, int)>,
                SpecErrorView,
            >(final(dag)@.edges),
            Err(error) => linked(ids(task_views(tasks@)), dependencies(task_views(tasks@)))
                == Err::<Seq<(int, int)>, SpecErrorView>(error@),
        },
{
    let ghost views = task_views(tasks@);
    let ghost names = ids(views);
    let ghost payloads = dag@.payloads;
    assert(dag@.edges =~= Seq::empty());
    for t in 0..tasks.len()
        invariant
            dag.wf(),
            dag@.payloads == payloads,
            payloads == old(dag)@.payloads,
            payloads.len() == tasks@.len(),
            views == task_views(tasks@),
            names == ids(views),
            places_known(names, places@),
            dependencies(views).len() <= u32::MAX,
            linked(names, dependencies(views.take(t as int))) == Ok::<
                Seq<(int, int)>,
                SpecErrorView,
            >(dag@.edges),
    {
        let task = &tasks[t];
        let ghost front = dependencies(views.take(t as int));
        let ghost wanted = views[t as int].depends_on;
        let ghost here = task_dependencies(t as int, wanted);
        let ghost later = lemma_dependencies_split(views, t + 1);
        proof {
            assert(views.take(t + 1).drop_last() =~= views.take(t as int));
            assert(dependencies(views.take(t + 1)) == front + here);
            assert(names[t as int] == task.id@);
            assert(names.contains(task.id@));
            assert(places@.contains_key(task.id@));
            assert(here.take(0) =~= Seq::empty());
            assert(front + here.take(0) =~= front);
        }
        let to = match places.get(task.id.as_str()) {
            Some(node) => *node,
            None => {
                assert(false);
                NodeIndex(0)
            },
        };
        proof {
            lemma_last_place_is_unique(names, task.id@, to.position());
        }
        for d in 0..task.depends_on.len()
            invariant
                dag.wf(),
                dag@.payloads == payloads,
                payloads == old(dag)@.payloads,
                payloads.len() == tasks@.len(),
                views == task_views(tasks@),
                names == ids(views),
                places_known(names, places@),
                0 <= t < tasks@.len(),
                *task == tasks@[t as int],
                wanted == texts(task.depends_on@),
                here == task_dependencies(t as int, wanted),
                dependencies(views) == (front + here) + later,
                dependencies(views).len() <= u32::MAX,
                names[t as int] == task.id@,
                to.position() == node_named(names, task.id@),
                is_last_place(names, task.id@, to.position()),
                linked(names, front + here.take(d as int)) == Ok::<
                    Seq<(int, int)>,
                    SpecErrorView,
                >(dag@.edges),
        {
            let dependency = &task.depends_on[d];
            let ghost done = front + here.take(d as int);
            let ghost next = front + here.take(d + 1);
            let ghost rest = here.skip(d + 1) + later;
            proof {
                assert(next.drop_last() =~= done);
                assert(next.last() == (t as int, dependency@));
                assert(next + rest =~= dependencies(views));
                lemma_dependency_places(views);
                assert forall|k: int| 0 <= k < done.len() implies 0 <= (#[trigger] done[k]).0
                    < names.len() by {
                    assert(done[k] == dependencies(views)[k]);
                }
                lemma_linked_edges(names, done);
            }
            match places.get(dependency.as_str()) {
                Some(node) => {
                    let from = *node;
                    proof {
                        assert(places@.contains_key(dependency@));
                        lemma_last_place_is_unique(names, dependency@, from.position());
                    }
                    match dag.add_edge(from, to) {
                        Ok(()) => {},
                        Err(error) => {
                            proof {
                                lemma_link_failure_stays(names, next, rest);
                            }
                            return Err(
                                SpecError::RefusedEdge {
                                    task: task.id.clone(),
                                    dependency: dependency.clone(),
                                    error,
                                },
                            );
                        },
                    }
                },
                None => {
                    proof {
                        assert(!places@.contains_key(dependency@));
                        lemma_link_failure_stays(names, next, rest);
                    }
                    return Err(
                        SpecError::UnknownDependency {
                            task: task.id.clone(),
                            dependency: dependency.clone(),
                        },
                    );
                },
            }
        }
        assert(here.take(here.len() as int) =~= here);
    }
    assert(views.take(views.len() as int) =~= views);
    Ok(())
}

/// Adds the edges for the dependencies of `tasks` and checks for cycles.
#[verifier::spinoff_prover]
#[verifier::rlimit(40)]
fn connect<T>(
    dag: Dag<T>,
    tasks: &Vec<TaskSpec>,
    places: &StringHashMap<NodeIndex>,
) -> (result: Result<Dag<T>, SpecError>)
    requires
        dag.wf(),
        dag@.edges.len() == 0,
        dag@.payloads.len() == tasks@.len(),
        places_known(ids(task_views(tasks@)), places@),
        dependencies(task_views(tasks@)).len() <= u32::MAX,
    ensures
        match result {
            Ok(connected_dag) => {
                &&& connected_dag.wf()
                &&& connected_dag@.payloads == dag@.payloads
                &&& connected_dag@.acyclic()
                &&& connected(task_views(tasks@)) == Ok::<Seq<(int, int)>, SpecErrorView>(
                    connected_dag@.edges,
                )
            },
            Err(error) => connected(task_views(tasks@)) == Err::<Seq<(int, int)>, SpecErrorView>(
                error@,
            ),
        },
{
    let mut dag = dag;
    match link(&mut dag, tasks, places) {
        Ok(()) => {},
        Err(error) => {
            return Err(error);
        },
    }
    let ghost edges = dag@.edges;
    match dag.cycle_check() {
        Ok(()) => Ok(dag),
        Err(error) => {
            assert(error == DagError::Cycle(handle(topo_result(tasks@.len(), edges)->Err_0)));
            Err(SpecError::Cyclic(error))
        },
    }
}

/// The place of the first id that repeats an earlier one, if there is one.
fn find_repeat(tasks: &Vec<TaskSpec>) -> (repeat: Option<usize>)
    ensures
        match repeat {
            Some(t) => first_repeat(ids(task_views(tasks@)), t as int),
            None => ids(task_views(tasks@)).no_duplicates(),
        },
{
    let ghost names = ids(task_views(tasks@));
    let mut seen: StringHashMap<()> = StringHashMap::new();
    for t in 0..tasks.len()
        invariant
            names == ids(task_views(tasks@)),
            names.take(t as int).no_duplicates(),
            forall|name: Seq<char>| #[trigger]
                seen@.contains_key(name) <==> names.take(t as int).contains(name),
    {
        let id = &tasks[t].id;
        let ghost front = names.take(t as int);
        assert(names[t as int] == id@);
        if seen.contains_key(id.as_str()) {
            return Some(t);
        }
        seen.insert(id.clone(), ());
        proof {
            let more = names.take(t + 1);
            assert(more =~= front.push(id@));
            assert forall|name: Seq<char>| #[trigger]
                seen@.contains_key(name) <==> more.contains(name) by {
                if front.contains(name) {
                    assert(more[front.index_of(name)] == name);
                }
                if name == id@ {
                    assert(more[t as int] == name);
                }
                if more.contains(name) && name != id@ {
                    assert(front[more.index_of(name)] == name);
                }
            }
            assert forall|i: int, j: int|
                0 <= i < more.len() && 0 <= j < more.len() && i != j implies more[i]
                != more[j] by {
                if i == t {
                    assert(front.contains(front[j]));
                } else if j == t {
                    assert(front.contains(front[i]));
                } else {
                    assert(front[i] != front[j]);
                }
            }
        }
    }
    assert(names.take(names.len() as int) =~= names);
    None
}

/// A DAG with a node for each task, its id as payload, and the node of each id:
/// the last that has it.
pub(crate) fn place_tasks(tasks: &Vec<TaskSpec>) -> (placed: (
    Dag<String>,
    StringHashMap<NodeIndex>,
))
    requires
        tasks@.len() <= u32::MAX,
    ensures
        placed.0.wf(),
        placed.0@.edges.len() == 0,
        texts(placed.0@.payloads) == ids(task_views(tasks@)),
        places_known(ids(task_views(tasks@)), placed.1@),
{
    let ghost names = ids(task_views(tasks@));
    let mut dag: Dag<String> = Dag::new();
    let mut places: StringHashMap<NodeIndex> = StringHashMap::new();
    for t in 0..tasks.len()
        invariant
            tasks@.len() <= u32::MAX,
            names == ids(task_views(tasks@)),
            dag.wf(),
            dag@.edges.len() == 0,
            dag@.payloads.len() == t,
            forall|k: int| 0 <= k < t ==> (#[trigger] dag@.payloads[k])@ == names[k],
            places_known(names.take(t as int), places@),
    {
        let id = &tasks[t].id;
        assert(names[t as int] == id@);
        let node = dag.add_node(id.clone());
        proof {
            lemma_places_grow(names.take(t as int), places@, id@, node);
            assert(names.take(t + 1) =~= names.take(t as int).push(id@));
        }
        places.insert(id.clone(), node);
    }
    assert(names.take(names.len() as int) =~= names);
    assert(texts(dag@.payloads) =~= names);
    (dag, places)
}

impl DagSpec {
    /// What the tasks say.
    pub open spec fn task_views(self) -> Seq<TaskSpecView> {
        task_views(self.tasks@)
    }

    /// The DAG that this specification describes, each task a node with its id
    /// as payload, or why it describes none.
    pub fn build(&self) -> (result: Result<Dag<String>, SpecError>)
        requires
            self.tasks@.len() <= u32::MAX,
            dependencies(self.task_views()).len() <= u32::MAX,
        ensures
            match result {
                Ok(dag) => {
                    &&& dag.wf()
                    &&& texts(dag@.payloads) == ids(self.task_views())
                    &&& dag@.acyclic()
                    &&& built(self.task_views()) == Ok::<Seq<(int, int)>, SpecErrorView>(
                        dag@.edges,
                    )
                },
                Err(error) => built(self.task_views()) == Err::<Seq<(int, int)>, SpecErrorView>(
                    error@,
                ),
            },
    {
        if let Some(t) = find_repeat(&self.tasks) {
            proof {
                lemma_first_repeat_is_unique(ids(self.task_views()), t as int);
            }
            return Err(SpecError::DuplicateTask { id: self.tasks[t].id.clone() });
        }
        let (dag, places) = place_tasks(&self.tasks);
        connect(dag, &self.tasks, &places)
    }

    /// The DAG of the tasks, each a node that hands on its own id, or why there
    /// is none. Where an id comes twice, it stands for the last task that has it.
    pub fn build_runnable_dag(&self) -> (result: Result<Dag<EchoTask>, SpecError>)
        requires
            self.tasks@.len() <= u32::MAX,
            dependencies(self.task_views()).len() <= u32::MAX,
        ensures
            match result {
                Ok(dag) => {
                    &&& dag.wf()
                    &&& dag@.payloads.len() == self.tasks@.len()
                    &&& forall|k: int|
                        0 <= k < self.tasks@.len() ==> (#[trigger] dag@.payloads[k]).id@
                            == self.task_views()[k].id && dag@.payloads[k].gives()
                            == TaskOutputView::Text(self.task_views()[k].id)
                    &&& dag@.acyclic()
                    &&& connected(self.task_views()) == Ok::<Seq<(int, int)>, SpecErrorView>(
                        dag@.edges,
                    )
                },
                Err(error) => connected(self.task_views()) == Err::<
                    Seq<(int, int)>,
                    SpecErrorView,
                >(error@),
            },
    {
        let (named, places) = place_tasks(&self.tasks);
        match connect(named, &self.tasks, &places) {
            Ok(dag) => {
                let mut echoes: Vec<EchoTask> = Vec::new();
                for t in 0..self.tasks.len()
                    invariant
                        echoes@.len() == t,
                        forall|k: int|
                            0 <= k < t ==> (#[trigger] echoes@[k]).id@ == self.tasks@[k].id@,
                {
                    echoes.push(EchoTask { id: self.tasks[t].id.clone() });
                }
                Ok(dag.with_payloads(echoes))
            },
            Err(error) => Err(error),
        }
    }
}

/// Where the ids of tasks differ, the DAG of tasks that hand on their ids and
/// the one that a specification describes are there together, with the same
/// edges.
pub proof fn runnable_dag_is_the_described_one(tasks: Seq<TaskSpecView>)
    requires
        ids(tasks).no_duplicates(),
    ensures
        connected(tasks) == built(tasks),
{
}

/// For each dependency the edge that it asks for.
pub open spec fn wanted_edges(names: Seq<Seq<char>>, wanted: Seq<(int, Seq<char>)>) -> Seq<
    (int, int),
> {
    wanted.map_values(
        |dependency: (int, Seq<char>)|
            (node_named(names, dependency.1), node_named(names, names[dependency.0])),
    )
}

/// Every dependency is the name of a task.
pub open spec fn all_known(names: Seq<Seq<char>>, wanted: Seq<(int, Seq<char>)>) -> bool {
    forall|k: int| 0 <= k < wanted.len() ==> names.contains((#[trigger] wanted[k]).1)
}

pub(crate) proof fn lemma_linked_exactly(names: Seq<Seq<char>>, wanted: Seq<(int, Seq<char>)>)
    ensures
        linked(names, wanted) is Ok <==> all_known(names, wanted) && wanted_edges(
            names,
            wanted,
        ).no_duplicates(),
        linked(names, wanted) matches Ok(edges) ==> edges == wanted_edges(names, wanted),
    decreases wanted.len(),
{
    let edges = wanted_edges(names, wanted);
    if wanted.len() == 0 {
        assert(edges =~= Seq::empty());
    } else {
        let front = wanted.drop_last();
        lemma_linked_exactly(names, front);
        let before = wanted_edges(names, front);
        assert(edges =~= before.push(edges.last()));
        let (place, dependency) = wanted.last();
        if all_known(names, wanted) {
            assert(all_known(names, front)) by {
                assert forall|k: int| 0 <= k < front.len() implies names.contains(
                    (#[trigger] front[k]).1,
                ) by {
                    assert(front[k] == wanted[k]);
                }
            }
            assert(names.contains(wanted[wanted.len() - 1].1));
        }
        if edges.no_duplicates() {
            assert forall|i: int, j: int|
                0 <= i < before.len() && 0 <= j < before.len() && i != j implies before[i]
                != before[j] by {
                assert(edges[i] == before[i] && edges[j] == before[j]);
            }
            if before.contains(edges.last()) {
                let i = before.index_of(edges.last());
                assert(edges[i] == edges[edges.len() - 1]);
            }
        }
        if linked(names, front) is Ok && names.contains(dependency) && !before.contains(
            edges.last(),
        ) {
            assert forall|k: int| 0 <= k < wanted.len() implies names.contains(
                (#[trigger] wanted[k]).1,
            ) by {
                if k < front.len() {
                    assert(front[k] == wanted[k]);
                }
            }
            assert forall|i: int, j: int|
                0 <= i < edges.len() && 0 <= j < edges.len() && i != j implies edges[i]
                != edges[j] by {
                if i < before.len() {
                    assert(edges[i] == before[i]);
                }
                if j < before.len() {
                    assert(edges[j] == before[j]);
                }
            }
        }
    }
}

/// A specification describes a DAG exactly where its ids differ, every
/// dependency names a task, no task names a dependency twice and the edges run
/// in no circle; the DAG then has an edge for each dependency, in their order.
pub proof fn specification_describes_dag(tasks: Seq<TaskSpecView>)
    ensures
        built(tasks) is Ok <==> {
            &&& ids(tasks).no_duplicates()
            &&& all_known(ids(tasks), dependencies(tasks))
            &&& wanted_edges(ids(tasks), dependencies(tasks)).no_duplicates()
            &&& is_acyclic(tasks.len(), wanted_edges(ids(tasks), dependencies(tasks)))
        },
        built(tasks) matches Ok(edges) ==> edges == wanted_edges(
            ids(tasks),
            dependencies(tasks),
        ),
{
    lemma_linked_exactly(ids(tasks), dependencies(tasks));
}

proof fn lemma_dependency_listed(tasks: Seq<TaskSpecView>, task: int, k: int) -> (at: int)
    requires
        0 <= task < tasks.len(),
        0 <= k < tasks[task].depends_on.len(),
    ensures
        0 <= at < dependencies(tasks).len(),
        at == dependencies(tasks.take(task)).len() + k,
        dependencies(tasks)[at] == (task, tasks[task].depends_on[k]),
{
    let rest = lemma_dependencies_split(tasks, task + 1);
    let step = tasks.take(task + 1);
    assert(step.drop_last() =~= tasks.take(task));
    let at = dependencies(tasks.take(task)).len() + k;
    assert(dependencies(step)[at] == (task, tasks[task].depends_on[k]));
    at as int
}

/// The dependency of a task that is listed at a place.
proof fn lemma_dependency_origin(tasks: Seq<TaskSpecView>, at: int) -> (origin: (int, int))
    requires
        0 <= at < dependencies(tasks).len(),
    ensures
        0 <= origin.0 < tasks.len(),
        0 <= origin.1 < tasks[origin.0].depends_on.len(),
        at == dependencies(tasks.take(origin.0)).len() + origin.1,
        dependencies(tasks)[at] == (origin.0, tasks[origin.0].depends_on[origin.1]),
    decreases tasks.len(),
{
    let front = tasks.drop_last();
    let last = tasks.len() - 1;
    if at < dependencies(front).len() {
        let origin = lemma_dependency_origin(front, at);
        assert(front.take(origin.0) =~= tasks.take(origin.0));
        assert(dependencies(tasks)[at] == dependencies(front)[at]);
        origin
    } else {
        let d = at - dependencies(front).len();
        assert(tasks.take(last) =~= front);
        (last, d)
    }
}

/// Dependencies are listed in the order of their tasks.
proof fn lemma_earlier_tasks_come_first(tasks: Seq<TaskSpecView>, early: int, late: int, d: int)
    requires
        0 <= early < late < tasks.len(),
        0 <= d < tasks[early].depends_on.len(),
    ensures
        dependencies(tasks.take(early)).len() + d < dependencies(tasks.take(late)).len(),
{
    let front = tasks.take(late);
    let at = lemma_dependency_listed(front, early, d);
    assert(front.take(early) =~= tasks.take(early));
}

/// The dependencies come task by task, each with the place of its task, and are
/// as many as the tasks name together.
pub proof fn dependencies_come_task_by_task(tasks: Seq<TaskSpecView>)
    ensures
        dependencies(tasks) == Seq::new(
            tasks.len(),
            |t: int|
                Seq::new(tasks[t].depends_on.len(), |d: int| (t, tasks[t].depends_on[d])),
        ).flatten(),
        dependencies(tasks).len() == tasks.fold_left(
            0int,
            |count: int, task: TaskSpecView| count + task.depends_on.len(),
        ),
    decreases tasks.len(),
{
    let lists = Seq::new(
        tasks.len(),
        |t: int| Seq::new(tasks[t].depends_on.len(), |d: int| (t, tasks[t].depends_on[d])),
    );
    lists.lemma_flatten_and_flatten_alt_are_equivalent();
    if tasks.len() > 0 {
        let front = tasks.drop_last();
        let before = Seq::new(
            front.len(),
            |t: int| Seq::new(front[t].depends_on.len(), |d: int| (t, front[t].depends_on[d])),
        );
        dependencies_come_task_by_task(front);
        before.lemma_flatten_and_flatten_alt_are_equivalent();
        assert forall|t: int| 0 <= t < front.len() implies #[trigger] lists.drop_last()[t]
            == before[t] by {
            assert(lists.drop_last()[t] =~= before[t]);
        }
        assert(lists.drop_last() =~= before);
        assert(lists.last() =~= task_dependencies(tasks.len() - 1, tasks.last().depends_on));
    }
}

/// What a specification says of its tasks is what is written in it: ids and
/// dependencies, in their order.
pub proof fn tasks_say_what_is_written(spec: DagSpec, t: int)
    requires
        0 <= t < spec.tasks@.len(),
    ensures
        spec.task_views().len() == spec.tasks@.len(),
        ids(spec.task_views()).len() == spec.tasks@.len(),
        spec.task_views()[t].id == spec.tasks@[t].id@,
        ids(spec.task_views())[t] == spec.tasks@[t].id@,
        spec.task_views()[t].depends_on.len() == spec.tasks@[t].depends_on@.len(),
        forall|d: int|
            0 <= d < spec.tasks@[t].depends_on@.len()
                ==> #[trigger] spec.task_views()[t].depends_on[d] == spec.tasks@[t].depends_on@[d]@,
{
}

/// What strings say, one by one.
pub proof fn texts_say_the_strings(strings: Seq<String>, k: int)
    ensures
        texts(strings).len() == strings.len(),
        0 <= k < strings.len() ==> texts(strings)[k] == strings[k]@,
{
}

/// What an error says is what it holds.
pub proof fn error_says_what_it_holds(error: SpecError)
    ensures
        match error {
            SpecError::DuplicateTask { id } => error@ == (SpecErrorView::DuplicateTask { id: id@ }),
            SpecError::UnknownDependency { task, dependency } => error@ == (
            SpecErrorView::UnknownDependency { task: task@, dependency: dependency@ }),
            SpecError::RefusedEdge { task, dependency, error: refusal } => error@ == (
            SpecErrorView::RefusedEdge {
                task: task@,
                dependency: dependency@,
                error: refusal,
            }),
            SpecError::Cyclic(cycle) => error@ == SpecErrorView::Cyclic(cycle),
        },
{
}

/// Tasks whose ids may repeat give a DAG exactly where each dependency is the id
/// of a task, no edge is asked for twice and the edges run in no circle.
pub proof fn runnable_specifications(tasks: Seq<TaskSpecView>)
    ensures
        connected(tasks) is Ok <==> {
            &&& forall|t: int, d: int|
                0 <= t < tasks.len() && 0 <= d < tasks[t].depends_on.len() ==> exists|u: int|
                    0 <= u < tasks.len() && (#[trigger] tasks[u]).id
                        == #[trigger] tasks[t].depends_on[d]
            &&& wanted_edges(ids(tasks), dependencies(tasks)).no_duplicates()
            &&& is_acyclic(tasks.len(), wanted_edges(ids(tasks), dependencies(tasks)))
        },
{
    lemma_linked_exactly(ids(tasks), dependencies(tasks));
    lemma_known_names(tasks);
}

/// How many dependencies are written in a specification.
pub(crate) proof fn lemma_written_dependencies(tasks: Seq<TaskSpec>)
    ensures
        dependencies(task_views(tasks)).len() == tasks.fold_left(
            0int,
            |count: int, task: TaskSpec| count + task.depends_on@.len(),
        ),
    decreases tasks.len(),
{
    if tasks.len() > 0 {
        lemma_written_dependencies(tasks.drop_last());
        assert(task_views(tasks).drop_last() =~= task_views(tasks.drop_last()));
        assert(task_views(tasks).last().depends_on.len() == tasks.last().depends_on@.len());
    } else {
        assert(dependencies(task_views(tasks)) =~= Seq::empty());
    }
}

/// The edges of a DAG of tasks with different ids lead from one task to another
/// just where the second names the first, and are as many as the tasks name
/// together.
pub proof fn edges_are_the_dependencies(tasks: Seq<TaskSpecView>)
    requires
        built(tasks) is Ok,
    ensures
        forall|from: int, to: int|
            0 <= from < tasks.len() && 0 <= to < tasks.len() ==> (
            #[trigger] built(tasks)->Ok_0.contains((from, to))
                <==> tasks[to].depends_on.contains(tasks[from].id)),
        edges_in_range(tasks.len(), built(tasks)->Ok_0),
        built(tasks)->Ok_0.no_duplicates(),
        built(tasks)->Ok_0.len() == tasks.fold_left(
            0int,
            |count: int, task: TaskSpecView| count + task.depends_on.len(),
        ),
{
    specification_describes_dag(tasks);
    dependencies_come_task_by_task(tasks);
    lemma_dependency_places(tasks);
    lemma_linked_edges(ids(tasks), dependencies(tasks));
    let edges = built(tasks)->Ok_0;
    assert forall|from: int, to: int| 0 <= from < tasks.len() && 0 <= to < tasks.len() implies (
    #[trigger] edges.contains((from, to)) <==> tasks[to].depends_on.contains(tasks[from].id)) by {
        lemma_edge_asked_for(tasks, from, to);
    }
}

/// An edge is asked for just where the task it leads to names the one that it
/// comes from.
proof fn lemma_edge_asked_for(tasks: Seq<TaskSpecView>, from: int, to: int)
    requires
        ids(tasks).no_duplicates(),
        all_known(ids(tasks), dependencies(tasks)),
        0 <= from < tasks.len(),
        0 <= to < tasks.len(),
    ensures
        wanted_edges(ids(tasks), dependencies(tasks)).contains((from, to))
            <==> tasks[to].depends_on.contains(tasks[from].id),
{
    let names = ids(tasks);
    let wanted = dependencies(tasks);
    let edges = wanted_edges(names, wanted);
    assert(names[from] == tasks[from].id && names[to] == tasks[to].id);
    assert(is_last_place(names, names[from], from));
    assert(is_last_place(names, names[to], to));
    lemma_last_place_is_unique(names, names[from], from);
    lemma_last_place_is_unique(names, names[to], to);
    if tasks[to].depends_on.contains(tasks[from].id) {
        let d = tasks[to].depends_on.index_of(tasks[from].id);
        let at = lemma_dependency_listed(tasks, to, d);
        assert(edges[at] == (from, to));
    }
    if edges.contains((from, to)) {
        let at = edges.index_of((from, to));
        let (t, d) = lemma_dependency_origin(tasks, at);
        assert(names[t] == tasks[t].id);
        assert(names.contains(wanted[at].1));
        assert(names.contains(names[t]));
        lemma_has_last_place(names, wanted[at].1);
        lemma_has_last_place(names, names[t]);
        assert(names[t] == names[to]);
        assert(tasks[to].depends_on[d] == tasks[from].id);
    }
}

/// Tasks that depend on each other in a circle: each of `circle` is named by the
/// next, and the last is the first again.
pub open spec fn is_dependency_circle(tasks: Seq<TaskSpecView>, circle: Seq<int>) -> bool {
    &&& circle.len() >= 2
    &&& circle.first() == circle.last()
    &&& forall|k: int| 0 <= k < circle.len() ==> 0 <= #[trigger] circle[k] < tasks.len()
    &&& forall|i: int, j: int|
        0 <= i && i + 1 == j && j < circle.len() ==> tasks[#[trigger]
        circle[j]].depends_on.contains(tasks[#[trigger] circle[i]].id)
}

proof fn lemma_circle_is_cycle(tasks: Seq<TaskSpecView>, circle: Seq<int>)
    requires
        ids(tasks).no_duplicates(),
        all_known(ids(tasks), dependencies(tasks)),
        is_dependency_circle(tasks, circle),
    ensures
        !is_acyclic(tasks.len(), wanted_edges(ids(tasks), dependencies(tasks))),
{
    let edges = wanted_edges(ids(tasks), dependencies(tasks));
    assert forall|k: int| 0 <= k < circle.len() - 1 implies edges.contains(
        (#[trigger] circle[k], circle[k + 1]),
    ) by {
        let next = circle[k + 1];
        lemma_edge_asked_for(tasks, circle[k], next);
    }
    assert(is_walk(edges, circle));
    assert(on_cycle(edges, circle[0]));
}

/// An edge that is asked for joins tasks, of which the second names the first.
proof fn lemma_asked_edge_joins_tasks(tasks: Seq<TaskSpecView>, edge: (int, int))
    requires
        ids(tasks).no_duplicates(),
        all_known(ids(tasks), dependencies(tasks)),
        wanted_edges(ids(tasks), dependencies(tasks)).contains(edge),
    ensures
        0 <= edge.0 < tasks.len(),
        0 <= edge.1 < tasks.len(),
        tasks[edge.1].depends_on.contains(tasks[edge.0].id),
{
    let names = ids(tasks);
    let wanted = dependencies(tasks);
    let at = wanted_edges(names, wanted).index_of(edge);
    let (t, d) = lemma_dependency_origin(tasks, at);
    assert(names.contains(wanted[at].1));
    assert(names.contains(names[t]));
    lemma_has_last_place(names, wanted[at].1);
    lemma_has_last_place(names, names[t]);
    lemma_edge_asked_for(tasks, edge.0, edge.1);
}

proof fn lemma_cycle_is_circle(tasks: Seq<TaskSpecView>, walk: Seq<int>)
    requires
        ids(tasks).no_duplicates(),
        all_known(ids(tasks), dependencies(tasks)),
        walk.len() >= 2,
        walk.first() == walk.last(),
        forall|i: int, j: int|
            0 <= i && i + 1 == j && j < walk.len() ==> wanted_edges(
                ids(tasks),
                dependencies(tasks),
            ).contains((#[trigger] walk[i], #[trigger] walk[j])),
    ensures
        is_dependency_circle(tasks, walk),
{
    assert forall|i: int, j: int| 0 <= i && i + 1 == j && j < walk.len() implies {
        &&& 0 <= walk[i] < tasks.len()
        &&& 0 <= walk[j] < tasks.len()
        &&& tasks[#[trigger] walk[j]].depends_on.contains(tasks[#[trigger] walk[i]].id)
    } by {
        lemma_asked_edge_joins_tasks(tasks, (walk[i], walk[j]));
    }
    assert forall|k: int| 0 <= k < walk.len() implies 0 <= #[trigger] walk[k] < tasks.len() by {
        if k == 0 {
            lemma_asked_edge_joins_tasks(tasks, (walk[0], walk[1]));
        } else {
            lemma_asked_edge_joins_tasks(tasks, (walk[k - 1], walk[k]));
        }
    }
}

proof fn lemma_circles_are_cycles(tasks: Seq<TaskSpecView>)
    requires
        ids(tasks).no_duplicates(),
        all_known(ids(tasks), dependencies(tasks)),
    ensures
        is_acyclic(tasks.len(), wanted_edges(ids(tasks), dependencies(tasks)))
            <==> !exists|circle: Seq<int>| is_dependency_circle(tasks, circle),
{
    let edges = wanted_edges(ids(tasks), dependencies(tasks));
    if exists|circle: Seq<int>| is_dependency_circle(tasks, circle) {
        let circle = choose|circle: Seq<int>| is_dependency_circle(tasks, circle);
        lemma_circle_is_cycle(tasks, circle);
    }
    if !is_acyclic(tasks.len(), edges) {
        let node = choose|node: int| 0 <= node < tasks.len() && #[trigger] on_cycle(edges, node);
        let walk = choose|walk: Seq<int>|
            #[trigger] is_walk(edges, walk) && walk.first() == node && walk.last() == node;
        assert forall|i: int, j: int| 0 <= i && i + 1 == j && j < walk.len() implies edges.contains(
            (#[trigger] walk[i], #[trigger] walk[j]),
        ) by {
            assert(edges.contains((walk[i], walk[i + 1])));
        }
        lemma_cycle_is_circle(tasks, walk);
    }
}

/// A specification is valid exactly where its ids differ, each dependency is the
/// id of a task, no task names one twice, and no tasks depend on each other in a
/// circle.
pub proof fn valid_specifications(tasks: Seq<TaskSpecView>)
    ensures
        built(tasks) is Ok <==> {
            &&& forall|i: int, j: int|
                0 <= i < j < tasks.len() ==> (#[trigger] tasks[i]).id != (#[trigger] tasks[j]).id
            &&& forall|t: int, d: int|
                0 <= t < tasks.len() && 0 <= d < tasks[t].depends_on.len() ==> exists|u: int|
                    0 <= u < tasks.len() && (#[trigger] tasks[u]).id
                        == #[trigger] tasks[t].depends_on[d]
            &&& forall|t: int|
                0 <= t < tasks.len() ==> (#[trigger] tasks[t]).depends_on.no_duplicates()
            &&& !exists|circle: Seq<int>| is_dependency_circle(tasks, circle)
        },
{
    specification_describes_dag(tasks);
    let names = ids(tasks);
    let wanted = dependencies(tasks);
    let edges = wanted_edges(names, wanted);
    let differ = forall|i: int, j: int|
        0 <= i < j < tasks.len() ==> (#[trigger] tasks[i]).id != (#[trigger] tasks[j]).id;
    let known = forall|t: int, d: int|
        0 <= t < tasks.len() && 0 <= d < tasks[t].depends_on.len() ==> exists|u: int|
            0 <= u < tasks.len() && (#[trigger] tasks[u]).id == #[trigger] tasks[t].depends_on[d];
    let once = forall|t: int|
        0 <= t < tasks.len() ==> (#[trigger] tasks[t]).depends_on.no_duplicates();
    assert(differ == names.no_duplicates()) by {
        if names.no_duplicates() {
            assert forall|i: int, j: int| 0 <= i < j < tasks.len() implies (
            #[trigger] tasks[i]).id != (#[trigger] tasks[j]).id by {
                assert(names[i] != names[j]);
            }
        }
        if differ {
            assert forall|i: int, j: int|
                0 <= i < names.len() && 0 <= j < names.len() && i != j implies names[i]
                != names[j] by {
                if i < j {
                    assert(tasks[i].id != tasks[j].id);
                } else {
                    assert(tasks[j].id != tasks[i].id);
                }
            }
        }
    }
    lemma_known_names(tasks);
    if differ && known {
        lemma_circles_are_cycles(tasks);
        lemma_repeats_are_duplicate_edges(tasks);
    }
}

/// All names are known where each dependency is the id of a task.
proof fn lemma_known_names(tasks: Seq<TaskSpecView>)
    ensures
        all_known(ids(tasks), dependencies(tasks)) <==> forall|t: int, d: int|
            0 <= t < tasks.len() && 0 <= d < tasks[t].depends_on.len() ==> exists|u: int|
                0 <= u < tasks.len() && (#[trigger] tasks[u]).id
                    == #[trigger] tasks[t].depends_on[d],
{
    let names = ids(tasks);
    let wanted = dependencies(tasks);
    if all_known(names, wanted) {
        assert forall|t: int, d: int|
            0 <= t < tasks.len() && 0 <= d < tasks[t].depends_on.len() implies exists|u: int|
            0 <= u < tasks.len() && (#[trigger] tasks[u]).id
                == #[trigger] tasks[t].depends_on[d] by {
            let at = lemma_dependency_listed(tasks, t, d);
            assert(names.contains(wanted[at].1));
            let u = names.index_of(wanted[at].1);
            assert(tasks[u].id == tasks[t].depends_on[d]);
        }
    }
    if forall|t: int, d: int|
        0 <= t < tasks.len() && 0 <= d < tasks[t].depends_on.len() ==> exists|u: int|
            0 <= u < tasks.len() && (#[trigger] tasks[u]).id == #[trigger] tasks[t].depends_on[d] {
        assert forall|at: int| 0 <= at < wanted.len() implies names.contains(
            (#[trigger] wanted[at]).1,
        ) by {
            let (t, d) = lemma_dependency_origin(tasks, at);
            let name = tasks[t].depends_on[d];
            let u = choose|u: int| 0 <= u < tasks.len() && (#[trigger] tasks[u]).id == name;
            assert(names[u] == name);
        }
    }
}

/// Where no task names a dependency twice, no edge is asked for twice.
proof fn lemma_repeats_are_duplicate_edges(tasks: Seq<TaskSpecView>)
    requires
        ids(tasks).no_duplicates(),
        all_known(ids(tasks), dependencies(tasks)),
    ensures
        wanted_edges(ids(tasks), dependencies(tasks)).no_duplicates() <==> forall|t: int|
            0 <= t < tasks.len() ==> (#[trigger] tasks[t]).depends_on.no_duplicates(),
{
    let names = ids(tasks);
    let wanted = dependencies(tasks);
    let edges = wanted_edges(names, wanted);
    if edges.no_duplicates() {
        assert forall|t: int| 0 <= t < tasks.len() implies (
        #[trigger] tasks[t]).depends_on.no_duplicates() by {
            let named = tasks[t].depends_on;
            assert forall|i: int, j: int|
                0 <= i < named.len() && 0 <= j < named.len() && i != j implies named[i]
                != named[j] by {
                let a = lemma_dependency_listed(tasks, t, i);
                let b = lemma_dependency_listed(tasks, t, j);
                assert(edges[a] != edges[b]);
            }
        }
    }
    if forall|t: int| 0 <= t < tasks.len() ==> (#[trigger] tasks[t]).depends_on.no_duplicates() {
        assert forall|a: int, b: int|
            0 <= a < edges.len() && 0 <= b < edges.len() && a != b implies edges[a] != edges[b] by {
            let (s, i) = lemma_dependency_origin(tasks, a);
            let (t, j) = lemma_dependency_origin(tasks, b);
            assert(names.contains(wanted[a].1) && names.contains(wanted[b].1));
            assert(names.contains(names[s]) && names.contains(names[t]));
            lemma_has_last_place(names, wanted[a].1);
            lemma_has_last_place(names, wanted[b].1);
            lemma_has_last_place(names, names[s]);
            lemma_has_last_place(names, names[t]);
            if edges[a] == edges[b] {
                assert(names[s] == names[t]);
                assert(s == t);
                assert(tasks[s].depends_on[i] == tasks[s].depends_on[j]);
            }
        }
    }
}

/// Where ids repeat, the one that is refused is the first that stands before.
pub proof fn repeated_id_is_refused(tasks: Seq<TaskSpecView>, j: int)
    requires
        0 <= j < tasks.len(),
        exists|i: int| 0 <= i < j && (#[trigger] tasks[i]).id == tasks[j].id,
        forall|i: int, k: int|
            0 <= i < k < j ==> (#[trigger] tasks[i]).id != (#[trigger] tasks[k]).id,
    ensures
        built(tasks) == Err::<Seq<(int, int)>, SpecErrorView>(
            SpecErrorView::DuplicateTask { id: tasks[j].id },
        ),
{
    let names = ids(tasks);
    let front = names.take(j);
    let i = choose|i: int| 0 <= i < j && (#[trigger] tasks[i]).id == tasks[j].id;
    assert(front[i] == names[j]);
    assert forall|a: int, b: int|
        0 <= a < front.len() && 0 <= b < front.len() && a != b implies front[a] != front[b] by {
        if a < b {
            assert(tasks[a].id != tasks[b].id);
        } else {
            assert(tasks[b].id != tasks[a].id);
        }
    }
    assert(first_repeat(names, j));
    lemma_first_repeat_is_unique(names, j);
}

/// The dependency at which the edges come to an end.
proof fn lemma_first_fault(names: Seq<Seq<char>>, wanted: Seq<(int, Seq<char>)>) -> (at: int)
    requires
        linked(names, wanted) is Err,
    ensures
        0 <= at < wanted.len(),
        all_known(names, wanted.take(at)),
        wanted_edges(names, wanted.take(at)).no_duplicates(),
        linked(names, wanted) == link_one(
            names,
            wanted_edges(names, wanted.take(at)),
            wanted[at].0,
            wanted[at].1,
        ),
    decreases wanted.len(),
{
    let front = wanted.drop_last();
    if linked(names, front) is Err {
        let at = lemma_first_fault(names, front);
        assert(front.take(at) =~= wanted.take(at));
        at
    } else {
        lemma_linked_exactly(names, front);
        assert(wanted.take(wanted.len() - 1) =~= front);
        wanted.len() - 1
    }
}

/// A dependency that is no task is refused with the task that names it, unless
/// one before it, in the order of tasks and of what each names, is refused.
pub proof fn unknown_dependency_is_refused(tasks: Seq<TaskSpecView>)
    requires
        ids(tasks).no_duplicates(),
    ensures
        built(tasks) matches Err(SpecErrorView::UnknownDependency { task, dependency })
            ==> exists|t: int, d: int|
            {
                &&& 0 <= t < tasks.len() && 0 <= d < tasks[t].depends_on.len()
                &&& tasks[t].id == task && #[trigger] tasks[t].depends_on[d] == dependency
                &&& forall|u: int| 0 <= u < tasks.len() ==> (#[trigger] tasks[u]).id != dependency
                &&& forall|s: int, e: int|
                    0 <= s < tasks.len() && 0 <= e < tasks[s].depends_on.len() && (s < t || (s == t
                        && e < d)) ==> ids(tasks).contains(#[trigger] tasks[s].depends_on[e])
            },
{
    let names = ids(tasks);
    let wanted = dependencies(tasks);
    if let Err(SpecErrorView::UnknownDependency { task, dependency }) = built(tasks) {
        assert(linked(names, wanted) is Err);
        let at = lemma_first_fault(names, wanted);
        let (t, d) = lemma_dependency_origin(tasks, at);
        assert(names[t] == tasks[t].id);
        assert(tasks[t].depends_on[d] == dependency);
        assert forall|u: int| 0 <= u < tasks.len() implies (#[trigger] tasks[u]).id
            != dependency by {
            assert(names[u] == tasks[u].id);
            assert(names.contains(names[u]));
        }
        assert forall|s: int, e: int|
            0 <= s < tasks.len() && 0 <= e < tasks[s].depends_on.len() && (s < t || (s == t && e
                < d)) implies names.contains(#[trigger] tasks[s].depends_on[e]) by {
            let before = lemma_dependency_listed(tasks, s, e);
            if s < t {
                lemma_earlier_tasks_come_first(tasks, s, t, e);
            }
            assert(wanted.take(at)[before] == wanted[before]);
            assert(names.contains(wanted.take(at)[before].1));
        }
    }
}

/// What is refused as a repeated edge is a dependency that its task has named
/// before, with the handles of both tasks.
pub proof fn repeated_dependency_is_refused(tasks: Seq<TaskSpecView>)
    requires
        ids(tasks).no_duplicates(),
    ensures
        built(tasks) matches Err(SpecErrorView::RefusedEdge { task, dependency, error })
            ==> exists|t: int, d: int, u: int|
            {
                &&& 0 <= t < tasks.len() && 0 <= d < tasks[t].depends_on.len()
                &&& 0 <= u < tasks.len()
                &&& tasks[t].id == task && #[trigger] tasks[t].depends_on[d] == dependency
                &&& (#[trigger] tasks[u]).id == dependency
                &&& tasks[t].depends_on.take(d).contains(dependency)
                &&& error == DagError::DuplicateEdge {
                    from: NodeIndex(u as u32),
                    to: NodeIndex(t as u32),
                }
            },
{
    let names = ids(tasks);
    let wanted = dependencies(tasks);
    if let Err(SpecErrorView::RefusedEdge { task, dependency, error }) = built(tasks) {
        assert(linked(names, wanted) is Err);
        let at = lemma_first_fault(names, wanted);
        let (t, d) = lemma_dependency_origin(tasks, at);
        let done = wanted.take(at);
        let edges = wanted_edges(names, done);
        lemma_has_last_place(names, dependency);
        let u = node_named(names, dependency);
        assert(names[t] == tasks[t].id && names[u] == tasks[u].id);
        assert(names.contains(names[t]));
        lemma_has_last_place(names, names[t]);
        assert(node_named(names, names[t]) == t);
        let before = edges.index_of((u, t));
        assert(wanted[before] == done[before]);
        let (s, e) = lemma_dependency_origin(tasks, before);
        assert(names.contains(done[before].1));
        assert(names.contains(names[s]));
        lemma_has_last_place(names, done[before].1);
        lemma_has_last_place(names, names[s]);
        assert(names[s] == names[t]);
        assert(s == t);
        assert(done[before].1 == dependency);
        assert(e < d);
        assert(tasks[t].depends_on.take(d)[e] == dependency);
        assert(tasks[t].depends_on[d] == dependency);
    }
}

/// What is refused as cyclic has a circle of tasks that depend on each other.
pub proof fn circle_is_refused(tasks: Seq<TaskSpecView>)
    ensures
        built(tasks) matches Err(SpecErrorView::Cyclic(error)) ==> {
            &&& error is Cycle
            &&& exists|circle: Seq<int>| is_dependency_circle(tasks, circle)
        },
{
    if built(tasks) matches Err(SpecErrorView::Cyclic(_)) {
        lemma_linked_exactly(ids(tasks), dependencies(tasks));
        if linked(ids(tasks), dependencies(tasks)) is Err {
            let at = lemma_first_fault(ids(tasks), dependencies(tasks));
        }
        lemma_circles_are_cycles(tasks);
    }
}

/// Each edge joins the last task that has the id that is depended on to the last
/// that has the id of the task that depends.
pub proof fn edges_join_the_last_of_an_id(tasks: Seq<TaskSpecView>, at: int)
    requires
        connected(tasks) is Ok,
        0 <= at < connected(tasks)->Ok_0.len(),
    ensures
        connected(tasks)->Ok_0.len() == dependencies(tasks).len(),
        ({
            let (from, to) = connected(tasks)->Ok_0[at];
            let (t, dependency) = dependencies(tasks)[at];
            &&& 0 <= from < tasks.len() && 0 <= to < tasks.len()
            &&& tasks[from].id == dependency
            &&& tasks[to].id == tasks[t].id
            &&& forall|later: int|
                from < later < tasks.len() ==> (#[trigger] tasks[later]).id != dependency
            &&& forall|later: int|
                to < later < tasks.len() ==> (#[trigger] tasks[later]).id != tasks[t].id
        }),
{
    let names = ids(tasks);
    let wanted = dependencies(tasks);
    lemma_linked_exactly(names, wanted);
    let (t, d) = lemma_dependency_origin(tasks, at);
    let dependency = wanted[at].1;
    assert(names.contains(dependency));
    assert(names.contains(names[t]));
    lemma_has_last_place(names, dependency);
    lemma_has_last_place(names, names[t]);
    let from = node_named(names, dependency);
    let to = node_named(names, names[t]);
    assert(connected(tasks)->Ok_0[at] == (from, to));
    assert(names[from] == tasks[from].id && names[to] == tasks[to].id && names[t] == tasks[t].id);
    assert forall|later: int| from < later < tasks.len() implies (#[trigger] tasks[later]).id
        != dependency by {
        assert(names[later] != dependency);
    }
    assert forall|later: int| to < later < tasks.len() implies (#[trigger] tasks[later]).id
        != tasks[t].id by {
        assert(names[later] != names[t]);
    }
}

/// The messages about a specification, word for word; those on edges and cycles
/// are those of the DAG.
pub proof fn specification_messages_in_full(
    prefix: Seq<char>,
    id: Seq<char>,
    dependency: Seq<char>,
    error: DagError,
)
    ensures
        (SpecErrorView::DuplicateTask { id }).text(prefix) == "duplicate task id: "@ + id,
        (SpecErrorView::UnknownDependency { task: id, dependency }).text(prefix) == prefix + "'"@
            + id + "' depends on unknown '"@ + dependency + "'"@,
        (SpecErrorView::RefusedEdge { task: id, dependency, error }).text(prefix) == error.text(),
        SpecErrorView::Cyclic(error).text(prefix) == error.text(),
{
}

/// In every topological order of the DAG that a specification describes, a task
/// comes after each task that it depends on.
pub proof fn tasks_come_after_dependencies(
    tasks: Seq<TaskSpecView>,
    order: Seq<int>,
    task: int,
    k: int,
    i: int,
    j: int,
)
    requires
        built(tasks) is Ok,
        is_topological_order(tasks.len(), built(tasks)->Ok_0, order),
        0 <= task < tasks.len(),
        0 <= k < tasks[task].depends_on.len(),
        0 <= i < order.len(),
        0 <= j < order.len(),
        tasks[order[i]].id == tasks[task].depends_on[k],
        order[j] == task,
    ensures
        i < j,
{
    specification_describes_dag(tasks);
    let names = ids(tasks);
    let edges = built(tasks)->Ok_0;
    let at = lemma_dependency_listed(tasks, task, k);
    let from = order[i];
    assert(names[from] == tasks[from].id && names[task] == tasks[task].id);
    assert(is_last_place(names, names[from], from));
    assert(is_last_place(names, names[task], task));
    lemma_last_place_is_unique(names, names[from], from);
    lemma_last_place_is_unique(names, names[task], task);
    assert(edges[at] == (from, task));
    assert(edges.contains((order[i], order[j])));
}

} // verus!
