//! What the commands tell, and the ids of runs that are given none.
use vstd::prelude::*;

use crate::json::{field_names, field_texts, json_list, json_object, json_string, Json};
use crate::local::named_nodes;
use crate::resources::names_along;
use crate::spec::{
    built, dependencies, edges_are_the_dependencies, ids, lemma_written_dependencies,
    specification_describes_dag, texts, DagSpec, SpecError, SpecErrorView, TaskSpec, TaskSpecView,
};
use crate::text::{
    append_decimal, append_signed_decimal, decimal, decimals_differ, lemma_first_letters_order,
    signed_decimal, text_before,
};
use crate::topology::{acyclic_graph_has_insertion_order, insertion_order};

verus! {

/// The line for a valid specification.
pub open spec fn valid_line(name: Seq<char>, tasks: nat, edges: nat) -> Seq<char> {
    "OK: "@ + name + " ("@ + decimal(tasks) + " tasks, "@ + decimal(edges) + " edges)\n"@
}

/// A line for each task.
pub open spec fn order_lines(names: Seq<Seq<char>>) -> Seq<char>
    decreases names.len(),
{
    if names.len() == 0 {
        Seq::empty()
    } else {
        order_lines(names.drop_last()) + "  - "@ + names.last() + "\n"@
    }
}

/// What is told of a valid specification: its name, how many tasks and edges it
/// has and, where that is asked for, its tasks in the order in which they run.
pub open spec fn validation(
    name: Seq<char>,
    names: Seq<Seq<char>>,
    edges: Seq<(int, int)>,
    print_order: bool,
) -> Seq<char> {
    if print_order {
        valid_line(name, names.len(), edges.len()) + order_lines(
            named_nodes(insertion_order(names.len(), edges), names),
        )
    } else {
        valid_line(name, names.len(), edges.len())
    }
}

/// The lines for tasks come one after the other.
pub proof fn order_is_told_line_by_line(names: Seq<Seq<char>>)
    ensures
        order_lines(names) == Seq::new(
            names.len(),
            |k: int| "  - "@ + names[k] + "\n"@,
        ).flatten(),
    decreases names.len(),
{
    let lines = Seq::new(names.len(), |k: int| "  - "@ + names[k] + "\n"@);
    lines.lemma_flatten_and_flatten_alt_are_equivalent();
    if names.len() > 0 {
        let front = names.drop_last();
        let before = Seq::new(front.len(), |k: int| "  - "@ + front[k] + "\n"@);
        order_is_told_line_by_line(front);
        before.lemma_flatten_and_flatten_alt_are_equivalent();
        assert(lines.drop_last() =~= before);
        assert(order_lines(names) =~= before.flatten_alt() + lines.last());
    }
}

/// What is told of a valid specification gives its name, the number of its tasks
/// and the number of dependencies that the tasks name together. Where the order
/// is asked for, a line for each task follows, in the order of the DAG.
pub proof fn validation_tells_the_counts(
    name: Seq<char>,
    tasks: Seq<TaskSpecView>,
    print_order: bool,
)
    requires
        built(tasks) is Ok,
    ensures
        validation(name, ids(tasks), built(tasks)->Ok_0, print_order) == "OK: "@ + name + " ("@
            + decimal(tasks.len()) + " tasks, "@ + decimal(
            tasks.fold_left(
                0int,
                |count: int, task: TaskSpecView| count + task.depends_on.len(),
            ) as nat,
        ) + " edges)\n"@ + (if print_order {
            Seq::new(
                tasks.len(),
                |k: int|
                    "  - "@ + tasks[insertion_order(tasks.len(), built(tasks)->Ok_0)[k]].id + "\n"@,
            ).flatten()
        } else {
            Seq::<char>::empty()
        }),
{
    let edges = built(tasks)->Ok_0;
    let order = insertion_order(tasks.len(), edges);
    edges_are_the_dependencies(tasks);
    specification_describes_dag(tasks);
    acyclic_graph_has_insertion_order(tasks.len(), edges);
    let told = validation(name, ids(tasks), edges, print_order);
    let line = valid_line(name, tasks.len(), edges.len());
    if print_order {
        let along = named_nodes(order, ids(tasks));
        order_is_told_line_by_line(along);
        assert forall|k: int| 0 <= k < tasks.len() implies #[trigger] along[k]
            == tasks[order[k]].id by {}
        assert(Seq::new(along.len(), |k: int| "  - "@ + along[k] + "\n"@) =~= Seq::new(
            tasks.len(),
            |k: int| "  - "@ + tasks[order[k]].id + "\n"@,
        ));
    } else {
        assert(told =~= line + Seq::<char>::empty());
    }
}

/// Of two valid specifications with the same name and as many tasks, different
/// lines are told where their tasks name different numbers of dependencies.
pub proof fn dependency_counts_are_told_apart(
    name: Seq<char>,
    some: Seq<TaskSpecView>,
    others: Seq<TaskSpecView>,
)
    requires
        built(some) is Ok,
        built(others) is Ok,
        some.len() == others.len(),
        validation(name, ids(some), built(some)->Ok_0, false) == validation(
            name,
            ids(others),
            built(others)->Ok_0,
            false,
        ),
    ensures
        some.fold_left(0int, |count: int, task: TaskSpecView| count + task.depends_on.len())
            == others.fold_left(
            0int,
            |count: int, task: TaskSpecView| count + task.depends_on.len(),
        ),
{
    validation_tells_the_counts(name, some, false);
    validation_tells_the_counts(name, others, false);
    edges_are_the_dependencies(some);
    edges_are_the_dependencies(others);
    let start = "OK: "@ + name + " ("@ + decimal(some.len()) + " tasks, "@;
    let end = " edges)\n"@;
    let a = decimal(built(some)->Ok_0.len());
    let b = decimal(built(others)->Ok_0.len());
    let told = start + a + end + Seq::<char>::empty();
    assert(told =~= start + b + end + Seq::<char>::empty());
    assert(told.len() == start.len() + a.len() + end.len());
    assert(told.len() == start.len() + b.len() + end.len());
    assert(told.subrange(start.len() as int, (start.len() + a.len()) as int) =~= a);
    assert(told.subrange(start.len() as int, (start.len() + b.len()) as int) =~= b);
    decimals_differ(built(some)->Ok_0.len(), built(others)->Ok_0.len());
}

/// Checks a specification, and writes what is told of it where it is valid.
pub fn validate(spec: &DagSpec, print_order: bool) -> (told: Result<String, SpecError>)
    requires
        spec.tasks@.len() <= u32::MAX,
        dependencies(spec.task_views()).len() <= u32::MAX,
    ensures
        match told {
            Ok(text) => {
                &&& built(spec.task_views()) is Ok
                &&& text@ == validation(
                    spec.name@,
                    ids(spec.task_views()),
                    built(spec.task_views())->Ok_0,
                    print_order,
                )
            },
            Err(error) => built(spec.task_views()) == Err::<Seq<(int, int)>, SpecErrorView>(
                error@,
            ),
        },
        told matches Ok(text) ==> {
            let edges = spec.tasks@.fold_left(
                0int,
                |count: int, task: TaskSpec| count + task.depends_on@.len(),
            );
            let order = insertion_order(spec.tasks@.len(), built(spec.task_views())->Ok_0);
            text@ == "OK: "@ + spec.name@ + " ("@ + decimal(spec.tasks@.len()) + " tasks, "@
                + decimal(edges as nat) + " edges)\n"@ + (if print_order {
                Seq::new(
                    spec.tasks@.len(),
                    |k: int| "  - "@ + spec.tasks@[order[k]].id@ + "\n"@,
                ).flatten()
            } else {
                Seq::<char>::empty()
            })
        },
{
    let dag = match spec.build() {
        Ok(dag) => dag,
        Err(error) => {
            return Err(error);
        },
    };
    let order = match dag.topo_sort() {
        Ok(order) => order,
        Err(error) => {
            return Err(SpecError::Cyclic(error));
        },
    };
    let mut text = "OK: ".to_owned();
    text.append(spec.name.as_str());
    text.append(" (");
    append_decimal(&mut text, dag.node_count() as u64);
    text.append(" tasks, ");
    append_decimal(&mut text, dag.edge_count() as u64);
    text.append(" edges)\n");
    let ghost line = text@;
    assert(texts(dag@.payloads).len() == dag@.payloads.len());
    assert(line == valid_line(spec.name@, dag@.payloads.len(), dag@.edges.len()));
    if print_order {
        let names = names_along(&dag, &order);
        let ghost along = texts(names@);
        assert(text@ =~= line + order_lines(along.take(0)));
        for k in 0..names.len()
            invariant
                along == texts(names@),
                text@ == line + order_lines(along.take(k as int)),
        {
            let ghost before = text@;
            text.append("  - ");
            text.append(names[k].as_str());
            text.append("\n");
            proof {
                assert(along[k as int] == names@[k as int]@);
                assert(along.take(k + 1).drop_last() =~= along.take(k as int));
                assert(text@ =~= line + order_lines(along.take(k + 1)));
            }
        }
        assert(along.take(along.len() as int) =~= along);
    }
    proof {
        let views = spec.task_views();
        let edges = built(views)->Ok_0;
        validation_tells_the_counts(spec.name@, views, print_order);
        edges_are_the_dependencies(views);
        specification_describes_dag(views);
        lemma_written_dependencies(spec.tasks@);
        acyclic_graph_has_insertion_order(views.len(), edges);
        let order = insertion_order(views.len(), edges);
        assert(Seq::new(views.len(), |k: int| "  - "@ + views[order[k]].id + "\n"@) =~= Seq::new(
            spec.tasks@.len(),
            |k: int| "  - "@ + spec.tasks@[order[k]].id@ + "\n"@,
        ));
    }
    Ok(text)
}

/// The id of a run: the one given or else one made from the microseconds since
/// the start of 1970.
pub fn run_id_or(run_id: Option<String>, micros: i64) -> (id: String)
    ensures
        match run_id {
            Some(given) => id == given,
            None => id@ == "run-"@ + signed_decimal(micros as int),
        },
{
    match run_id {
        Some(given) => given,
        None => {
            let mut id = "run-".to_owned();
            append_signed_decimal(&mut id, micros);
            id
        },
    }
}

/// The JSON of an id that need not be there.
pub open spec fn optional_json(id: Option<&str>) -> Seq<char> {
    match id {
        Some(id) => json_string(id@),
        None => "null"@,
    }
}

/// What is told of the lineage of a task: the run it is restricted to, if any,
/// and the tasks just upstream and downstream.
pub fn lineage_json(
    run_id: Option<&str>,
    task_id: &str,
    upstream: &Vec<String>,
    downstream: &Vec<String>,
) -> (json: Json)
    ensures
        json@ == json_object(
            seq![
                ("downstream"@, json_list(texts(downstream@))),
                ("run_id"@, optional_json(run_id)),
                ("task_id"@, json_string(task_id@)),
                ("upstream"@, json_list(texts(upstream@))),
            ],
        ),
        json@ == json_object(
            seq![
                ("downstream"@, json_list(texts(downstream@))),
                (
                    "run_id"@,
                    match run_id {
                        Some(id) => json_string(id@),
                        None => "null"@,
                    },
                ),
                ("task_id"@, json_string(task_id@)),
                ("upstream"@, json_list(texts(upstream@))),
            ],
        ),
{
    let run = match run_id {
        Some(id) => Json::string(id),
        None => Json::null(),
    };
    let mut fields: Vec<(String, Json)> = Vec::new();
    fields.push(("downstream".to_owned(), Json::list(downstream)));
    fields.push(("run_id".to_owned(), run));
    fields.push(("task_id".to_owned(), Json::string(task_id)));
    fields.push(("upstream".to_owned(), Json::list(upstream)));
    proof {
        reveal_strlit("downstream");
        reveal_strlit("run_id");
        reveal_strlit("task_id");
        reveal_strlit("upstream");
        let names = field_names(fields@);
        assert forall|i: int, j: int| 0 <= i < j < names.len() implies text_before(
            #[trigger] names[i],
            #[trigger] names[j],
        ) by {
            lemma_first_letters_order(names[i], names[j]);
        }
        assert(field_texts(fields@) =~= seq![
            ("downstream"@, json_list(texts(downstream@))),
            ("run_id"@, optional_json(run_id)),
            ("task_id"@, json_string(task_id@)),
            ("upstream"@, json_list(texts(upstream@))),
        ]);
        assert(field_texts(fields@) =~= seq![
            ("downstream"@, json_list(texts(downstream@))),
            (
                "run_id"@,
                match run_id {
                    Some(id) => json_string(id@),
                    None => "null"@,
                },
            ),
            ("task_id"@, json_string(task_id@)),
            ("upstream"@, json_list(texts(upstream@))),
        ]);
    }
    Json::object(&fields)
}

} // verus!
