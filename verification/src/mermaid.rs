//! Drawing the lineage of a run as a Mermaid graph.
use vstd::prelude::*;

use crate::lineage::{LineageEdge, TaskRunRecord};
use crate::ordered::{increasing_keys_differ, is_increasing, OrderedMap};
use crate::text::{
    append_decimal, decimal, decimals_differ, text_before, text_order_is_strict_and_total,
};

verus! {

/// The ends of edges, by name.
pub open spec fn edge_names(edges: Seq<LineageEdge>) -> Seq<(Seq<char>, Seq<char>)> {
    edges.map_values(|edge: LineageEdge| (edge.upstream_id@, edge.downstream_id@))
}

/// The names of tasks.
pub open spec fn task_names(tasks: Seq<TaskRunRecord>) -> Seq<Seq<char>> {
    tasks.map_values(|task: TaskRunRecord| task.task_id@)
}

/// `name` is an end of an edge or a task.
pub open spec fn mentioned(
    edges: Seq<(Seq<char>, Seq<char>)>,
    tasks: Seq<Seq<char>>,
    name: Seq<char>,
) -> bool {
    ||| exists|k: int| 0 <= k < edges.len() && ((#[trigger] edges[k]).0 == name || edges[k].1 == name)
    ||| tasks.contains(name)
}

/// `names` lists in order what is mentioned, each name once.
pub open spec fn lists_mentioned(
    edges: Seq<(Seq<char>, Seq<char>)>,
    tasks: Seq<Seq<char>>,
    names: Seq<Seq<char>>,
) -> bool {
    &&& is_increasing(names)
    &&& forall|name: Seq<char>| #[trigger] names.contains(name) <==> mentioned(edges, tasks, name)
}

/// What is mentioned, in order.
pub open spec fn node_names(edges: Seq<(Seq<char>, Seq<char>)>, tasks: Seq<Seq<char>>) -> Seq<
    Seq<char>,
> {
    choose|names: Seq<Seq<char>>| lists_mentioned(edges, tasks, names)
}

/// The alias of the node at `place`.
pub open spec fn alias(place: int) -> Seq<char> {
    "t"@ + decimal(place as nat)
}

/// The line of the node at `place`.
pub open spec fn node_line(place: int, name: Seq<char>) -> Seq<char> {
    "    "@ + alias(place) + "[\""@ + name + "\"]\n"@
}

/// The lines of the nodes.
pub open spec fn node_lines(names: Seq<Seq<char>>) -> Seq<char>
    decreases names.len(),
{
    if names.len() == 0 {
        Seq::empty()
    } else {
        node_lines(names.drop_last()) + node_line(names.len() - 1, names.last())
    }
}

/// The line of an edge.
pub open spec fn edge_line(names: Seq<Seq<char>>, edge: (Seq<char>, Seq<char>)) -> Seq<char> {
    "    "@ + alias(names.index_of(edge.0)) + " --> "@ + alias(names.index_of(edge.1)) + "\n"@
}

/// The lines of the edges.
pub open spec fn edge_lines(names: Seq<Seq<char>>, edges: Seq<(Seq<char>, Seq<char>)>) -> Seq<char>
    decreases edges.len(),
{
    if edges.len() == 0 {
        Seq::empty()
    } else {
        edge_lines(names, edges.drop_last()) + edge_line(names, edges.last())
    }
}

/// A text on one line: a space for each line break.
pub open spec fn on_one_line(text: Seq<char>) -> Seq<char> {
    text.map_values(
        |c: char|
            if c == '\n' || c == '\r' {
                ' '
            } else {
                c
            },
    )
}

/// The line of the description, where there is one.
pub open spec fn description_line(description: Seq<char>) -> Seq<char> {
    if description.len() == 0 {
        Seq::empty()
    } else {
        "    accDescr: "@ + on_one_line(description) + "\n"@
    }
}

/// The drawing of nodes and edges under a description.
pub open spec fn drawing(
    description: Seq<char>,
    names: Seq<Seq<char>>,
    edges: Seq<(Seq<char>, Seq<char>)>,
) -> Seq<char> {
    "graph TD\n"@ + description_line(description) + node_lines(names) + edge_lines(names, edges)
}

/// Writes a text on one line at the end of `out`.
fn append_on_one_line(out: &mut String, text: &str)
    ensures
        final(out)@ == old(out)@ + on_one_line(text@),
{
    let ghost before = out@;
    let count: usize = text.unicode_len();
    proof {
        reveal_strlit(" ");
        assert(out@ =~= before + on_one_line(text@).take(0));
    }
    for k in 0..count
        invariant
            count == text@.len(),
            out@ == before + on_one_line(text@).take(k as int),
    {
        let c: char = text.get_char(k);
        if c == '\n' || c == '\r' {
            out.append(" ");
        } else {
            out.append(text.substring_char(k, k + 1));
        }
        proof {
            reveal_strlit(" ");
            assert(out@ =~= before + on_one_line(text@).take(k + 1));
        }
    }
    assert(on_one_line(text@).take(count as int) =~= on_one_line(text@));
}

/// What comes in order and holds the same names is the same.
pub proof fn increasing_listing_is_unique(a: Seq<Seq<char>>, b: Seq<Seq<char>>)
    requires
        is_increasing(a),
        is_increasing(b),
        forall|name: Seq<char>| #[trigger] a.contains(name) <==> b.contains(name),
    ensures
        a == b,
    decreases a.len(),
{
    if a.len() == 0 {
        if b.len() > 0 {
            assert(b.contains(b[0]));
            assert(a.contains(b[0]));
        }
        assert(a =~= b);
    } else {
        assert(a.contains(a[0]));
        assert(b.len() > 0);
        increasing_keys_differ(a);
        increasing_keys_differ(b);
        let x = a.last();
        let y = b.last();
        assert(a.contains(x));
        assert(b.contains(y));
        assert(a.contains(y));
        let i = b.index_of(x);
        let j = a.index_of(y);
        assert(x == y) by {
            text_order_is_strict_and_total(x, y, x);
            if i < b.len() - 1 && j < a.len() - 1 {
                assert(text_before(b[i], b[b.len() - 1]));
                assert(text_before(a[j], a[a.len() - 1]));
            }
        }
        let c = a.drop_last();
        let d = b.drop_last();
        assert forall|name: Seq<char>| #[trigger] c.contains(name) <==> d.contains(name) by {
            if c.contains(name) {
                let k = c.index_of(name);
                assert(a[k] == name && a.contains(name));
                let m = b.index_of(name);
                assert(m < b.len() - 1);
                assert(d[m] == name);
            }
            if d.contains(name) {
                let k = d.index_of(name);
                assert(b[k] == name && b.contains(name));
                assert(a.contains(name));
                let m = a.index_of(name);
                assert(m < a.len() - 1);
                assert(c[m] == name);
            }
        }
        increasing_listing_is_unique(c, d);
        assert(a =~= c.push(x));
        assert(b =~= d.push(y));
    }
}

/// Different nodes have different aliases.
pub proof fn aliases_differ(a: nat, b: nat)
    requires
        alias(a as int) == alias(b as int),
    ensures
        a == b,
{
    let skipped = "t"@.len() as int;
    assert(alias(a as int).skip(skipped) =~= decimal(a));
    assert(alias(b as int).skip(skipped) =~= decimal(b));
    decimals_differ(a, b);
}

/// The nodes are drawn one after the other, each on a line of its own with its
/// place for an alias.
pub proof fn nodes_are_drawn_one_by_one(names: Seq<Seq<char>>)
    ensures
        node_lines(names) == Seq::new(
            names.len(),
            |k: int| "    t"@ + decimal(k as nat) + "[\""@ + names[k] + "\"]\n"@,
        ).flatten(),
    decreases names.len(),
{
    let lines = Seq::new(
        names.len(),
        |k: int| "    t"@ + decimal(k as nat) + "[\""@ + names[k] + "\"]\n"@,
    );
    lines.lemma_flatten_and_flatten_alt_are_equivalent();
    if names.len() > 0 {
        let front = names.drop_last();
        nodes_are_drawn_one_by_one(front);
        let before = Seq::new(
            front.len(),
            |k: int| "    t"@ + decimal(k as nat) + "[\""@ + front[k] + "\"]\n"@,
        );
        before.lemma_flatten_and_flatten_alt_are_equivalent();
        assert(lines.drop_last() =~= before);
        reveal_strlit("    t");
        reveal_strlit("    ");
        reveal_strlit("t");
        assert("    "@ + "t"@ =~= "    t"@);
        let last = names.len() - 1;
        assert(lines.last() =~= node_line(last, names.last()));
    }
}

/// The edges are drawn one after the other, each on a line of its own that joins
/// the alias of the upstream task to that of the downstream task.
pub proof fn edges_are_drawn_one_by_one(
    names: Seq<Seq<char>>,
    edges: Seq<(Seq<char>, Seq<char>)>,
)
    ensures
        edge_lines(names, edges) == Seq::new(
            edges.len(),
            |k: int|
                "    t"@ + decimal(names.index_of(edges[k].0) as nat) + " --> t"@ + decimal(
                    names.index_of(edges[k].1) as nat,
                ) + "\n"@,
        ).flatten(),
    decreases edges.len(),
{
    let lines = Seq::new(
        edges.len(),
        |k: int|
            "    t"@ + decimal(names.index_of(edges[k].0) as nat) + " --> t"@ + decimal(
                names.index_of(edges[k].1) as nat,
            ) + "\n"@,
    );
    lines.lemma_flatten_and_flatten_alt_are_equivalent();
    if edges.len() > 0 {
        let front = edges.drop_last();
        edges_are_drawn_one_by_one(names, front);
        let before = Seq::new(
            front.len(),
            |k: int|
                "    t"@ + decimal(names.index_of(front[k].0) as nat) + " --> t"@ + decimal(
                    names.index_of(front[k].1) as nat,
                ) + "\n"@,
        );
        before.lemma_flatten_and_flatten_alt_are_equivalent();
        assert(lines.drop_last() =~= before);
        reveal_strlit("    t");
        reveal_strlit("    ");
        reveal_strlit("t");
        reveal_strlit(" --> t");
        reveal_strlit(" --> ");
        assert("    "@ + "t"@ =~= "    t"@);
        assert(" --> "@ + "t"@ =~= " --> t"@);
        assert(lines.last() =~= edge_line(names, edges.last()));
    }
}

/// A text on one line is as long as the text; line breaks are spaces in it, and
/// all else stands as it is.
pub proof fn one_line_replaces_line_breaks(text: Seq<char>)
    ensures
        on_one_line(text).len() == text.len(),
        forall|k: int|
            0 <= k < text.len() ==> #[trigger] on_one_line(text)[k] == if text[k] == '\n' || text[k]
                == '\r' {
                ' '
            } else {
                text[k]
            },
{
}

/// A drawing is the line that opens it, the line of the description where there
/// is one, the lines of the nodes and those of the edges, in this order.
pub proof fn drawing_line_by_line(
    description: Seq<char>,
    names: Seq<Seq<char>>,
    edges: Seq<(Seq<char>, Seq<char>)>,
)
    ensures
        drawing(description, names, edges) == "graph TD\n"@ + (if description.len() == 0 {
            Seq::<char>::empty()
        } else {
            "    accDescr: "@ + on_one_line(description) + "\n"@
        }) + Seq::new(
            names.len(),
            |k: int| "    t"@ + decimal(k as nat) + "[\""@ + names[k] + "\"]\n"@,
        ).flatten() + Seq::new(
            edges.len(),
            |k: int|
                "    t"@ + decimal(names.index_of(edges[k].0) as nat) + " --> t"@ + decimal(
                    names.index_of(edges[k].1) as nat,
                ) + "\n"@,
        ).flatten(),
{
    nodes_are_drawn_one_by_one(names);
    edges_are_drawn_one_by_one(names, edges);
}

/// The names of the nodes: the ends of edges and the tasks.
#[verifier::spinoff_prover]
fn gather_nodes(edges: &Vec<LineageEdge>, tasks: &Vec<TaskRunRecord>) -> (nodes: OrderedMap<()>)
    ensures
        nodes.wf(),
        lists_mentioned(edge_names(edges@), task_names(tasks@), nodes.keys()),
        nodes.keys() == node_names(edge_names(edges@), task_names(tasks@)),
        nodes.keys().no_duplicates(),
{
    let ghost ends = edge_names(edges@);
    let ghost ids = task_names(tasks@);
    let mut nodes: OrderedMap<()> = OrderedMap::new();
    for k in 0..edges.len()
        invariant
            nodes.wf(),
            ends == edge_names(edges@),
            forall|name: Seq<char>| #[trigger]
                nodes@.contains_key(name) <==> mentioned(ends.take(k as int), Seq::empty(), name),
    {
        let ghost before = nodes@;
        nodes.insert(edges[k].upstream_id.clone(), ());
        nodes.insert(edges[k].downstream_id.clone(), ());
        proof {
            assert forall|name: Seq<char>| #[trigger]
                nodes@.contains_key(name) <==> mentioned(ends.take(k + 1), Seq::empty(), name) by {
                lemma_mentioned_with_edge(ends.take(k as int), Seq::empty(), ends[k as int], name);
                assert(ends.take(k + 1) =~= ends.take(k as int).push(ends[k as int]));
                assert(ends[k as int] == (
                    edges@[k as int].upstream_id@,
                    edges@[k as int].downstream_id@,
                ));
                assert(before.contains_key(name) <==> mentioned(
                    ends.take(k as int),
                    Seq::empty(),
                    name,
                ));
            }
        }
    }
    assert(ends.take(ends.len() as int) =~= ends);
    assert(ids.take(0) =~= Seq::empty());
    for k in 0..tasks.len()
        invariant
            nodes.wf(),
            ids == task_names(tasks@),
            forall|name: Seq<char>| #[trigger]
                nodes@.contains_key(name) <==> mentioned(ends, ids.take(k as int), name),
    {
        let ghost before = nodes@;
        nodes.insert(tasks[k].task_id.clone(), ());
        proof {
            assert forall|name: Seq<char>| #[trigger]
                nodes@.contains_key(name) <==> mentioned(ends, ids.take(k + 1), name) by {
                lemma_mentioned_with_task(ends, ids.take(k as int), ids[k as int], name);
                assert(ids.take(k + 1) =~= ids.take(k as int).push(ids[k as int]));
                assert(ids[k as int] == tasks@[k as int].task_id@);
                assert(before.contains_key(name) <==> mentioned(ends, ids.take(k as int), name));
            }
        }
    }
    let ghost names = nodes.keys();
    proof {
        assert(ids.take(ids.len() as int) =~= ids);
        nodes.keys_are_the_domain();
        assert forall|name: Seq<char>| #[trigger] names.contains(name) <==> mentioned(
            ends,
            ids,
            name,
        ) by {
            assert(nodes@.contains_key(name) <==> names.contains(name));
        }
        assert(lists_mentioned(ends, ids, names));
        let listed = node_names(ends, ids);
        assert(lists_mentioned(ends, ids, listed));
        increasing_listing_is_unique(names, listed);
        increasing_keys_differ(names);
    }
    nodes
}

/// Writes the line of a node at the end of `out`.
fn append_node_line(out: &mut String, place: usize, name: &str)
    ensures
        final(out)@ == old(out)@ + node_line(place as int, name@),
{
    let ghost before = out@;
    out.append("    ");
    out.append("t");
    append_decimal(out, place as u64);
    out.append("[\"");
    out.append(name);
    out.append("\"]\n");
    assert(out@ =~= before + node_line(place as int, name@));
}

/// Writes the line of an edge between the nodes at two places at the end of
/// `out`.
fn append_edge_line(out: &mut String, from: usize, to: usize)
    ensures
        final(out)@ == old(out)@ + ("    "@ + alias(from as int) + " --> "@ + alias(to as int)
            + "\n"@),
{
    let ghost before = out@;
    out.append("    ");
    out.append("t");
    append_decimal(out, from as u64);
    out.append(" --> ");
    out.append("t");
    append_decimal(out, to as u64);
    out.append("\n");
    assert(out@ =~= before + ("    "@ + alias(from as int) + " --> "@ + alias(to as int) + "\n"@));
}

/// Draws the edges of a run and its tasks as a Mermaid graph: the description,
/// where there is one, the nodes in order, with their places as aliases, then the
/// edges as they come.
#[verifier::spinoff_prover]
#[verifier::rlimit(40)]
pub fn render_mermaid(
    description: &str,
    edges: &Vec<LineageEdge>,
    tasks: &Vec<TaskRunRecord>,
) -> (text: String)
    ensures
        text@ == drawing(
            description@,
            node_names(edge_names(edges@), task_names(tasks@)),
            edge_names(edges@),
        ),
        lists_mentioned(
            edge_names(edges@),
            task_names(tasks@),
            node_names(edge_names(edges@), task_names(tasks@)),
        ),
        ({
            let names = node_names(edge_names(edges@), task_names(tasks@));
            &&& forall|i: int, j: int|
                0 <= i < j < names.len() ==> text_before(#[trigger] names[i], #[trigger] names[j])
            &&& forall|name: Seq<char>| #[trigger]
                names.contains(name) <==> {
                    ||| exists|k: int| 0 <= k < edges@.len() && edges@[k].upstream_id@ == name
                    ||| exists|k: int| 0 <= k < edges@.len() && edges@[k].downstream_id@ == name
                    ||| exists|k: int| 0 <= k < tasks@.len() && tasks@[k].task_id@ == name
                }
            &&& text@ == "graph TD\n"@ + (if description@.len() == 0 {
                Seq::<char>::empty()
            } else {
                "    accDescr: "@ + on_one_line(description@) + "\n"@
            }) + Seq::new(
                names.len(),
                |k: int| "    t"@ + decimal(k as nat) + "[\""@ + names[k] + "\"]\n"@,
            ).flatten() + Seq::new(
                edges@.len(),
                |k: int|
                    "    t"@ + decimal(names.index_of(edges@[k].upstream_id@) as nat) + " --> t"@
                        + decimal(names.index_of(edges@[k].downstream_id@) as nat) + "\n"@,
            ).flatten()
        }),
{
    let ghost ends = edge_names(edges@);
    let ghost ids = task_names(tasks@);
    let nodes = gather_nodes(edges, tasks);
    let ghost names = nodes.keys();
    let mut text = "graph TD\n".to_owned();
    if description.unicode_len() > 0 {
        text.append("    accDescr: ");
        append_on_one_line(&mut text, description);
        text.append("\n");
    }
    let ghost opening = "graph TD\n"@ + description_line(description@);
    let count: usize = nodes.len();
    assert(text@ =~= opening + node_lines(names.take(0)));
    for k in 0..count
        invariant
            nodes.wf(),
            names == nodes.keys(),
            count == names.len(),
            text@ == opening + node_lines(names.take(k as int)),
    {
        let ghost before = text@;
        let (name, _) = nodes.entry(k);
        append_node_line(&mut text, k, name.as_str());
        proof {
            assert(names.take(k + 1).drop_last() =~= names.take(k as int));
            assert(text@ =~= opening + node_lines(names.take(k + 1)));
        }
    }
    let ghost head = text@;
    proof {
        assert(names.take(names.len() as int) =~= names);
        assert(head + edge_lines(names, ends.take(0)) =~= head);
    }
    for k in 0..edges.len()
        invariant
            nodes.wf(),
            names == nodes.keys(),
            names.no_duplicates(),
            ends == edge_names(edges@),
            lists_mentioned(ends, ids, names),
            text@ == head + edge_lines(names, ends.take(k as int)),
    {
        let ghost before = text@;
        let edge = &edges[k];
        proof {
            assert(ends[k as int] == (edge.upstream_id@, edge.downstream_id@));
            assert(mentioned(ends, ids, edge.upstream_id@));
            assert(mentioned(ends, ids, edge.downstream_id@));
            assert(names.contains(edge.upstream_id@));
            assert(names.contains(edge.downstream_id@));
        }
        if let Some(from) = nodes.position(edge.upstream_id.as_str()) {
            if let Some(to) = nodes.position(edge.downstream_id.as_str()) {
                append_edge_line(&mut text, from, to);
                proof {
                    assert(names.index_of(edge.upstream_id@) == from);
                    assert(names.index_of(edge.downstream_id@) == to);
                    assert(text@ == before + edge_line(names, ends[k as int]));
                }
            }
        }
        proof {
            assert(ends.take(k + 1).drop_last() =~= ends.take(k as int));
            assert(text@ =~= head + edge_lines(names, ends.take(k + 1)));
        }
    }
    proof {
        assert(ends.take(ends.len() as int) =~= ends);
        drawing_line_by_line(description@, names, ends);
        assert(Seq::new(
            ends.len(),
            |k: int|
                "    t"@ + decimal(names.index_of(ends[k].0) as nat) + " --> t"@ + decimal(
                    names.index_of(ends[k].1) as nat,
                ) + "\n"@,
        ) =~= Seq::new(
            edges@.len(),
            |k: int|
                "    t"@ + decimal(names.index_of(edges@[k].upstream_id@) as nat) + " --> t"@
                    + decimal(names.index_of(edges@[k].downstream_id@) as nat) + "\n"@,
        ));
        assert forall|name: Seq<char>| #[trigger] names.contains(name) <==> {
            ||| exists|k: int| 0 <= k < edges@.len() && edges@[k].upstream_id@ == name
            ||| exists|k: int| 0 <= k < edges@.len() && edges@[k].downstream_id@ == name
            ||| exists|k: int| 0 <= k < tasks@.len() && tasks@[k].task_id@ == name
        } by {
            lemma_mentioned_in_records(edges@, tasks@, name);
        }
    }
    text
}

proof fn lemma_mentioned_in_records(
    edges: Seq<LineageEdge>,
    tasks: Seq<TaskRunRecord>,
    name: Seq<char>,
)
    ensures
        mentioned(edge_names(edges), task_names(tasks), name) <==> {
            ||| exists|k: int| 0 <= k < edges.len() && edges[k].upstream_id@ == name
            ||| exists|k: int| 0 <= k < edges.len() && edges[k].downstream_id@ == name
            ||| exists|k: int| 0 <= k < tasks.len() && tasks[k].task_id@ == name
        },
{
    let ends = edge_names(edges);
    let ids = task_names(tasks);
    assert forall|k: int| 0 <= k < edges.len() implies (#[trigger] ends[k]) == (
        edges[k].upstream_id@,
        edges[k].downstream_id@,
    ) by {}
    if exists|k: int| 0 <= k < edges.len() && edges[k].upstream_id@ == name {
        let k = choose|k: int| 0 <= k < edges.len() && edges[k].upstream_id@ == name;
        assert(ends[k].0 == name);
    }
    if exists|k: int| 0 <= k < edges.len() && edges[k].downstream_id@ == name {
        let k = choose|k: int| 0 <= k < edges.len() && edges[k].downstream_id@ == name;
        assert(ends[k].1 == name);
    }
    if exists|k: int| 0 <= k < tasks.len() && tasks[k].task_id@ == name {
        let k = choose|k: int| 0 <= k < tasks.len() && tasks[k].task_id@ == name;
        assert(ids[k] == name);
    }
    if ids.contains(name) {
        let k = ids.index_of(name);
        assert(tasks[k].task_id@ == name);
    }
    if exists|k: int| 0 <= k < ends.len() && ((#[trigger] ends[k]).0 == name || ends[k].1 == name) {
        let k = choose|k: int|
            0 <= k < ends.len() && ((#[trigger] ends[k]).0 == name || ends[k].1 == name);
        assert(edges[k].upstream_id@ == name || edges[k].downstream_id@ == name);
    }
}

proof fn lemma_mentioned_with_edge(
    edges: Seq<(Seq<char>, Seq<char>)>,
    tasks: Seq<Seq<char>>,
    edge: (Seq<char>, Seq<char>),
    name: Seq<char>,
)
    ensures
        mentioned(edges.push(edge), tasks, name) <==> mentioned(edges, tasks, name) || edge.0
            == name || edge.1 == name,
{
    let more = edges.push(edge);
    assert(more[edges.len() as int] == edge);
    if exists|k: int|
        0 <= k < edges.len() && ((#[trigger] edges[k]).0 == name || edges[k].1 == name) {
        let k = choose|k: int|
            0 <= k < edges.len() && ((#[trigger] edges[k]).0 == name || edges[k].1 == name);
        assert(more[k] == edges[k]);
    }
}

proof fn lemma_mentioned_with_task(
    edges: Seq<(Seq<char>, Seq<char>)>,
    tasks: Seq<Seq<char>>,
    task: Seq<char>,
    name: Seq<char>,
)
    ensures
        mentioned(edges, tasks.push(task), name) <==> mentioned(edges, tasks, name) || task == name,
{
    let more = tasks.push(task);
    assert(more[tasks.len() as int] == task);
    if tasks.contains(name) {
        assert(more[tasks.index_of(name)] == name);
    }
    if more.contains(name) && name != task {
        assert(tasks[more.index_of(name)] == name);
    }
}

} // verus!
