//! What a model is made of.

use vstd::prelude::*;
use vstd::string::*;
use crate::model::{views, Model, NodeView};
use crate::text::str_eq;

verus! {

/// How many of the first `n` nodes are of a type.
pub open spec fn nodes_of_type(nodes: Seq<NodeView>, op_type: Seq<char>, n: nat) -> nat
    decreases n,
{
    if n == 0 {
        0
    } else {
        nodes_of_type(nodes, op_type, (n - 1) as nat) + (if nodes[n - 1].op_type == op_type {
            1nat
        } else {
            0nat
        })
    }
}

fn count_nodes(model: &Model, op_type: &str) -> (r: usize)
    ensures
        r == nodes_of_type(model@.graph.nodes, op_type@, model@.graph.nodes.len()),
{
    let ghost nodes = model@.graph.nodes;
    let mut n: usize = 0;
    let mut i: usize = 0;
    while i < model.nodes.len()
        invariant
            i <= model.nodes@.len(),
            nodes == views(model.nodes@),
            n <= i,
            n == nodes_of_type(nodes, op_type@, i as nat),
        decreases model.nodes@.len() - i,
    {
        if str_eq(model.nodes[i].op_type.as_str(), op_type) {
            n = n + 1;
        }
        i = i + 1;
    }
    n
}

/// Whether a list of types and counts holds a type.
pub open spec fn lists_type(counts: Seq<(String, usize)>, op_type: Seq<char>) -> bool {
    exists|i: int| 0 <= i < counts.len() && (#[trigger] counts[i]).0@ == op_type
}

fn has_type(counts: &Vec<(String, usize)>, op_type: &str) -> (r: bool)
    ensures
        r == lists_type(counts@, op_type@),
{
    let mut i: usize = 0;
    while i < counts.len()
        invariant
            i <= counts@.len(),
            forall|j: int| 0 <= j < i ==> (#[trigger] counts@[j]).0@ != op_type@,
        decreases counts@.len() - i,
    {
        if str_eq(counts[i].0.as_str(), op_type) {
            return true;
        }
        i = i + 1;
    }
    false
}

/// Whether a list of types and counts is in order: no type twice, the most frequent first.
pub open spec fn in_order(counts: Seq<(String, usize)>) -> bool {
    forall|i: int, j: int|
        #![trigger counts[i], counts[j]]
        0 <= i < j < counts.len() ==> counts[i].0@ != counts[j].0@ && counts[i].1 >= counts[j].1
}

fn place_of(counts: &Vec<(String, usize)>, n: usize) -> (r: usize)
    requires
        in_order(counts@),
    ensures
        r <= counts@.len(),
        forall|j: int| 0 <= j < r ==> (#[trigger] counts@[j]).1 >= n,
        forall|j: int| r <= j < counts@.len() ==> (#[trigger] counts@[j]).1 < n,
{
    let mut i: usize = 0;
    while i < counts.len() && counts[i].1 >= n
        invariant
            i <= counts@.len(),
            forall|j: int| 0 <= j < i ==> (#[trigger] counts@[j]).1 >= n,
        decreases counts@.len() - i,
    {
        i = i + 1;
    }
    i
}

/// Count the nodes of each type, the most frequent first.
pub fn count_op_types(model: &Model) -> (r: Vec<(String, usize)>)
    ensures
        in_order(r@),
        forall|i: int|
            0 <= i < r@.len() ==> {
                &&& (#[trigger] r@[i]).1 > 0
                &&& r@[i].1 == nodes_of_type(
                    model@.graph.nodes,
                    r@[i].0@,
                    model@.graph.nodes.len(),
                )
            },
        forall|k: int|
            0 <= k < model@.graph.nodes.len() ==> lists_type(
                r@,
                (#[trigger] model@.graph.nodes[k]).op_type,
            ),
{
    let ghost nodes = model@.graph.nodes;
    let mut r: Vec<(String, usize)> = Vec::new();
    let mut i: usize = 0;
    while i < model.nodes.len()
        invariant
            i <= model.nodes@.len(),
            nodes == model@.graph.nodes,
            nodes == views(model.nodes@),
            in_order(r@),
            forall|j: int|
                0 <= j < r@.len() ==> {
                    &&& (#[trigger] r@[j]).1 > 0
                    &&& r@[j].1 == nodes_of_type(nodes, r@[j].0@, nodes.len())
                },
            forall|k: int| 0 <= k < i ==> lists_type(r@, (#[trigger] nodes[k]).op_type),
        decreases model.nodes@.len() - i,
    {
        let op_type: &String = &model.nodes[i].op_type;
        if !has_type(&r, op_type.as_str()) {
            let n: usize = count_nodes(model, op_type.as_str());
            proof {
                lemma_counted(nodes, i as int, nodes.len());
            }
            let place: usize = place_of(&r, n);
            let ghost before = r@;
            let entry: (String, usize) = (op_type.clone(), n);
            r.insert(place, entry);
            proof {
                assert(r@ == before.insert(place as int, entry));
                assert(r@[place as int] == entry);
                assert forall|k: int| 0 <= k < i implies lists_type(
                    r@,
                    (#[trigger] nodes[k]).op_type,
                ) by {
                    let j = choose|j: int|
                        0 <= j < before.len() && (#[trigger] before[j]).0@ == nodes[k].op_type;
                    let moved = if j < place {
                        j
                    } else {
                        j + 1
                    };
                    assert(r@[moved] == before[j]);
                }
            }
        }
        i = i + 1;
    }
    r
}

/// A node is counted.
proof fn lemma_counted(nodes: Seq<NodeView>, k: int, n: nat)
    requires
        0 <= k < n,
    ensures
        nodes_of_type(nodes, nodes[k].op_type, n) > 0,
    decreases n,
{
    if k < n - 1 {
        lemma_counted(nodes, k, (n - 1) as nat);
    }
}

} // verus!
