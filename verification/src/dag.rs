//! Causal ordering of a graph whose nodes are numbered `0..n` and whose links
//! point from a node to the nodes that must come before it.

use vstd::prelude::*;

verus! {

/// The link rows of a graph as sequences: row `i` lists the nodes that node
/// `i` points to.
pub open spec fn rows(links: Seq<Vec<usize>>) -> Seq<Seq<usize>> {
    links.map_values(|row: Vec<usize>| row@)
}

/// `node` stands in `order` at some position below `p`.
pub open spec fn occurs_before(order: Seq<usize>, node: usize, p: int) -> bool {
    exists|q: int| 0 <= q < p && q < order.len() && #[trigger] order[q] == node
}

/// Every node listed in `order` is a node of the graph, none is listed
/// twice, and each stands after all the nodes it points to.
pub open spec fn is_causal_prefix(links: Seq<Seq<usize>>, order: Seq<usize>) -> bool {
    &&& forall|p: int| 0 <= p < order.len() ==> (#[trigger] order[p]) < links.len()
    &&& forall|p: int, q: int| 0 <= p < q < order.len() ==> order[p] != order[q]
    &&& forall|p: int, k: int|
        0 <= p < order.len() && 0 <= k < links[order[p] as int].len() ==> occurs_before(
            order,
            #[trigger] links[order[p] as int][k],
            p,
        )
}

/// `order` visits every node of the graph exactly once, and each node only
/// after all the nodes it points to.
pub open spec fn is_causal_order(links: Seq<Seq<usize>>, order: Seq<usize>) -> bool {
    &&& order.len() == links.len()
    &&& is_causal_prefix(links, order)
    &&& forall|v: usize| v < links.len() ==> occurs_before(order, v, order.len() as int)
}

/// All the nodes of `row` are marked in `done`.
pub open spec fn row_done(row: Seq<usize>, done: Seq<bool>) -> bool {
    forall|k: int| 0 <= k < row.len() ==> (#[trigger] row[k]) < done.len() && done[row[k] as int]
}

/// How many entries of `marks` are `false`.
pub open spec fn count_open(marks: Seq<bool>) -> nat
    decreases marks.len(),
{
    if marks.len() == 0 {
        0
    } else {
        count_open(marks.drop_last()) + if marks.last() {
            0nat
        } else {
            1nat
        }
    }
}

proof fn lemma_count_open_bounds(marks: Seq<bool>)
    ensures
        count_open(marks) <= marks.len(),
        count_open(marks) == 0 ==> forall|i: int| 0 <= i < marks.len() ==> marks[i],
        (forall|i: int| 0 <= i < marks.len() ==> !marks[i]) ==> count_open(marks) == marks.len(),
    decreases marks.len(),
{
    if marks.len() > 0 {
        let front = marks.drop_last();
        lemma_count_open_bounds(front);
        assert forall|i: int| 0 <= i < marks.len() && count_open(marks) == 0 implies marks[i] by {
            if i < front.len() {
                assert(front[i] == marks[i]);
            }
        }
        if forall|i: int| 0 <= i < marks.len() ==> !marks[i] {
            assert forall|i: int| 0 <= i < front.len() implies !front[i] by {
                assert(front[i] == marks[i]);
            }
        }
    }
}

proof fn lemma_count_open_mark(marks: Seq<bool>, at: int)
    requires
        0 <= at < marks.len(),
        !marks[at],
    ensures
        count_open(marks.update(at, true)) + 1 == count_open(marks),
    decreases marks.len(),
{
    let after = marks.update(at, true);
    if at == marks.len() - 1 {
        assert(after.drop_last() =~= marks.drop_last());
    } else {
        lemma_count_open_mark(marks.drop_last(), at);
        assert(after.drop_last() =~= marks.drop_last().update(at, true));
    }
}

/// The first position of `order` whose node is not marked in `done`, given
/// that there is one below `bound`.
proof fn lemma_first_open(order: Seq<usize>, done: Seq<bool>, bound: int) -> (first: int)
    requires
        0 <= bound < order.len(),
        forall|p: int| 0 <= p < order.len() ==> (#[trigger] order[p]) < done.len(),
        !done[order[bound] as int],
    ensures
        0 <= first <= bound,
        !done[order[first] as int],
        forall|p: int| 0 <= p < first ==> done[(#[trigger] order[p]) as int],
    decreases bound,
{
    if exists|p: int| 0 <= p < bound && !done[(#[trigger] order[p]) as int] {
        let p = choose|p: int| 0 <= p < bound && !done[(#[trigger] order[p]) as int];
        lemma_first_open(order, done, p)
    } else {
        bound
    }
}

/// Where every unmarked node points to a node that is unmarked or is no node
/// of the graph, and some node is unmarked, the graph has no causal order.
proof fn lemma_stuck_means_no_order(links: Seq<Seq<usize>>, done: Seq<bool>, stuck: usize)
    requires
        done.len() == links.len(),
        stuck < links.len(),
        !done[stuck as int],
        forall|v: int| 0 <= v < links.len() && !done[v] ==> !row_done(#[trigger] links[v], done),
    ensures
        forall|order: Seq<usize>| !is_causal_order(links, order),
{
    assert forall|order: Seq<usize>| !is_causal_order(links, order) by {
        if is_causal_order(links, order) {
            assert(occurs_before(order, stuck, order.len() as int));
            let at = choose|q: int| 0 <= q < order.len() && #[trigger] order[q] == stuck;
            let first = lemma_first_open(order, done, at);
            let node = order[first];
            assert(!row_done(links[node as int], done));
            let k = choose|k: int|
                0 <= k < links[node as int].len() && !((#[trigger] links[node as int][k])
                    < done.len() && done[links[node as int][k] as int]);
            let target = links[node as int][k];
            assert(occurs_before(order, target, first));
            let q = choose|q: int| 0 <= q < first && q < order.len() && #[trigger] order[q] == target;
            assert(done[order[q] as int]);
        }
    }
}

/// Whether every node of `row` is marked in `done`.
fn all_done(row: &Vec<usize>, done: &Vec<bool>) -> (r: bool)
    ensures
        r == row_done(row@, done@),
{
    let mut k: usize = 0;
    while k < row.len()
        invariant
            k <= row.len(),
            forall|j: int| 0 <= j < k ==> (#[trigger] row@[j]) < done.len() && done@[row@[j] as int],
        decreases row.len() - k,
    {
        let target = row[k];
        if target >= done.len() || !done[target] {
            return false;
        }
        k += 1;
    }
    true
}

/// What holds between the marks and the order while a causal order is built.
pub open spec fn marks_follow(links: Seq<Seq<usize>>, done: Seq<bool>, order: Seq<usize>) -> bool {
    &&& done.len() == links.len()
    &&& is_causal_prefix(links, order)
    &&& order.len() + count_open(done) == links.len()
    &&& forall|v: usize|
        v < links.len() ==> (#[trigger] done[v as int] <==> occurs_before(
            order,
            v,
            order.len() as int,
        ))
}

proof fn lemma_place(links: Seq<Seq<usize>>, done: Seq<bool>, order: Seq<usize>, node: usize)
    requires
        marks_follow(links, done, order),
        node < links.len(),
        !done[node as int],
        row_done(links[node as int], done),
    ensures
        marks_follow(links, done.update(node as int, true), order.push(node)),
{
    let done2 = done.update(node as int, true);
    let order2 = order.push(node);
    lemma_count_open_mark(done, node as int);
    assert forall|p: int, q: int| 0 <= p < q < order2.len() implies order2[p] != order2[q] by {
        if q == order.len() {
            if order2[p] == node {
                assert(order[p] == node);
                assert(occurs_before(order, node, order.len() as int));
            }
        }
    }
    assert forall|p: int, k: int|
        0 <= p < order2.len() && 0 <= k < links[order2[p] as int].len() implies occurs_before(
        order2,
        #[trigger] links[order2[p] as int][k],
        p,
    ) by {
        let target = links[order2[p] as int][k];
        if p == order.len() {
            assert(links[node as int][k] < done.len() && done[target as int]);
            assert(occurs_before(order, target, order.len() as int));
            let q = choose|q: int| 0 <= q < order.len() && #[trigger] order[q] == target;
            assert(order2[q] == target);
        } else {
            assert(order2[p] == order[p]);
            assert(occurs_before(order, target, p));
            let q = choose|q: int| 0 <= q < p && q < order.len() && #[trigger] order[q] == target;
            assert(order2[q] == target);
        }
    }
    assert forall|v: usize| v < links.len() implies (#[trigger] done2[v as int] <==> occurs_before(
        order2,
        v,
        order2.len() as int,
    )) by {
        if v == node {
            assert(order2[order.len() as int] == node);
        } else {
            if done[v as int] {
                assert(occurs_before(order, v, order.len() as int));
                let q = choose|q: int| 0 <= q < order.len() && #[trigger] order[q] == v;
                assert(order2[q] == v);
            }
            if occurs_before(order2, v, order2.len() as int) {
                let q = choose|q: int| 0 <= q < order2.len() && #[trigger] order2[q] == v;
                assert(q < order.len());
                assert(order[q] == v);
                assert(occurs_before(order, v, order.len() as int));
            }
        }
    }
}

/// A causal order of the graph, if it has one.
///
/// The nodes are taken in rounds: each round walks the nodes in their
/// numbering and places every node whose links are all placed. The result is
/// therefore the same for the same graph.
#[verifier::rlimit(40)]
pub fn causal_order(links: &Vec<Vec<usize>>) -> (r: Option<Vec<usize>>)
    ensures
        r matches Some(order) ==> is_causal_order(rows(links@), order@),
        r is None ==> forall|order: Seq<usize>| !is_causal_order(rows(links@), order),
{
    let n = links.len();
    let mut done: Vec<bool> = Vec::new();
    while done.len() < n
        invariant
            done.len() <= n,
            forall|i: int| 0 <= i < done.len() ==> !done@[i],
        decreases n - done.len(),
    {
        done.push(false);
    }
    let mut order: Vec<usize> = Vec::new();
    proof {
        lemma_count_open_bounds(done@);
    }
    loop
        invariant
            n == links.len(),
            marks_follow(rows(links@), done@, order@),
        decreases count_open(done@),
    {
        let ghost done_before = done@;
        let mut placed_any = false;
        let mut stuck: Option<usize> = None;
        let mut i: usize = 0;
        while i < n
            invariant
                n == links.len(),
                i <= n,
                marks_follow(rows(links@), done@, order@),
                placed_any ==> count_open(done@) < count_open(done_before),
                !placed_any ==> done@ == done_before,
                !placed_any ==> forall|v: int|
                    0 <= v < i && !done@[v] ==> !row_done(#[trigger] rows(links@)[v], done@),
                !placed_any ==> (stuck matches Some(s) ==> s < n && !done@[s as int]),
                !placed_any && stuck is None ==> forall|v: int| 0 <= v < i ==> done@[v],
            decreases n - i,
        {
            if !done[i] {
                if all_done(&links[i], &done) {
                    proof {
                        lemma_place(rows(links@), done@, order@, i);
                    }
                    done.set(i, true);
                    order.push(i);
                    placed_any = true;
                } else {
                    stuck = Some(i);
                }
            }
            i += 1;
        }
        if !placed_any {
            match stuck {
                Some(s) => {
                    proof {
                        lemma_stuck_means_no_order(rows(links@), done@, s);
                    }
                    return None;
                },
                None => {
                    proof {
                        lemma_all_marked(done@);
                        assert forall|v: usize| v < n implies occurs_before(
                            order@,
                            v,
                            order@.len() as int,
                        ) by {
                            assert(done@[v as int]);
                        }
                    }
                    return Some(order);
                },
            }
        }
    }
}

proof fn lemma_all_marked(marks: Seq<bool>)
    requires
        forall|i: int| 0 <= i < marks.len() ==> marks[i],
    ensures
        count_open(marks) == 0,
    decreases marks.len(),
{
    if marks.len() > 0 {
        let front = marks.drop_last();
        assert forall|i: int| 0 <= i < front.len() implies front[i] by {
            assert(front[i] == marks[i]);
        }
        lemma_all_marked(front);
    }
}

} // verus!
