//! The hierarchy builder: folds the flat document-order node sequence into a
//! forest, keeping a stack of open nodes ordered by strictly ascending level.
//! A node moves off the stack under the node below it, or into the root list
//! when nothing is below it; an incoming node first pops everything not
//! strictly shallower than itself.

use vstd::prelude::*;
use crate::schema::Memo;
use crate::schema::MemoBuilder;
use crate::schema::MemoModel;
use crate::schema::memos_view;
use crate::schema::memo_wf;
use crate::segment::node_tidy;

verus! {

/// `c` appended as the last child of `p`.
pub open spec fn attach_child(p: MemoModel, c: MemoModel) -> MemoModel {
    MemoModel { children: p.children.push(c), ..p }
}

/// `m` with its children dropped, the shape in which the builder takes in
/// every flat node.
pub open spec fn flat_of(m: MemoModel) -> MemoModel {
    MemoModel { children: Seq::empty(), ..m }
}

/// One pop: the top of the stack becomes the last child of the node below
/// it, or a new root when the stack held nothing else.
pub open spec fn pop_once(roots: Seq<MemoModel>, stack: Seq<MemoModel>) -> (
    Seq<MemoModel>,
    Seq<MemoModel>,
)
    recommends
        stack.len() > 0,
{
    let top = stack.last();
    let rest = stack.drop_last();
    if rest.len() > 0 {
        (roots, rest.update(rest.len() - 1, attach_child(rest.last(), top)))
    } else {
        (roots.push(top), rest)
    }
}

/// Pops until the stack is empty or its top is strictly shallower than
/// `lvl`.
pub open spec fn drain_to(roots: Seq<MemoModel>, stack: Seq<MemoModel>, lvl: u8) -> (
    Seq<MemoModel>,
    Seq<MemoModel>,
)
    decreases stack.len(),
{
    if stack.len() == 0 || stack.last().level < lvl {
        (roots, stack)
    } else {
        drain_to(pop_once(roots, stack).0, pop_once(roots, stack).1, lvl)
    }
}

/// One incoming flat node: pop everything not strictly shallower, then open
/// the node on the stack, children dropped.
pub open spec fn hier_step(acc: (Seq<MemoModel>, Seq<MemoModel>), m: MemoModel) -> (
    Seq<MemoModel>,
    Seq<MemoModel>,
)
{
    let d = drain_to(acc.0, acc.1, m.level);
    (d.0, d.1.push(flat_of(m)))
}

/// The roots and open stack after folding in all the flat nodes.
pub open spec fn hier_run(flats: Seq<MemoModel>) -> (Seq<MemoModel>, Seq<MemoModel>)
    decreases flats.len(),
{
    if flats.len() == 0 {
        (Seq::empty(), Seq::empty())
    } else {
        hier_step(hier_run(flats.drop_last()), flats.last())
    }
}

/// The forest built from a flat node sequence: fold every node in, then pop
/// what is still open. Level zero is the shallowest level, so draining to it
/// empties the stack.
pub open spec fn build_forest(flats: Seq<MemoModel>) -> Seq<MemoModel> {
    drain_to(hier_run(flats).0, hier_run(flats).1, 0).0
}

/// The models of a sequence of node builders, elementwise.
pub open spec fn builders_view(s: Seq<MemoBuilder>) -> Seq<MemoModel> {
    s.map_values(|b: MemoBuilder| b@)
}

/// A flat node taken back into a builder so the stack can grow children
/// under it; whatever children it carried are dropped.
fn builder_of_flat(m: Memo) -> (r: MemoBuilder)
    ensures
        r@ == flat_of(m@),
{
    let Memo { level, title, description, content, code_blocks, children: _ } = m;
    let r = MemoBuilder {
        level,
        title,
        description,
        content,
        code_blocks,
        children: Vec::new(),
    };
    proof {
        assert(r@.children =~= Seq::<MemoModel>::empty());
        assert(r@.code_blocks =~= m@.code_blocks);
    }
    r
}

/// Whether the stack has a top that must be popped before a node of level
/// `lvl` can open: one not strictly shallower than `lvl`.
fn top_not_shallower(stack: &Vec<MemoBuilder>, lvl: u8) -> (r: bool)
    ensures
        r == (stack@.len() > 0 && builders_view(stack@).last().level >= lvl),
{
    if stack.len() == 0 {
        return false;
    }
    let top_level: u8 = stack[stack.len() - 1].level().level();
    proof {
        assert(builders_view(stack@).last() == stack@.last()@);
    }
    top_level >= lvl
}

/// Pops the stack until its top is strictly shallower than `lvl`, attaching
/// each popped node under the node below it or adding it to the roots.
fn drain_stack(roots: &mut Vec<Memo>, stack: &mut Vec<MemoBuilder>, lvl: u8)
    ensures
        memos_view(final(roots)@) == drain_to(
            memos_view(old(roots)@),
            builders_view(old(stack)@),
            lvl,
        ).0,
        builders_view(final(stack)@) == drain_to(
            memos_view(old(roots)@),
            builders_view(old(stack)@),
            lvl,
        ).1,
{
    let ghost r0 = memos_view(old(roots)@);
    let ghost s0 = builders_view(old(stack)@);
    while top_not_shallower(stack, lvl)
        invariant
            drain_to(memos_view(roots@), builders_view(stack@), lvl) == drain_to(r0, s0, lvl),
        decreases stack@.len(),
    {
        let ghost rv = memos_view(roots@);
        let ghost sv = builders_view(stack@);
        let completed = stack.pop().unwrap();
        proof {
            assert(sv.last() == completed@);
            assert(builders_view(stack@) =~= sv.drop_last());
        }
        let done: Memo = completed.build();
        if stack.len() > 0 {
            let parent = stack.pop().unwrap();
            proof {
                assert(sv.drop_last().last() == parent@);
                assert(builders_view(stack@) =~= sv.drop_last().drop_last());
            }
            let parent2 = parent.add_child(done);
            stack.push(parent2);
            proof {
                assert(builders_view(stack@) =~= sv.drop_last().drop_last().push(parent2@));
                assert(sv.drop_last().update(
                    sv.drop_last().len() - 1,
                    attach_child(sv.drop_last().last(), sv.last()),
                ) =~= sv.drop_last().drop_last().push(attach_child(parent@, completed@)));
                assert(pop_once(rv, sv).1 == builders_view(stack@));
                assert(pop_once(rv, sv).0 == memos_view(roots@));
            }
        } else {
            proof {
                assert(sv.drop_last().len() == 0);
            }
            roots.push(done);
            proof {
                assert(memos_view(roots@) =~= rv.push(completed@));
                assert(pop_once(rv, sv).0 == memos_view(roots@));
                assert(pop_once(rv, sv).1 =~= builders_view(stack@));
            }
        }
        proof {
            assert(drain_to(rv, sv, lvl) == drain_to(pop_once(rv, sv).0, pop_once(rv, sv).1, lvl));
        }
    }
}

/// Folds the flat document-order node sequence into a forest. Each incoming
/// node is taken with its children dropped; consecutive equal levels become
/// siblings; a skipped level nests directly under the nearest shallower
/// node; a node no deeper than everything open starts a new root.
pub fn build_hierarchy(flat_memos: Vec<Memo>) -> (r: Vec<Memo>)
    ensures
        memos_view(r@) == build_forest(memos_view(flat_memos@)),
{
    let ghost all = memos_view(flat_memos@);
    let mut rest = flat_memos;
    let mut roots: Vec<Memo> = Vec::new();
    let mut stack: Vec<MemoBuilder> = Vec::new();
    let ghost mut done: int = 0;
    proof {
        assert(all.take(0) =~= Seq::<MemoModel>::empty());
        assert(all.skip(0) =~= all);
        assert(memos_view(roots@) =~= Seq::<MemoModel>::empty());
        assert(builders_view(stack@) =~= Seq::<MemoModel>::empty());
    }
    while rest.len() > 0
        invariant
            0 <= done <= all.len(),
            memos_view(rest@) == all.skip(done),
            memos_view(roots@) == hier_run(all.take(done)).0,
            builders_view(stack@) == hier_run(all.take(done)).1,
        decreases all.len() - done,
    {
        proof {
            assert(memos_view(rest@).len() == rest@.len());
        }
        let m = rest.remove(0);
        proof {
            assert(m@ == all.skip(done)[0]);
            assert(all.skip(done)[0] == all[done]);
            assert(memos_view(rest@) =~= all.skip(done).remove(0));
            assert(all.skip(done).remove(0) =~= all.skip(done + 1));
        }
        let lvl: u8 = m.level().level();
        drain_stack(&mut roots, &mut stack, lvl);
        let mb = builder_of_flat(m);
        stack.push(mb);
        proof {
            assert(builders_view(stack@) =~= hier_step(hier_run(all.take(done)), all[done]).1);
            assert(all.take(done + 1).drop_last() =~= all.take(done));
            assert(all.take(done + 1).last() == all[done]);
            assert(hier_run(all.take(done + 1)) == hier_step(hier_run(all.take(done)), all[done]));
            done = done + 1;
        }
    }
    proof {
        assert(all.take(done) =~= all);
    }
    drain_stack(&mut roots, &mut stack, 0);
    roots
}



/// A well-shaped output tree: the node itself is tidy, and every child sits
/// strictly deeper than its parent, recursively.
pub open spec fn tree_ok(m: MemoModel) -> bool
    decreases m,
{
    &&& node_tidy(m)
    &&& forall|i: int|
        0 <= i < m.children.len() ==> (#[trigger] m.children[i]).level > m.level && tree_ok(
            m.children[i],
        )
}

/// A well-shaped tree keeps the child-level invariant.
pub proof fn lemma_tree_ok_wf(m: MemoModel)
    requires
        tree_ok(m),
    ensures
        memo_wf(m),
    decreases m,
{
    assert forall|i: int|
        0 <= i < m.children.len() implies (#[trigger] m.children[i]).level > m.level && memo_wf(
        m.children[i],
    ) by {
        lemma_tree_ok_wf(m.children[i]);
    }
}

/// The builder's stack invariant: every open node is a well-shaped tree and
/// levels ascend strictly from the bottom of the stack to the top.
pub open spec fn stack_ok(st: Seq<MemoModel>) -> bool {
    &&& forall|i: int| 0 <= i < st.len() ==> tree_ok(#[trigger] st[i])
    &&& forall|i: int, j: int| 0 <= i < j < st.len() ==> st[i].level < st[j].level
}

/// Every root of the forest is a well-shaped tree.
pub open spec fn forest_ok(rs: Seq<MemoModel>) -> bool {
    forall|i: int| 0 <= i < rs.len() ==> tree_ok(#[trigger] rs[i])
}

/// One pop keeps both invariants: the popped node goes under a strictly
/// shallower node or becomes a root, and levels below it are untouched.
proof fn lemma_pop_once_ok(roots: Seq<MemoModel>, stack: Seq<MemoModel>)
    requires
        stack.len() > 0,
        stack_ok(stack),
        forest_ok(roots),
    ensures
        stack_ok(pop_once(roots, stack).1),
        forest_ok(pop_once(roots, stack).0),
        pop_once(roots, stack).1.len() == stack.len() - 1,
        forall|i: int|
            0 <= i < stack.len() - 1 ==> (#[trigger] pop_once(roots, stack).1[i]).level
                == stack[i].level,
{
    let top = stack.last();
    let rest = stack.drop_last();
    if rest.len() > 0 {
        let p = rest.last();
        let att = attach_child(p, top);
        assert(p == stack[stack.len() - 2]);
        assert(stack[stack.len() - 2].level < stack[stack.len() - 1].level);
        assert(tree_ok(p));
        assert(tree_ok(top));
        assert forall|i: int|
            0 <= i < att.children.len() implies (#[trigger] att.children[i]).level > att.level
                && tree_ok(att.children[i]) by {
            if i < p.children.len() {
                assert(att.children[i] == p.children[i]);
            } else {
                assert(att.children[i] == top);
            }
        }
        assert(tree_ok(att));
        let ns = pop_once(roots, stack).1;
        assert(ns == rest.update(rest.len() - 1, att));
        assert forall|i: int| 0 <= i < ns.len() implies tree_ok(#[trigger] ns[i]) by {
            if i < ns.len() - 1 {
                assert(ns[i] == stack[i]);
            } else {
                assert(ns[i] == att);
            }
        }
        assert forall|i: int, j: int|
            0 <= i < j < ns.len() implies ns[i].level < ns[j].level by {
            assert(ns[i].level == stack[i].level);
            assert(ns[j].level == stack[j].level);
        }
    } else {
        let nr = pop_once(roots, stack).0;
        assert(nr == roots.push(top));
        assert forall|i: int| 0 <= i < nr.len() implies tree_ok(#[trigger] nr[i]) by {
            if i < roots.len() {
                assert(nr[i] == roots[i]);
            } else {
                assert(nr[i] == top);
            }
        }
    }
}

/// Draining keeps both invariants, and leaves the stack empty or with a top
/// strictly shallower than the incoming level.
proof fn lemma_drain_to_ok(roots: Seq<MemoModel>, stack: Seq<MemoModel>, lvl: u8)
    requires
        stack_ok(stack),
        forest_ok(roots),
    ensures
        stack_ok(drain_to(roots, stack, lvl).1),
        forest_ok(drain_to(roots, stack, lvl).0),
        drain_to(roots, stack, lvl).1.len() > 0 ==> drain_to(roots, stack, lvl).1.last().level
            < lvl,
    decreases stack.len(),
{
    if stack.len() == 0 || stack.last().level < lvl {
    } else {
        lemma_pop_once_ok(roots, stack);
        lemma_drain_to_ok(pop_once(roots, stack).0, pop_once(roots, stack).1, lvl);
    }
}

/// Folding in tidy flat nodes keeps both invariants.
proof fn lemma_hier_run_ok(flats: Seq<MemoModel>)
    requires
        forall|i: int| 0 <= i < flats.len() ==> node_tidy(#[trigger] flats[i]),
    ensures
        stack_ok(hier_run(flats).1),
        forest_ok(hier_run(flats).0),
    decreases flats.len(),
{
    if flats.len() > 0 {
        let prefix = flats.drop_last();
        let m = flats.last();
        assert forall|i: int| 0 <= i < prefix.len() implies node_tidy(#[trigger] prefix[i]) by {
            assert(prefix[i] == flats[i]);
        }
        lemma_hier_run_ok(prefix);
        let h = hier_run(prefix);
        lemma_drain_to_ok(h.0, h.1, m.level);
        let d = drain_to(h.0, h.1, m.level);
        let f = flat_of(m);
        assert(node_tidy(f));
        assert(tree_ok(f));
        let ns = d.1.push(f);
        assert forall|i: int| 0 <= i < ns.len() implies tree_ok(#[trigger] ns[i]) by {
            if i < d.1.len() {
                assert(ns[i] == d.1[i]);
            } else {
                assert(ns[i] == f);
            }
        }
        assert forall|i: int, j: int|
            0 <= i < j < ns.len() implies ns[i].level < ns[j].level by {
            if j < d.1.len() {
                assert(ns[i] == d.1[i]);
                assert(ns[j] == d.1[j]);
            } else {
                assert(ns[i] == d.1[i]);
                assert(ns[j] == f);
                if i < d.1.len() - 1 {
                    assert(d.1[i].level < d.1.last().level);
                }
                assert(d.1.last().level < m.level);
            }
        }
        assert(hier_run(flats) == (d.0, ns));
    }
}

/// The forest built from tidy flat nodes consists of well-shaped trees.
pub proof fn lemma_build_forest_ok(flats: Seq<MemoModel>)
    requires
        forall|i: int| 0 <= i < flats.len() ==> node_tidy(#[trigger] flats[i]),
    ensures
        forest_ok(build_forest(flats)),
{
    lemma_hier_run_ok(flats);
    lemma_drain_to_ok(hier_run(flats).0, hier_run(flats).1, 0);
}

} // verus!

verus! {

/// A tree laid back out flat, in document order: the node itself (children
/// dropped), then each subtree in order.
pub open spec fn flatten_tree(m: MemoModel) -> Seq<MemoModel>
    decreases m,
{
    seq![flat_of(m)] + flatten_forest(m.children)
}

/// A forest laid back out flat, in document order.
pub open spec fn flatten_forest(ms: Seq<MemoModel>) -> Seq<MemoModel>
    decreases ms,
{
    if ms.len() == 0 {
        Seq::empty()
    } else {
        flatten_tree(ms[0]) + flatten_forest(ms.drop_first())
    }
}

/// Flattening past a pushed tree appends that tree's flat form.
proof fn lemma_flatten_forest_push(ms: Seq<MemoModel>, x: MemoModel)
    ensures
        flatten_forest(ms.push(x)) == flatten_forest(ms) + flatten_tree(x),
    decreases ms.len(),
{
    let p = ms.push(x);
    if ms.len() == 0 {
        assert(p[0] == x);
        assert(p.drop_first() =~= Seq::<MemoModel>::empty());
        assert(flatten_forest(Seq::<MemoModel>::empty()) == Seq::<MemoModel>::empty());
        assert(flatten_forest(p) == flatten_tree(x) + Seq::<MemoModel>::empty());
        assert(flatten_tree(x) + Seq::<MemoModel>::empty() =~= flatten_tree(x));
        assert(flatten_forest(ms) + flatten_tree(x) =~= flatten_tree(x));
    } else {
        assert(p[0] == ms[0]);
        assert(p.drop_first() =~= ms.drop_first().push(x));
        lemma_flatten_forest_push(ms.drop_first(), x);
        assert(flatten_forest(p) == flatten_tree(ms[0]) + (flatten_forest(ms.drop_first())
            + flatten_tree(x)));
        assert(flatten_tree(ms[0]) + (flatten_forest(ms.drop_first()) + flatten_tree(x))
            =~= (flatten_tree(ms[0]) + flatten_forest(ms.drop_first())) + flatten_tree(x));
    }
}

/// The flat content of the whole machine: the roots already closed, then the
/// still-open stack, bottom first.
pub open spec fn machine_flat(roots: Seq<MemoModel>, stack: Seq<MemoModel>) -> Seq<MemoModel> {
    flatten_forest(roots) + flatten_forest(stack)
}

/// One pop moves a tree but keeps the machine's flat content.
proof fn lemma_pop_once_flat(roots: Seq<MemoModel>, stack: Seq<MemoModel>)
    requires
        stack.len() > 0,
    ensures
        machine_flat(pop_once(roots, stack).0, pop_once(roots, stack).1) == machine_flat(
            roots,
            stack,
        ),
{
    let top = stack.last();
    let rest = stack.drop_last();
    assert(stack =~= rest.push(top));
    lemma_flatten_forest_push(rest, top);
    if rest.len() > 0 {
        let p = rest.last();
        let att = attach_child(p, top);
        let small = rest.drop_last();
        assert(rest =~= small.push(p));
        lemma_flatten_forest_push(small, p);
        let ns = pop_once(roots, stack).1;
        assert(ns =~= small.push(att));
        lemma_flatten_forest_push(small, att);
        assert(flat_of(att) == flat_of(p));
        lemma_flatten_forest_push(p.children, top);
        assert(flatten_tree(att) == seq![flat_of(p)] + (flatten_forest(p.children)
            + flatten_tree(top)));
        assert(seq![flat_of(p)] + (flatten_forest(p.children) + flatten_tree(top))
            =~= (seq![flat_of(p)] + flatten_forest(p.children)) + flatten_tree(top));
        assert(flatten_tree(att) == flatten_tree(p) + flatten_tree(top));
        assert(flatten_forest(ns) == (flatten_forest(small) + flatten_tree(p)) + flatten_tree(
            top,
        )) by {
            assert(flatten_forest(small) + (flatten_tree(p) + flatten_tree(top))
                =~= (flatten_forest(small) + flatten_tree(p)) + flatten_tree(top));
        }
        assert(flatten_forest(ns) == flatten_forest(rest) + flatten_tree(top));
        assert(machine_flat(roots, ns) =~= machine_flat(roots, stack));
    } else {
        let nr = pop_once(roots, stack).0;
        assert(nr == roots.push(top));
        lemma_flatten_forest_push(roots, top);
        assert(flatten_forest(rest) =~= Seq::<MemoModel>::empty());
        assert(flatten_forest(stack) =~= flatten_tree(top));
        assert(machine_flat(nr, rest) =~= machine_flat(roots, stack));
    }
}

/// Draining keeps the machine's flat content.
proof fn lemma_drain_to_flat(roots: Seq<MemoModel>, stack: Seq<MemoModel>, lvl: u8)
    ensures
        machine_flat(drain_to(roots, stack, lvl).0, drain_to(roots, stack, lvl).1) == machine_flat(
            roots,
            stack,
        ),
    decreases stack.len(),
{
    if stack.len() == 0 || stack.last().level < lvl {
    } else {
        lemma_pop_once_flat(roots, stack);
        lemma_drain_to_flat(pop_once(roots, stack).0, pop_once(roots, stack).1, lvl);
    }
}

/// Draining to the shallowest level leaves nothing open.
proof fn lemma_drain_to_zero_empties(roots: Seq<MemoModel>, stack: Seq<MemoModel>)
    ensures
        drain_to(roots, stack, 0).1 == Seq::<MemoModel>::empty(),
    decreases stack.len(),
{
    if stack.len() == 0 {
        assert(drain_to(roots, stack, 0).1 =~= Seq::<MemoModel>::empty());
    } else {
        lemma_drain_to_zero_empties(pop_once(roots, stack).0, pop_once(roots, stack).1);
    }
}

/// The machine's flat content after folding in a prefix of nodes is exactly
/// that prefix, each node with its children dropped.
proof fn lemma_hier_run_flat(flats: Seq<MemoModel>)
    ensures
        machine_flat(hier_run(flats).0, hier_run(flats).1) == flats.map_values(
            |m: MemoModel| flat_of(m),
        ),
    decreases flats.len(),
{
    if flats.len() == 0 {
        assert(machine_flat(hier_run(flats).0, hier_run(flats).1) =~= Seq::<MemoModel>::empty());
        assert(flats.map_values(|m: MemoModel| flat_of(m)) =~= Seq::<MemoModel>::empty());
    } else {
        let prefix = flats.drop_last();
        let m = flats.last();
        lemma_hier_run_flat(prefix);
        let h = hier_run(prefix);
        lemma_drain_to_flat(h.0, h.1, m.level);
        let d = drain_to(h.0, h.1, m.level);
        let f = flat_of(m);
        lemma_flatten_forest_push(d.1, f);
        assert(flatten_tree(f) =~= seq![flat_of(f)] + flatten_forest(Seq::empty()));
        assert(flat_of(f) == f);
        assert(flatten_tree(f) =~= seq![f]);
        assert(machine_flat(d.0, d.1.push(f)) =~= machine_flat(d.0, d.1) + seq![f]) by {
            assert(flatten_forest(d.0) + (flatten_forest(d.1) + seq![f]) =~= (flatten_forest(d.0)
                + flatten_forest(d.1)) + seq![f]);
        }
        assert(machine_flat(d.0, d.1.push(f)) =~= prefix.map_values(|q: MemoModel| flat_of(q))
            + seq![f]);
        assert(flats.map_values(|q: MemoModel| flat_of(q)) =~= prefix.map_values(
            |q: MemoModel| flat_of(q),
        ) + seq![flat_of(m)]);
    }
}

/// Law: building the forest loses, duplicates and reorders nothing. Laying
/// the finished forest back out flat, parents before their children and
/// siblings in order, gives exactly the flat node sequence that was folded
/// in, each node with its children dropped.
pub proof fn lemma_build_forest_complete(flats: Seq<MemoModel>)
    ensures
        flatten_forest(build_forest(flats)) == flats.map_values(|m: MemoModel| flat_of(m)),
{
    lemma_hier_run_flat(flats);
    let h = hier_run(flats);
    lemma_drain_to_flat(h.0, h.1, 0);
    lemma_drain_to_zero_empties(h.0, h.1);
    let fin = drain_to(h.0, h.1, 0);
    assert(flatten_forest(fin.1) =~= Seq::<MemoModel>::empty());
    assert(flatten_forest(fin.0) =~= flatten_forest(fin.0) + flatten_forest(fin.1));
}

} // verus!
