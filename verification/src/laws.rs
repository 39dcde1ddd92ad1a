//! What holds of every profile and of every step of one: the shape is kept,
//! each instruction is counted exactly once, the trie only grows, recursion
//! is flattened and every node stands for a call path of its own.

use vstd::prelude::*;

use crate::folded::{decimal, folded_line, folded_lines, folded_text, frames_text};
use vstd::set_lib::{lemma_int_range, lemma_map_size, set_int_range};
use crate::profile::{
    FuncInfo, count_sum, last_entry, lemma_last_entry_found, lemma_path_frame, path_of, ProfileView, TrieNode,
};

verus! {

/// The function frames on the shadow stack, below the root and up to frame
/// `i`, are exactly the call path of node `stack[i]`.
pub proof fn lemma_stack_path(v: ProfileView, i: int)
    requires
        v.shaped(),
        0 <= i < v.stack.len(),
    ensures
        path_of(v.nodes, v.stack[i] as int) == Seq::new(
            i as nat,
            |j: int| v.nodes[v.stack[j + 1] as int].1,
        ),
    decreases i,
{
    if i > 0 {
        lemma_stack_path(v, i - 1);
        let n = v.stack[i] as int;
        assert(v.nodes[v.stack[i] as int].0 == Some(v.stack[i - 1]));
        assert(n != 0);
        assert(v.node_ok(n));
        assert(Seq::new(i as nat, |j: int| v.nodes[v.stack[j + 1] as int].1) =~= Seq::new(
            (i - 1) as nat,
            |j: int| v.nodes[v.stack[j + 1] as int].1,
        ).push(v.nodes[n].1));
    } else {
        assert(Seq::new(0, |j: int| v.nodes[v.stack[j + 1] as int].1) =~= Seq::<usize>::empty());
    }
}

/// A function has a frame on the shadow stack exactly when it lies on the
/// call path of the node on top.
pub proof fn lemma_on_stack_is_on_path(v: ProfileView, f: usize)
    requires
        v.shaped(),
        (f as int) < v.funcs.len(),
    ensures
        v.on_stack(f) == path_of(v.nodes, v.top() as int).contains(f),
{
    let k = v.stack.len() - 1;
    lemma_stack_path(v, k);
    let p = path_of(v.nodes, v.top() as int);
    if v.on_stack(f) {
        let i = choose|i: int| 0 <= i < v.stack.len() && v.nodes[v.stack[i] as int].1 == f;
        assert(i != 0);
        assert(p[i - 1] == f);
    }
    if p.contains(f) {
        let j = choose|j: int| 0 <= j < p.len() && p[j] == f;
        assert(v.nodes[v.stack[j + 1] as int].1 == f);
    }
}

/// The search for a covering frame yields one of the frames searched.
pub proof fn lemma_deepest_covering_bound(v: ProfileView, pc: u64, k: int)
    ensures
        v.deepest_covering(pc, k) matches Some(d) ==> 0 <= d < k && v.covers(v.stack[d], pc),
    decreases k,
{
    if k > 0 {
        lemma_deepest_covering_bound(v, pc, k - 1);
    }
}

/// A count changed in one node changes the total by the same amount.
pub proof fn lemma_count_sum_update(s: Seq<TrieNode>, i: int, x: TrieNode)
    requires
        0 <= i < s.len(),
    ensures
        count_sum(s.update(i, x)) == count_sum(s) - s[i].2 + x.2,
    decreases s.len(),
{
    let t = s.update(i, x);
    if i == s.len() - 1 {
        assert(t.drop_last() =~= s.drop_last());
    } else {
        lemma_count_sum_update(s.drop_last(), i, x);
        assert(t.drop_last() =~= s.drop_last().update(i, x));
    }
}

/// No node holds more than the total.
pub proof fn lemma_count_le_sum(s: Seq<TrieNode>, i: int)
    requires
        0 <= i < s.len(),
    ensures
        s[i].2 <= count_sum(s),
    decreases s.len(),
{
    if i < s.len() - 1 {
        lemma_count_le_sum(s.drop_last(), i);
        assert(s.drop_last()[i] == s[i]);
    }
    assert(count_sum(s.drop_last()) >= 0) by {
        lemma_count_sum_nonneg(s.drop_last());
    }
}

/// Totals are never negative.
pub proof fn lemma_count_sum_nonneg(s: Seq<TrieNode>)
    ensures
        count_sum(s) >= 0,
    decreases s.len(),
{
    if s.len() > 0 {
        lemma_count_sum_nonneg(s.drop_last());
    }
}

/// Entering a function keeps the shape of the profile.
proof fn lemma_enter_wf(v: ProfileView, f: usize)
    requires
        v.shaped(),
        v.nodes.len() < usize::MAX,
        (f as int) < v.funcs.len(),
        !v.on_stack(f),
    ensures
        v.enter(f).shaped(),
        v.enter(f).nodes.len() == v.nodes.len() || v.enter(f).top() == v.nodes.len(),
        v.enter(f).nodes.len() <= v.nodes.len() + 1,
        v.enter(f).nodes.len() >= v.nodes.len(),
        forall|n: int|
            0 <= n < v.nodes.len() ==> #[trigger] v.enter(f).nodes[n] == v.nodes[n],
        count_sum(v.enter(f).nodes) == count_sum(v.nodes),
        v.enter(f).nodes.len() > v.nodes.len() ==> v.enter(f).nodes[v.nodes.len() as int].2 == 0,
{
    let parent = v.top();
    let w = v.enter(f);
    if exists|n: int| v.is_child(n, parent, f) {
        let n = choose|n: int| v.is_child(n, parent, f);
        assert(w.stack == v.stack.push(n as usize));
        assert(w.nodes == v.nodes);
        assert forall|k: int| 1 <= k < w.nodes.len() implies #[trigger] w.node_ok(k) by {
            assert(v.node_ok(k));
        }
        assert(w.stack[0] == v.stack[0]);
        assert forall|i: int| 0 <= i < w.stack.len() implies (#[trigger] w.stack[i] as int)
            < w.nodes.len() by {
            if i < v.stack.len() {
                assert(w.stack[i] == v.stack[i]);
            }
        }
        assert forall|i: int|
            1 <= i < w.stack.len() implies w.nodes[#[trigger] w.stack[i] as int].0 == Some(
            w.stack[i - 1],
        ) by {
            if i < v.stack.len() {
                assert(w.stack[i] == v.stack[i]);
            }
        }
    } else {
        let len = v.nodes.len();
        let new_node: TrieNode = (Some(parent), f, 0u64);
        assert(w.nodes == v.nodes.push(new_node));
        lemma_on_stack_is_on_path(v, f);
        assert forall|m: int| 0 <= m < len implies path_of(w.nodes, m) == path_of(v.nodes, m) by {
            lemma_path_frame(v.nodes, w.nodes, m);
        }
        assert forall|n: int| 1 <= n < w.nodes.len() implies #[trigger] w.node_ok(n) by {
            if n < len {
                assert(v.node_ok(n));
            }
        }
        assert forall|n: int|
            1 <= n < w.nodes.len() implies !#[trigger] path_of(
            w.nodes,
            w.nodes[n].0->0 as int,
        ).contains(w.nodes[n].1) by {
            if n < len {
                assert(v.node_ok(n));
                assert(!path_of(v.nodes, v.nodes[n].0->0 as int).contains(v.nodes[n].1));
            }
        }
        assert forall|n: int, m: int|
            1 <= n < w.nodes.len() && 1 <= m < w.nodes.len() && n != m implies !(
            #[trigger] w.nodes[n].0 == #[trigger] w.nodes[m].0 && w.nodes[n].1 == w.nodes[m].1) by {
            if n == len {
                assert(!v.is_child(m, parent, f));
            } else if m == len {
                assert(!v.is_child(n, parent, f));
            }
        }
        assert forall|i: int|
            1 <= i < w.stack.len() implies w.nodes[#[trigger] w.stack[i] as int].0 == Some(
            w.stack[i - 1],
        ) by {
            if i < v.stack.len() {
                assert(w.stack[i] == v.stack[i]);
            }
        }
        assert(w.nodes.drop_last() =~= v.nodes);
        assert(w.stack[0] == v.stack[0]);
        assert forall|i: int| 0 <= i < w.stack.len() implies (#[trigger] w.stack[i] as int)
            < w.nodes.len() by {
            if i < v.stack.len() {
                assert(w.stack[i] == v.stack[i]);
            }
        }
        assert(w.nodes[0] == v.nodes[0]);
    }
}

/// Counting one instruction on node `t` keeps the shape of the profile.
proof fn lemma_tick_wf(m: ProfileView)
    requires
        m.shaped(),
        forall|n: int| 1 <= n < m.nodes.len() && n != m.top() ==> #[trigger] m.nodes[n].2 >= 1,
        m.nodes[m.top() as int].2 < u64::MAX,
    ensures
        ({
            let t = m.top() as int;
            ProfileView {
                funcs: m.funcs,
                stack: m.stack,
                nodes: m.nodes.update(t, (m.nodes[t].0, m.nodes[t].1, (m.nodes[t].2 + 1) as u64)),
            }.wf()
        }),
{
    let t = m.top() as int;
    let nodes2 = m.nodes.update(t, (m.nodes[t].0, m.nodes[t].1, (m.nodes[t].2 + 1) as u64));
    let w = ProfileView { funcs: m.funcs, stack: m.stack, nodes: nodes2 };
    assert(0 <= t < m.nodes.len());
    assert forall|k: int| 0 <= k < m.nodes.len() implies path_of(w.nodes, k) == path_of(
        m.nodes,
        k,
    ) by {
        lemma_path_frame(m.nodes, w.nodes, k);
    }
    assert forall|n: int| 1 <= n < w.nodes.len() implies #[trigger] w.node_ok(n) by {
        assert(m.node_ok(n));
    }
    assert forall|n: int|
        1 <= n < w.nodes.len() implies !#[trigger] path_of(
        w.nodes,
        w.nodes[n].0->0 as int,
    ).contains(w.nodes[n].1) by {
        assert(m.node_ok(n));
        assert(!path_of(m.nodes, m.nodes[n].0->0 as int).contains(m.nodes[n].1));
    }
    assert forall|n: int, k: int|
        1 <= n < w.nodes.len() && 1 <= k < w.nodes.len() && n != k implies !(
        #[trigger] w.nodes[n].0 == #[trigger] w.nodes[k].0 && w.nodes[n].1 == w.nodes[k].1) by {
        assert(!(m.nodes[n].0 == m.nodes[k].0 && m.nodes[n].1 == m.nodes[k].1));
    }
    assert forall|i: int|
        1 <= i < w.stack.len() implies w.nodes[#[trigger] w.stack[i] as int].0 == Some(
        w.stack[i - 1],
    ) by {
        assert(m.nodes[m.stack[i] as int].0 == Some(m.stack[i - 1]));
    }
    assert forall|n: int| 1 <= n < w.nodes.len() implies #[trigger] w.nodes[n].2 >= 1 by {
        if n != t {
            assert(m.nodes[n].2 >= 1);
        }
    }
}

/// Returning to frame `k - 1` keeps the shape of the profile.
proof fn lemma_truncate_wf(v: ProfileView, k: int)
    requires
        v.shaped(),
        1 <= k <= v.stack.len(),
    ensures
        (ProfileView { funcs: v.funcs, stack: v.stack.take(k), nodes: v.nodes }).shaped(),
{
    let w = ProfileView { funcs: v.funcs, stack: v.stack.take(k), nodes: v.nodes };
    assert forall|n: int| 1 <= n < w.nodes.len() implies #[trigger] w.node_ok(n) by {
        assert(v.node_ok(n));
    }
    assert(w.stack[0] == v.stack[0]);
    assert forall|i: int| 0 <= i < w.stack.len() implies (#[trigger] w.stack[i] as int)
        < w.nodes.len() by {
        assert(w.stack[i] == v.stack[i]);
    }
    assert forall|i: int|
        1 <= i < w.stack.len() implies w.nodes[#[trigger] w.stack[i] as int].0 == Some(
        w.stack[i - 1],
    ) by {
        assert(v.nodes[v.stack[i] as int].0 == Some(v.stack[i - 1]));
    }
}

/// Moving the shadow stack keeps the shape of the profile, keeps every
/// existing node as it was, and adds no samples.
pub proof fn lemma_moved_wf(v: ProfileView, pc: u64)
    requires
        v.shaped(),
        v.nodes.len() < usize::MAX,
    ensures
        v.moved(pc).shaped(),
        v.moved(pc).funcs == v.funcs,
        v.moved(pc).nodes.len() >= v.nodes.len(),
        v.moved(pc).nodes.len() == v.nodes.len() || v.moved(pc).top() == v.nodes.len(),
        v.moved(pc).nodes.len() <= v.nodes.len() + 1,
        forall|n: int| 0 <= n < v.nodes.len() ==> #[trigger] v.moved(pc).nodes[n] == v.nodes[n],
        count_sum(v.moved(pc).nodes) == count_sum(v.nodes),
        v.moved(pc).nodes.len() > v.nodes.len() ==> v.moved(pc).nodes[v.nodes.len() as int].2
            == 0,
{
    if v.covers(v.top(), pc) {
    } else {
        match last_entry(v.funcs, pc) {
            Some(f) => {
                lemma_last_entry_found(v.funcs, pc);
                if !v.on_stack(f) {
                    lemma_enter_wf(v, f);
                }
            },
            None => {
                lemma_deepest_covering_bound(v, pc, v.stack.len() as int);
                match v.deepest_covering(pc, v.stack.len() as int) {
                    Some(d) => {
                        lemma_truncate_wf(v, d + 1);
                    },
                    None => {},
                }
            },
        }
    }
}

/// Every step keeps the shape of the profile: the stack stays a path from
/// the root down the trie, no function occurs twice on a call path, and a
/// node has at most one child per function.
pub proof fn lemma_step_preserves_wf(v: ProfileView, pc: u64)
    requires
        v.wf(),
        v.nodes.len() < usize::MAX,
        v.total_samples() < u64::MAX,
    ensures
        v.step(pc).wf(),
{
    lemma_moved_wf(v, pc);
    let m = v.moved(pc);
    lemma_count_le_sum(m.nodes, m.top() as int);
    assert forall|n: int| 1 <= n < m.nodes.len() && n != m.top() implies #[trigger] m.nodes[n].2
        >= 1 by {
        assert(v.nodes[n].2 >= 1);
    }
    lemma_tick_wf(m);
}

/// Every function node holds a sample, so a profile never has more nodes
/// than samples plus the root.
pub proof fn lemma_nodes_le_samples(v: ProfileView)
    requires
        v.wf(),
    ensures
        v.nodes.len() <= v.total_samples() + 1,
{
    lemma_nodes_le_sum(v.nodes);
}

proof fn lemma_nodes_le_sum(s: Seq<TrieNode>)
    requires
        s.len() >= 1,
        forall|n: int| 1 <= n < s.len() ==> #[trigger] s[n].2 >= 1,
    ensures
        s.len() <= count_sum(s) + 1,
    decreases s.len(),
{
    if s.len() > 1 {
        assert forall|n: int| 1 <= n < s.len() - 1 implies #[trigger] s.drop_last()[n].2 >= 1 by {
            assert(s[n].2 >= 1);
        }
        lemma_nodes_le_sum(s.drop_last());
        assert(s.last().2 >= 1);
    } else {
        lemma_count_sum_nonneg(s.drop_last());
    }
}

/// Each executed instruction is counted exactly once: a step adds one to the
/// total number of samples.
pub proof fn lemma_step_counts_one_sample(v: ProfileView, pc: u64)
    requires
        v.wf(),
        v.nodes.len() < usize::MAX,
        v.total_samples() < u64::MAX,
    ensures
        v.step(pc).total_samples() == v.total_samples() + 1,
{
    lemma_moved_wf(v, pc);
    let m = v.moved(pc);
    let t = m.top() as int;
    lemma_count_le_sum(m.nodes, t);
    lemma_count_sum_update(
        m.nodes,
        t,
        (m.nodes[t].0, m.nodes[t].1, (m.nodes[t].2 + 1) as u64),
    );
}

/// The trie only grows: a step keeps every node's parent and function and
/// never lowers a count.
pub proof fn lemma_step_keeps_trie(v: ProfileView, pc: u64)
    requires
        v.wf(),
        v.nodes.len() < usize::MAX,
        v.total_samples() < u64::MAX,
    ensures
        v.step(pc).nodes.len() >= v.nodes.len(),
        v.step(pc).funcs == v.funcs,
        forall|n: int|
            0 <= n < v.nodes.len() ==> {
                &&& #[trigger] v.step(pc).nodes[n].0 == v.nodes[n].0
                &&& v.step(pc).nodes[n].1 == v.nodes[n].1
                &&& v.step(pc).nodes[n].2 >= v.nodes[n].2
            },
{
    lemma_moved_wf(v, pc);
    let m = v.moved(pc);
    let t = m.top() as int;
    lemma_count_le_sum(m.nodes, t);
}

/// The profile after a run of instructions at `pcs`, in order.
pub open spec fn run(v: ProfileView, pcs: Seq<u64>) -> ProfileView
    decreases pcs.len(),
{
    if pcs.len() == 0 {
        v
    } else {
        run(v, pcs.drop_last()).step(pcs.last())
    }
}

/// Over a whole run, the profile counts exactly one sample per instruction,
/// and keeps its shape.
pub proof fn lemma_run_counts_every_instruction(v: ProfileView, pcs: Seq<u64>)
    requires
        v.wf(),
        v.total_samples() + pcs.len() < u64::MAX,
        v.nodes.len() + pcs.len() < usize::MAX,
    ensures
        run(v, pcs).wf(),
        run(v, pcs).total_samples() == v.total_samples() + pcs.len(),
        run(v, pcs).nodes.len() <= v.nodes.len() + pcs.len(),
    decreases pcs.len(),
{
    if pcs.len() > 0 {
        let r = run(v, pcs.drop_last());
        lemma_run_counts_every_instruction(v, pcs.drop_last());
        lemma_step_detail(r, pcs.last());
    }
}

/// One step in detail: at most one node is added, and then it is the node on
/// top; existing nodes keep their parent, function and call path; the node on
/// top gains one count and no other count changes.
pub proof fn lemma_step_detail(v: ProfileView, pc: u64)
    requires
        v.wf(),
        v.nodes.len() < usize::MAX,
        v.total_samples() < u64::MAX,
    ensures
        ({
            let w = v.step(pc);
            &&& w.wf()
            &&& w.funcs == v.funcs
            &&& w.total_samples() == v.total_samples() + 1
            &&& v.nodes.len() <= w.nodes.len() <= v.nodes.len() + 1
            &&& w.nodes.len() == v.nodes.len() + 1 ==> w.top() == v.nodes.len()
            &&& (w.top() as int) < w.nodes.len()
            &&& forall|n: int|
                0 <= n < v.nodes.len() ==> #[trigger] w.nodes[n].0 == v.nodes[n].0
                    && w.nodes[n].1 == v.nodes[n].1
            &&& forall|n: int|
                0 <= n < v.nodes.len() ==> #[trigger] path_of(w.nodes, n) == path_of(v.nodes, n)
            &&& forall|n: int|
                0 <= n < w.nodes.len() ==> #[trigger] w.nodes[n].2 == (if n < v.nodes.len() {
                    v.nodes[n].2 as int
                } else {
                    0
                }) + (if n == w.top() {
                    1int
                } else {
                    0
                })
        }),
{
    lemma_moved_wf(v, pc);
    lemma_step_preserves_wf(v, pc);
    lemma_step_counts_one_sample(v, pc);
    let m = v.moved(pc);
    let w = v.step(pc);
    let t = m.top() as int;
    lemma_count_le_sum(m.nodes, t);
    assert(w.top() == m.top());
    assert forall|n: int| 0 <= n < v.nodes.len() implies #[trigger] w.nodes[n].0 == v.nodes[n].0
        && w.nodes[n].1 == v.nodes[n].1 by {
        assert(m.nodes[n] == v.nodes[n]);
    }
    assert forall|n: int| 0 <= n < v.nodes.len() implies #[trigger] path_of(w.nodes, n) == path_of(
        v.nodes,
        n,
    ) by {
        assert forall|k: int| 0 <= k <= n implies #[trigger] v.nodes[k].0 == w.nodes[k].0
            && v.nodes[k].1 == w.nodes[k].1 by {
            assert(m.nodes[k] == v.nodes[k]);
        }
        lemma_path_frame(v.nodes, w.nodes, n);
    }
    assert forall|n: int| 0 <= n < w.nodes.len() implies #[trigger] w.nodes[n].2 == (if n
        < v.nodes.len() {
        v.nodes[n].2 as int
    } else {
        0
    }) + (if n == w.top() {
        1int
    } else {
        0
    }) by {
        if n < v.nodes.len() {
            assert(m.nodes[n] == v.nodes[n]);
        }
    }
}

/// A function node's call path is not empty.
pub proof fn lemma_path_nonempty(v: ProfileView, n: int)
    requires
        v.shaped(),
        1 <= n < v.nodes.len(),
    ensures
        path_of(v.nodes, n).len() >= 1,
        path_of(v.nodes, n).last() == v.nodes[n].1,
{
    assert(v.node_ok(n));
}

/// Recursion is flattened: no function occurs twice on a call path.
pub proof fn lemma_path_functions_distinct(v: ProfileView, n: int)
    requires
        v.shaped(),
        0 <= n < v.nodes.len(),
    ensures
        forall|i: int, j: int|
            0 <= i < j < path_of(v.nodes, n).len() ==> path_of(v.nodes, n)[i] != path_of(
                v.nodes,
                n,
            )[j],
    decreases n,
{
    if n >= 1 {
        assert(v.node_ok(n));
        let p = v.nodes[n].0->0 as int;
        lemma_path_functions_distinct(v, p);
        let pp = path_of(v.nodes, p);
        assert(!pp.contains(v.nodes[n].1));
        let q = path_of(v.nodes, n);
        assert(q == pp.push(v.nodes[n].1));
        assert forall|i: int, j: int| 0 <= i < j < q.len() implies q[i] != q[j] by {
            if j == q.len() - 1 {
                assert(q[i] == pp[i]);
            } else {
                assert(q[i] == pp[i] && q[j] == pp[j]);
            }
        }
    }
}

/// Every trie node stands for a call path of its own: two distinct nodes
/// have distinct paths, so the folded output has one line per call path.
pub proof fn lemma_paths_unique(v: ProfileView, n: int, m: int)
    requires
        v.shaped(),
        0 <= n < v.nodes.len(),
        0 <= m < v.nodes.len(),
        n != m,
    ensures
        path_of(v.nodes, n) != path_of(v.nodes, m),
    decreases n + m,
{
    if n == 0 {
        lemma_path_nonempty(v, m);
    } else if m == 0 {
        lemma_path_nonempty(v, n);
    } else {
        assert(v.node_ok(n));
        assert(v.node_ok(m));
        let pn = v.nodes[n].0->0 as int;
        let pm = v.nodes[m].0->0 as int;
        if path_of(v.nodes, n) == path_of(v.nodes, m) {
            assert(path_of(v.nodes, n).drop_last() =~= path_of(v.nodes, pn));
            assert(path_of(v.nodes, m).drop_last() =~= path_of(v.nodes, pm));
            assert(v.nodes[n].1 == v.nodes[m].1) by {
                lemma_path_nonempty(v, n);
                lemma_path_nonempty(v, m);
            }
            if pn != pm {
                lemma_paths_unique(v, pn, pm);
            }
            assert(v.nodes[n].0 == v.nodes[m].0);
        }
    }
}

/// Every call path in the trie has its line in the folded output: a
/// function node has always counted an instruction, so its line is its path,
/// a space, its count and a newline.
pub proof fn lemma_every_path_has_a_line(v: ProfileView, n: int)
    requires
        v.wf(),
        1 <= n < v.nodes.len(),
    ensures
        folded_line(v, n) == frames_text(v.funcs, path_of(v.nodes, n)) + seq![32u8] + decimal(
            v.nodes[n].2 as nat,
        ) + seq![10u8],
        folded_line(v, n).len() > 0,
{
    assert(v.nodes[n].2 >= 1);
}

/// The functions on a call path are functions of the profile.
pub proof fn lemma_path_in_funcs(v: ProfileView, n: int)
    requires
        v.shaped(),
        0 <= n < v.nodes.len(),
    ensures
        forall|j: int|
            0 <= j < path_of(v.nodes, n).len() ==> (#[trigger] path_of(v.nodes, n)[j] as int)
                < v.funcs.len(),
    decreases n,
{
    if n >= 1 {
        assert(v.node_ok(n));
        let p = v.nodes[n].0->0 as int;
        lemma_path_in_funcs(v, p);
        assert(path_of(v.nodes, n) == path_of(v.nodes, p).push(v.nodes[n].1));
    }
}

/// Distinct values below `n` are at most `n` many.
proof fn lemma_distinct_bound(s: Seq<usize>, n: int)
    requires
        0 <= n,
        forall|i: int, j: int| 0 <= i < j < s.len() ==> s[i] != s[j],
        forall|i: int| 0 <= i < s.len() ==> (#[trigger] s[i] as int) < n,
    ensures
        s.len() <= n,
    decreases n,
{
    if n == 0 {
        if s.len() > 0 {
            assert(s[0] < 0);
        }
    } else if exists|k: int| 0 <= k < s.len() && s[k] == n - 1 {
        let k = choose|k: int| 0 <= k < s.len() && s[k] == n - 1;
        let t = s.subrange(0, k) + s.subrange(k + 1, s.len() as int);
        assert forall|i: int| 0 <= i < t.len() implies (#[trigger] t[i] as int) < n - 1 by {
            if i < k {
                assert(t[i] == s[i]);
            } else {
                assert(t[i] == s[i + 1]);
            }
        }
        assert forall|i: int, j: int| 0 <= i < j < t.len() implies t[i] != t[j] by {
            let si = if i < k { i } else { i + 1 };
            let sj = if j < k { j } else { j + 1 };
            assert(t[i] == s[si] && t[j] == s[sj]);
        }
        lemma_distinct_bound(t, n - 1);
    } else {
        assert forall|i: int| 0 <= i < s.len() implies (#[trigger] s[i] as int) < n - 1 by {
            assert(s[i] != n - 1);
        }
        lemma_distinct_bound(s, n - 1);
    }
}

/// As recursion is flattened, the shadow stack holds at most one frame per
/// function besides the root.
pub proof fn lemma_stack_depth_bounded(v: ProfileView)
    requires
        v.shaped(),
    ensures
        v.stack.len() <= v.funcs.len() + 1,
{
    let k = v.stack.len() - 1;
    let top = v.top() as int;
    lemma_stack_path(v, k);
    lemma_path_functions_distinct(v, top);
    lemma_path_in_funcs(v, top);
    lemma_distinct_bound(path_of(v.nodes, top), v.funcs.len() as int);
}

/// The node on top of the shadow stack after each instruction of a run.
pub open spec fn tops(v: ProfileView, pcs: Seq<u64>) -> Seq<usize>
    decreases pcs.len(),
{
    if pcs.len() == 0 {
        Seq::empty()
    } else {
        tops(v, pcs.drop_last()).push(run(v, pcs).top())
    }
}

/// The call path on the shadow stack after each instruction of a run.
pub open spec fn stack_paths(v: ProfileView, pcs: Seq<u64>) -> Seq<Seq<usize>>
    decreases pcs.len(),
{
    if pcs.len() == 0 {
        Seq::empty()
    } else {
        stack_paths(v, pcs.drop_last()).push(path_of(run(v, pcs).nodes, run(v, pcs).top() as int))
    }
}

/// How often `x` occurs in `s`.
pub open spec fn occurrences(s: Seq<Seq<usize>>, x: Seq<usize>) -> nat
    decreases s.len(),
{
    if s.len() == 0 {
        0
    } else {
        occurrences(s.drop_last(), x) + if s.last() == x {
            1nat
        } else {
            0nat
        }
    }
}

/// Where `x` first occurs in `s` (meaningful where it occurs).
pub open spec fn first_index(s: Seq<Seq<usize>>, x: Seq<usize>) -> int
    decreases s.len(),
{
    if s.len() == 0 {
        -1
    } else if s.drop_last().contains(x) {
        first_index(s.drop_last(), x)
    } else {
        s.len() - 1
    }
}

proof fn lemma_occurrences_absent(s: Seq<Seq<usize>>, x: Seq<usize>)
    requires
        forall|i: int| 0 <= i < s.len() ==> s[i] != x,
    ensures
        occurrences(s, x) == 0,
    decreases s.len(),
{
    if s.len() > 0 {
        lemma_occurrences_absent(s.drop_last(), x);
    }
}

proof fn lemma_occurrences_contains(s: Seq<Seq<usize>>, x: Seq<usize>)
    requires
        occurrences(s, x) > 0,
    ensures
        s.contains(x),
    decreases s.len(),
{
    if s.last() != x {
        lemma_occurrences_contains(s.drop_last(), x);
        let i = choose|i: int| 0 <= i < s.drop_last().len() && s.drop_last()[i] == x;
        assert(s[i] == x);
    }
}

proof fn lemma_first_index(s: Seq<Seq<usize>>, x: Seq<usize>)
    requires
        s.contains(x),
    ensures
        0 <= first_index(s, x) < s.len(),
        s[first_index(s, x)] == x,
    decreases s.len(),
{
    if s.drop_last().contains(x) {
        lemma_first_index(s.drop_last(), x);
    } else {
        let i = choose|i: int| 0 <= i < s.len() && s[i] == x;
        if i < s.len() - 1 {
            assert(s.drop_last()[i] == x);
        }
    }
}

/// The history of a run from a fresh profile: after each instruction the
/// shadow stack holds the call path of a trie node; every node's count is
/// the number of instructions executed with its call path on the stack; and
/// nodes are numbered in the order in which their call paths were first on
/// the stack. As `write` emits node by node, each line's count is the number
/// of instructions executed on that call path, and the lines come in the
/// order in which the call paths were first entered.
pub proof fn lemma_run_history(funcs: Seq<FuncInfo>, pcs: Seq<u64>)
    requires
        funcs.len() <= usize::MAX,
        pcs.len() + 1 < usize::MAX,
        pcs.len() < u64::MAX,
    ensures
        ({
            let v = ProfileView::initial(funcs);
            let r = run(v, pcs);
            let sp = stack_paths(v, pcs);
            let tp = tops(v, pcs);
            &&& r.wf()
            &&& r.funcs == funcs
            &&& r.total_samples() == pcs.len()
            &&& r.nodes.len() <= pcs.len() + 1
            &&& sp.len() == pcs.len()
            &&& tp.len() == pcs.len()
            &&& forall|i: int|
                0 <= i < pcs.len() ==> (#[trigger] tp[i] as int) < r.nodes.len() && sp[i]
                    == path_of(r.nodes, tp[i] as int)
            &&& forall|n: int|
                0 <= n < r.nodes.len() ==> #[trigger] r.nodes[n].2 == occurrences(
                    sp,
                    path_of(r.nodes, n),
                )
            &&& forall|n: int, m: int|
                1 <= n < m < r.nodes.len() ==> sp.contains(path_of(r.nodes, n)) && sp.contains(
                    path_of(r.nodes, m),
                ) && first_index(sp, #[trigger] path_of(r.nodes, n)) < first_index(
                    sp,
                    #[trigger] path_of(r.nodes, m),
                )
        }),
    decreases pcs.len(),
{
    let v = ProfileView::initial(funcs);
    if pcs.len() == 0 {
        assert(v.wf());
        assert(count_sum(v.nodes) == count_sum(v.nodes.drop_last()) + v.nodes[0].2);
        assert(count_sum(v.nodes.drop_last()) == 0);
    } else {
        let q = pcs.drop_last();
        lemma_run_history(funcs, q);
        let r = run(v, q);
        let sp = stack_paths(v, q);
        let tp = tops(v, q);
        lemma_step_detail(r, pcs.last());
        let r2 = run(v, pcs);
        assert(r2 == r.step(pcs.last()));
        let sp2 = stack_paths(v, pcs);
        let tp2 = tops(v, pcs);
        let t2 = r2.top() as int;
        assert(sp2 == sp.push(path_of(r2.nodes, t2)));
        assert(tp2 == tp.push(r2.top()));
        assert(sp2.drop_last() =~= sp);
        // the paths seen before all belong to nodes of the earlier trie
        assert forall|i: int| 0 <= i < pcs.len() implies (#[trigger] tp2[i] as int)
            < r2.nodes.len() && sp2[i] == path_of(r2.nodes, tp2[i] as int) by {
            if i < q.len() {
                assert(tp2[i] == tp[i] && sp2[i] == sp[i]);
            }
        }
        assert forall|n: int| 0 <= n < r2.nodes.len() implies #[trigger] r2.nodes[n].2
            == occurrences(sp2, path_of(r2.nodes, n)) by {
            let p = path_of(r2.nodes, n);
            assert(occurrences(sp2, p) == occurrences(sp, p) + if path_of(r2.nodes, t2) == p {
                1nat
            } else {
                0nat
            });
            if n != t2 {
                lemma_paths_unique(r2, n, t2);
            }
            if n >= r.nodes.len() {
                assert forall|i: int| 0 <= i < sp.len() implies sp[i] != p by {
                    assert((tp[i] as int) < r.nodes.len());
                    assert(sp[i] == path_of(r2.nodes, tp[i] as int));
                    lemma_paths_unique(r2, n, tp[i] as int);
                }
                lemma_occurrences_absent(sp, p);
            }
        }
        assert forall|n: int, m: int|
            1 <= n < m < r2.nodes.len() implies sp2.contains(path_of(r2.nodes, n))
            && sp2.contains(path_of(r2.nodes, m)) && first_index(
            sp2,
            #[trigger] path_of(r2.nodes, n),
        ) < first_index(sp2, #[trigger] path_of(r2.nodes, m)) by {
            let pn = path_of(r2.nodes, n);
            let pm = path_of(r2.nodes, m);
            assert(r2.nodes[n].2 >= 1 && r2.nodes[m].2 >= 1);
            lemma_occurrences_contains(sp2, pn);
            lemma_occurrences_contains(sp2, pm);
            assert(r.nodes[n].2 >= 1);
            assert(r.nodes[n].2 == occurrences(sp, path_of(r.nodes, n)));
            lemma_occurrences_contains(sp, pn);
            lemma_first_index(sp, pn);
            if m < r.nodes.len() {
                assert(r.nodes[m].2 >= 1);
                assert(r.nodes[m].2 == occurrences(sp, path_of(r.nodes, m)));
                lemma_occurrences_contains(sp, pm);
            } else {
                assert forall|i: int| 0 <= i < sp.len() implies sp[i] != pm by {
                    assert((tp[i] as int) < r.nodes.len());
                    lemma_paths_unique(r2, m, tp[i] as int);
                }
                assert(!sp.contains(pm));
            }
        }
    }
}

/// Exactly one trie node per call path reached in a run from a fresh
/// profile: every call path on the stack after an instruction is a node's
/// path (the root's path is the empty one), every function node's path was
/// on the stack, and distinct nodes have distinct paths.
pub proof fn lemma_one_node_per_reached_path(funcs: Seq<FuncInfo>, pcs: Seq<u64>)
    requires
        funcs.len() <= usize::MAX,
        pcs.len() + 1 < usize::MAX,
        pcs.len() < u64::MAX,
    ensures
        ({
            let r = run(ProfileView::initial(funcs), pcs);
            let sp = stack_paths(ProfileView::initial(funcs), pcs);
            &&& forall|i: int|
                0 <= i < sp.len() ==> exists|n: int|
                    0 <= n < r.nodes.len() && #[trigger] path_of(r.nodes, n) == #[trigger] sp[i]
            &&& forall|n: int|
                1 <= n < r.nodes.len() ==> sp.contains(#[trigger] path_of(r.nodes, n))
            &&& forall|n: int, m: int|
                0 <= n < r.nodes.len() && 0 <= m < r.nodes.len() && n != m ==> #[trigger] path_of(
                    r.nodes,
                    n,
                ) != #[trigger] path_of(r.nodes, m)
        }),
{
    lemma_run_history(funcs, pcs);
    let v = ProfileView::initial(funcs);
    let r = run(v, pcs);
    let sp = stack_paths(v, pcs);
    let tp = tops(v, pcs);
    assert forall|i: int| 0 <= i < sp.len() implies exists|n: int|
        0 <= n < r.nodes.len() && #[trigger] path_of(r.nodes, n) == #[trigger] sp[i] by {
        assert(path_of(r.nodes, tp[i] as int) == sp[i]);
    }
    assert forall|n: int| 1 <= n < r.nodes.len() implies sp.contains(
        #[trigger] path_of(r.nodes, n),
    ) by {
        assert(r.nodes[n].2 >= 1);
        assert(r.nodes[n].2 == occurrences(sp, path_of(r.nodes, n)));
        lemma_occurrences_contains(sp, path_of(r.nodes, n));
    }
    assert forall|n: int, m: int|
        0 <= n < r.nodes.len() && 0 <= m < r.nodes.len() && n != m implies #[trigger] path_of(
        r.nodes,
        n,
    ) != #[trigger] path_of(r.nodes, m) by {
        lemma_paths_unique(r, n, m);
    }
}

/// The call paths other than the root's empty one that were on the shadow
/// stack after some instruction.
pub open spec fn reached_paths(sp: Seq<Seq<usize>>) -> Set<Seq<usize>> {
    Set::new(|p: Seq<usize>| sp.contains(p) && p.len() > 0)
}

/// Memory grows with the distinct call paths reached: after a run from a
/// fresh profile, the trie holds the root and exactly one node per distinct
/// non-root call path that was on the shadow stack, and the stack holds at
/// most one frame per function besides the root.
pub proof fn lemma_trie_size_is_reached_paths(funcs: Seq<FuncInfo>, pcs: Seq<u64>)
    requires
        funcs.len() <= usize::MAX,
        pcs.len() + 1 < usize::MAX,
        pcs.len() < u64::MAX,
    ensures
        ({
            let r = run(ProfileView::initial(funcs), pcs);
            let sp = stack_paths(ProfileView::initial(funcs), pcs);
            &&& reached_paths(sp).finite()
            &&& r.nodes.len() == 1 + reached_paths(sp).len()
            &&& r.stack.len() <= funcs.len() + 1
        }),
{
    let v = ProfileView::initial(funcs);
    lemma_run_history(funcs, pcs);
    lemma_one_node_per_reached_path(funcs, pcs);
    let r = run(v, pcs);
    let sp = stack_paths(v, pcs);
    let tp = tops(v, pcs);
    lemma_stack_depth_bounded(r);
    let x = set_int_range(1, r.nodes.len() as int);
    let f = |n: int| path_of(r.nodes, n);
    let y = reached_paths(sp);
    lemma_int_range(1, r.nodes.len() as int);
    assert forall|p: Seq<usize>| #[trigger] y.contains(p) implies x.map(f).contains(p) by {
        let i = choose|i: int| 0 <= i < sp.len() && sp[i] == p;
        let n = tp[i] as int;
        assert(sp[i] == path_of(r.nodes, n));
        if n == 0 {
            assert(path_of(r.nodes, 0).len() == 0);
        }
        assert(x.contains(n));
        assert(f(n) == p);
    }
    assert forall|p: Seq<usize>| #[trigger] x.map(f).contains(p) implies y.contains(p) by {
        let n = choose|n: int| x.contains(n) && f(n) == p;
        assert(sp.contains(path_of(r.nodes, n)));
        lemma_path_nonempty(r, n);
    }
    assert(x.map(f) =~= y);
    assert forall|a: int, b: int| x.contains(a) && x.contains(b) && #[trigger] f(a) == #[trigger] f(
        b,
    ) implies a == b by {
        if a != b {
            lemma_paths_unique(r, a, b);
        }
    }
    lemma_map_size(x, y, f);
}

/// The folded output after a run from a fresh profile: the lines come in the
/// order in which their call paths were first on the shadow stack; the line
/// of each call path is its labels, a space and the number of instructions
/// executed with that path on the stack; every non-root call path that was
/// on the stack has its line, and no path has two. Instructions executed
/// outside every function (on the root's empty path) have no line; with
/// them the counts make up the whole run.
pub proof fn lemma_run_output(funcs: Seq<FuncInfo>, pcs: Seq<u64>)
    requires
        funcs.len() <= usize::MAX,
        pcs.len() + 1 < usize::MAX,
        pcs.len() < u64::MAX,
    ensures
        ({
            let r = run(ProfileView::initial(funcs), pcs);
            let sp = stack_paths(ProfileView::initial(funcs), pcs);
            &&& folded_text(r) == folded_lines(r, r.nodes.len() as int)
            &&& forall|n: int|
                1 <= n < r.nodes.len() ==> #[trigger] folded_line(r, n) == frames_text(
                    funcs,
                    path_of(r.nodes, n),
                ) + seq![32u8] + decimal(occurrences(sp, path_of(r.nodes, n))) + seq![10u8]
            &&& forall|n: int, m: int|
                1 <= n < m < r.nodes.len() ==> first_index(sp, #[trigger] path_of(r.nodes, n))
                    < first_index(sp, #[trigger] path_of(r.nodes, m))
            &&& forall|i: int|
                0 <= i < sp.len() && sp[i].len() > 0 ==> exists|n: int|
                    1 <= n < r.nodes.len() && #[trigger] path_of(r.nodes, n) == #[trigger] sp[i]
            &&& forall|n: int, m: int|
                0 <= n < r.nodes.len() && 0 <= m < r.nodes.len() && n != m ==> #[trigger] path_of(
                    r.nodes,
                    n,
                ) != #[trigger] path_of(r.nodes, m)
            &&& r.nodes[0].2 == occurrences(sp, Seq::<usize>::empty())
            &&& r.total_samples() == pcs.len()
        }),
{
    let v = ProfileView::initial(funcs);
    lemma_run_history(funcs, pcs);
    lemma_one_node_per_reached_path(funcs, pcs);
    let r = run(v, pcs);
    let sp = stack_paths(v, pcs);
    let tp = tops(v, pcs);
    assert forall|n: int| 1 <= n < r.nodes.len() implies #[trigger] folded_line(r, n) == frames_text(
        funcs,
        path_of(r.nodes, n),
    ) + seq![32u8] + decimal(occurrences(sp, path_of(r.nodes, n))) + seq![10u8] by {
        lemma_every_path_has_a_line(r, n);
        assert(r.nodes[n].2 == occurrences(sp, path_of(r.nodes, n)));
    }
    assert forall|i: int| 0 <= i < sp.len() && sp[i].len() > 0 implies exists|n: int|
        1 <= n < r.nodes.len() && #[trigger] path_of(r.nodes, n) == #[trigger] sp[i] by {
        let n = tp[i] as int;
        assert(sp[i] == path_of(r.nodes, n));
        assert(path_of(r.nodes, 0).len() == 0);
        assert(n != 0);
    }
    assert(path_of(r.nodes, 0) =~= Seq::<usize>::empty());
    assert(r.nodes[0].2 == occurrences(sp, path_of(r.nodes, 0)));
}

/// The number that a string of ASCII decimal digits spells, most
/// significant digit first.
pub open spec fn digits_value(s: Seq<u8>) -> int
    decreases s.len(),
{
    if s.len() == 0 {
        0
    } else {
        digits_value(s.drop_last()) * 10 + (s.last() - 48)
    }
}

/// A count is written as its canonical decimal numeral: a nonempty string of
/// ASCII digits, without a leading zero (but for zero itself), which reads
/// back as the count.
pub proof fn lemma_decimal_reads_back(n: nat)
    ensures
        decimal(n).len() >= 1,
        forall|i: int| 0 <= i < decimal(n).len() ==> 48 <= #[trigger] decimal(n)[i] <= 57,
        n > 0 ==> decimal(n)[0] != 48,
        n == 0 ==> decimal(n) == seq![48u8],
        digits_value(decimal(n)) == n,
    decreases n,
{
    if n >= 10 {
        let q = n / 10;
        let r = n % 10;
        lemma_decimal_reads_back(q);
        let d = decimal(n);
        assert(d == decimal(q).push((48 + r) as u8));
        assert(d.drop_last() =~= decimal(q));
        assert(d[0] == decimal(q)[0]);
        assert(q * 10 + r == n);
        assert(d.last() == 48 + r);
        assert(digits_value(d) == digits_value(decimal(q)) * 10 + r);
        assert forall|i: int| 0 <= i < d.len() implies 48 <= #[trigger] d[i] <= 57 by {
            if i < d.len() - 1 {
                assert(d[i] == decimal(q)[i]);
            }
        }
    } else {
        assert(decimal(n) == seq![(48 + n) as u8]);
        assert(decimal(n)[0] == 48 + n);
        assert(decimal(n).drop_last() =~= Seq::<u8>::empty());
        assert(digits_value(decimal(n).drop_last()) == 0);
    }
}

} // verus!
