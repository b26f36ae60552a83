//! The laws of the copy-on-write protocol, proved once and for all over the
//! operation relations that the scope's methods ensure.

use vstd::prelude::*;

use crate::counting::lemma_occurrences_once;
use crate::counting::occurrences;
use crate::cow::Handle;
use crate::cow::Scope;
use crate::cow::WriterStep;

verus! {

/// Every cell of a well-formed scope holds a live reader payload: its
/// reader slot names an allocated arena slot that has not been freed.
pub proof fn lemma_read_ptr_valid<T: Copy, A: Copy>(s: Scope<T, A>, i: int)
    requires
        s.wf(),
        0 <= i < s.cell_count(),
    ensures
        0 <= s.read_slot(i) < s.total_allocated(),
        s.payloads@[s.read_slot(i)] is Some,
{
    assert(s.cell_ok(i));
}

/// A clean cell aliases its two views and carries no dirty-list link.
pub proof fn lemma_clean_cell<T: Copy, A: Copy>(s: Scope<T, A>, i: int)
    requires
        s.wf(),
        0 <= i < s.cell_count(),
        !s.is_dirty(i),
    ensures
        s.write_slot(i) == s.read_slot(i),
        s.cells@[i].next_dirty == Handle::Null,
{
    assert(s.cell_ok(i));
}

/// A dirty cell holds distinct reader and writer payloads and sits exactly
/// once on the chain starting at the scope's dirty-list head.
pub proof fn lemma_dirty_cell_on_chain_once<T: Copy, A: Copy>(s: Scope<T, A>, i: int)
    requires
        s.wf(),
        0 <= i < s.cell_count(),
        s.is_dirty(i),
    ensures
        s.write_slot(i) != s.read_slot(i),
        occurrences(s.chain(), i) == 1,
{
    assert(s.chain().contains(i));
    lemma_occurrences_once(s.chain(), i);
}

/// A quiescent scope has an empty dirty list and only clean cells.
pub proof fn lemma_quiescent_dirty_list_empty<T: Copy, A: Copy>(s: Scope<T, A>)
    requires
        s.wf(),
        !s.forked(),
    ensures
        s.chain().len() == 0,
        s.first_dirty == Handle::Null,
        forall|i: int| 0 <= i < s.cell_count() ==> !#[trigger] s.is_dirty(i),
{
    assert forall|i: int| 0 <= i < s.cell_count() implies !#[trigger] s.is_dirty(i) by {
        if s.is_dirty(i) {
            assert(s.chain().contains(i));
        }
    }
}

/// In a quiescent scope the reader and the writer observe the same payload
/// through every handle.
pub proof fn lemma_quiescent_views_agree<T: Copy, A: Copy>(s: Scope<T, A>)
    requires
        s.wf(),
        !s.forked(),
    ensures
        forall|i: int|
            0 <= i < s.cell_count() ==> #[trigger] s.reader_view(i) == s.writer_view(i),
{
    lemma_quiescent_dirty_list_empty(s);
    assert forall|i: int|
        0 <= i < s.cell_count() implies #[trigger] s.reader_view(i) == s.writer_view(i) by {
        assert(!s.is_dirty(i));
    }
}

/// Snapshot stability: while a reader is active, a write changes no reader
/// view — every handle keeps observing its fork-time payload.
pub proof fn lemma_snapshot_stability<T: Copy, A: Copy>(
    pre: Scope<T, A>,
    post: Scope<T, A>,
    h: Handle,
    v: T,
)
    requires
        pre.forked(),
        pre.valid_handle(h),
        Scope::<T, A>::write_rel(pre, post, h, v),
    ensures
        forall|j: int|
            0 <= j < pre.cell_count() ==> #[trigger] post.reader_view(j) == pre.reader_view(j),
{
    assert forall|j: int|
        0 <= j < pre.cell_count() implies #[trigger] post.reader_view(j) == pre.reader_view(j) by {
        if j != h.index_of() {
            assert(Scope::<T, A>::same_obs(pre, post, j));
        }
    }
}

/// Snapshot stability over a whole fork-to-join interval: however many
/// writes and creates the writer performs while the reader is active, every
/// cell that existed when the reader was forked keeps its fork-time reader
/// view. `states[m]` is the pool before step `m`, `states.last()` the pool
/// after the final step.
pub proof fn lemma_snapshot_stability_trace<T: Copy, A: Copy>(
    states: Seq<Scope<T, A>>,
    steps: Seq<WriterStep<T>>,
)
    requires
        states.len() == steps.len() + 1,
        states[0].forked(),
        forall|m: int|
            0 <= m < steps.len() ==> #[trigger] Scope::<T, A>::step_rel(
                states[m],
                states[m + 1],
                steps[m],
            ),
    ensures
        states.last().forked(),
        states.last().cell_count() >= states[0].cell_count(),
        forall|j: int|
            0 <= j < states[0].cell_count() ==> #[trigger] states.last().reader_view(j)
                == states[0].reader_view(j),
    decreases steps.len(),
{
    if steps.len() > 0 {
        let n = steps.len() as int;
        let ss = states.take(n);
        let tt = steps.take(n - 1);
        assert forall|m: int| 0 <= m < tt.len() implies #[trigger] Scope::<T, A>::step_rel(
            ss[m],
            ss[m + 1],
            tt[m],
        ) by {
            assert(ss[m] == states[m] && ss[m + 1] == states[m + 1] && tt[m] == steps[m]);
        }
        lemma_snapshot_stability_trace(ss, tt);
        let a = states[n - 1];
        let b = states[n];
        assert(ss.last() == a);
        assert(Scope::<T, A>::step_rel(a, b, steps[n - 1]));
        match steps[n - 1] {
            WriterStep::Write(h, v) => {
                lemma_snapshot_stability(a, b, h, v);
            },
            WriterStep::Create(_v) => {
            },
        }
        assert forall|j: int|
            0 <= j < states[0].cell_count() implies #[trigger] states.last().reader_view(j)
            == states[0].reader_view(j) by {
            assert(ss.last().reader_view(j) == ss[0].reader_view(j));
            assert(b.reader_view(j) == a.reader_view(j));
        }
    }
}

/// Publish atomicity, seen from the writer: after a join, the reader view
/// and the writer view of every handle agree, and both equal the writer
/// view at the moment of the join.
pub proof fn lemma_publish_atomicity<T: Copy, A: Copy>(pre: Scope<T, A>, post: Scope<T, A>)
    requires
        Scope::<T, A>::join_rel(pre, post),
    ensures
        forall|j: int|
            0 <= j < pre.cell_count() ==> #[trigger] post.reader_view(j) == post.writer_view(j)
                && post.reader_view(j) == pre.writer_view(j),
{
}

/// Well-formedness depends only on the cells, the payload arena, the dirty
/// chain, the list head and the reader-active flag: a scope that agrees with
/// a well-formed one on all five is well-formed itself.
pub proof fn lemma_wf_congruence<T: Copy, A: Copy>(a: Scope<T, A>, b: Scope<T, A>)
    requires
        a.wf(),
        b.cells@ == a.cells@,
        b.payloads@ == a.payloads@,
        b.chain() == a.chain(),
        b.first_dirty == a.first_dirty,
        b.forked() || a.chain().len() == 0,
    ensures
        b.wf(),
{
    assert forall|i: int| 0 <= i < b.cell_count() implies #[trigger] b.cell_ok(i) by {
        assert(a.cell_ok(i));
    }
    assert forall|i: int, j: int|
        0 <= i < b.cell_count() && 0 <= j < b.cell_count() && i != j implies #[trigger] b.distinct_cells(
        i,
        j,
    ) by {
        assert(a.distinct_cells(i, j));
    }
    assert forall|k: int| 0 <= k < b.chain().len() implies #[trigger] b.chain_link_ok(k) by {
        assert(a.chain_link_ok(k));
    }
    assert forall|i: int|
        0 <= i < b.cell_count() && #[trigger] b.is_dirty(i) implies b.chain().contains(i) by {
        assert(a.is_dirty(i));
    }
    assert forall|p: int|
        0 <= p < b.total_allocated() && b.payloads@[p] is Some implies exists|i: int|
        0 <= i < b.cell_count() && #[trigger] b.references(i, p) by {
        let w = choose|w: int| 0 <= w < a.cell_count() && #[trigger] a.references(w, p);
        assert(b.references(w, p));
    }
}

/// Idempotent join with no writes: a fork followed directly by a join puts
/// every cell and every payload slot back exactly as it was, allocating and
/// freeing nothing, and leaves the pool quiescent and well-formed.
pub proof fn lemma_fork_join_no_writes<T: Copy, A: Copy>(
    s0: Scope<T, A>,
    s1: Scope<T, A>,
    s2: Scope<T, A>,
)
    requires
        s0.wf(),
        !s0.forked(),
        Scope::<T, A>::fork_rel(s0, s1),
        Scope::<T, A>::join_rel(s1, s2),
    ensures
        s2.cells@ == s0.cells@,
        s2.payloads@ == s0.payloads@,
        !s2.forked(),
        s2.first_dirty == s0.first_dirty,
        s2.chain() == s0.chain(),
        s2.wf(),
        s2.total_allocated() == s0.total_allocated(),
        s2.live_payloads() == s0.live_payloads(),
{
    assert(s1.dirty_count() == 0);
    assert(s2.chain() =~= s0.chain());
    lemma_wf_congruence(s0, s2);
}

/// Fork/join churn: any number of fork/join pairs with no intervening write
/// or create restores cells and payload arena exactly after every pair —
/// over the whole churn nothing is allocated or freed, and the pool ends
/// quiescent and well-formed. `after_fork[m]` and `after_join[m]` are the
/// states right after the `m`-th fork and the `m`-th join.
#[verifier::rlimit(50)]
pub proof fn lemma_fork_join_churn<T: Copy, A: Copy>(
    s0: Scope<T, A>,
    after_fork: Seq<Scope<T, A>>,
    after_join: Seq<Scope<T, A>>,
)
    requires
        after_fork.len() == after_join.len(),
        s0.wf(),
        !s0.forked(),
        forall|m: int|
            #![trigger after_fork[m]]
            0 <= m < after_fork.len() ==> Scope::<T, A>::fork_rel(
                if m == 0 {
                    s0
                } else {
                    after_join[m - 1]
                },
                after_fork[m],
            ),
        forall|m: int|
            #![trigger after_join[m]]
            0 <= m < after_join.len() ==> Scope::<T, A>::join_rel(after_fork[m], after_join[m]),
    ensures
        forall|m: int|
            #![trigger after_join[m]]
            0 <= m < after_join.len() ==> after_join[m].cells@ == s0.cells@
                && after_join[m].payloads@ == s0.payloads@ && after_join[m].wf()
                && !after_join[m].forked() && after_join[m].total_allocated()
                == s0.total_allocated() && after_join[m].live_payloads() == s0.live_payloads(),
    decreases after_join.len(),
{
    let n = after_join.len() as int;
    if n > 0 {
        let ff = after_fork.take(n - 1);
        let jj = after_join.take(n - 1);
        assert forall|m: int| #![trigger ff[m]] 0 <= m < ff.len() implies Scope::<T, A>::fork_rel(
            if m == 0 {
                s0
            } else {
                jj[m - 1]
            },
            ff[m],
        ) by {
            assert(ff[m] == after_fork[m]);
            if m > 0 {
                assert(jj[m - 1] == after_join[m - 1]);
            }
        }
        assert forall|m: int| #![trigger jj[m]] 0 <= m < jj.len() implies Scope::<T, A>::join_rel(
            ff[m],
            jj[m],
        ) by {
            assert(ff[m] == after_fork[m] && jj[m] == after_join[m]);
        }
        lemma_fork_join_churn(s0, ff, jj);
        let prev = if n == 1 {
            s0
        } else {
            after_join[n - 2]
        };
        if n > 1 {
            assert(jj[n - 2] == after_join[n - 2]);
        }
        assert(prev.wf() && !prev.forked());
        lemma_fork_join_no_writes(prev, after_fork[n - 1], after_join[n - 1]);
        assert forall|m: int|
            #![trigger after_join[m]]
            0 <= m < n implies after_join[m].cells@ == s0.cells@ && after_join[m].payloads@
            == s0.payloads@ && after_join[m].wf() && !after_join[m].forked()
            && after_join[m].total_allocated() == s0.total_allocated()
            && after_join[m].live_payloads() == s0.live_payloads() by {
            if m < n - 1 {
                assert(jj[m] == after_join[m]);
            }
        }
    }
}

/// Dirty-set minimality: forking, writing one handle twice and a second
/// handle once, then joining allocates exactly two shadow payloads and
/// frees exactly two stale payloads.
pub proof fn lemma_dirty_set_minimality<T: Copy, A: Copy>(
    s0: Scope<T, A>,
    s1: Scope<T, A>,
    s2: Scope<T, A>,
    s3: Scope<T, A>,
    s4: Scope<T, A>,
    s5: Scope<T, A>,
    h1: Handle,
    h2: Handle,
    v1: T,
    v2: T,
    v3: T,
)
    requires
        s0.wf(),
        !s0.forked(),
        s0.valid_handle(h1),
        s0.valid_handle(h2),
        h1.index_of() != h2.index_of(),
        Scope::<T, A>::fork_rel(s0, s1),
        Scope::<T, A>::write_rel(s1, s2, h1, v1),
        Scope::<T, A>::write_rel(s2, s3, h1, v2),
        Scope::<T, A>::write_rel(s3, s4, h2, v3),
        Scope::<T, A>::join_rel(s4, s5),
    ensures
        s5.total_allocated() == s0.total_allocated() + 2,
        s5.live_payloads() == s0.live_payloads(),
        s5.dirty_count() == 0,
{
    lemma_quiescent_dirty_list_empty(s0);
    assert(!s0.is_dirty(h1.index_of()));
    assert(!s0.is_dirty(h2.index_of()));
    assert(s1.cells@ == s0.cells@);
    assert(!s1.is_dirty(h1.index_of()) && !s1.is_dirty(h2.index_of()));
    assert(s1.dirty_count() == 0);
    assert(s2.is_dirty(h1.index_of()));
    assert(s2.is_dirty(h2.index_of()) == s1.is_dirty(h2.index_of()));
    assert(s3.is_dirty(h2.index_of()) == s2.is_dirty(h2.index_of()));
    assert(s4.dirty_count() == 2);
}

} // verus!
