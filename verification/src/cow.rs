//! The copy-on-write pool: cells, handles and the writer-side scope.
//!
//! Payload storage is an arena of slots owned by the scope: a cell's
//! `read_ptr` and `write_ptr` are indices of live arena slots, and a freed
//! payload is a slot set back to `None`. A cell is *clean* when both indices
//! agree and *dirty* when the writer holds a shadow slot; every dirty cell
//! sits exactly once on the intrusive dirty list threaded through
//! `next_dirty` links, starting at the scope's `first_dirty`.

use vstd::prelude::*;

use crate::counting::count_some;
use crate::counting::lemma_count_some_all_none;
use crate::counting::lemma_count_some_push;
use crate::counting::lemma_count_some_take_all;
use crate::counting::lemma_count_some_take_step;
use crate::counting::lemma_count_some_update;

verus! {

/// A small, copyable token identifying one cell of a scope, or no cell at
/// all. Equality is identity of the cell referred to.
#[derive(Clone, Copy, PartialEq, Eq, Structural, Debug)]
pub enum Handle {
    Null,
    Cell(usize),
}

impl Handle {
    /// Index of the cell this handle refers to, or -1 for the null handle.
    pub open spec fn index_of(self) -> int {
        match self {
            Handle::Null => -1,
            Handle::Cell(i) => i as int,
        }
    }

    pub open spec fn spec_is_null(self) -> bool {
        self == Handle::Null
    }

    pub fn is_null(&self) -> (r: bool)
        ensures
            r == self.spec_is_null(),
    {
        match *self {
            Handle::Null => true,
            Handle::Cell(_) => false,
        }
    }

    pub fn is_not_null(&self) -> (r: bool)
        ensures
            r == !self.spec_is_null(),
    {
        match *self {
            Handle::Null => false,
            Handle::Cell(_) => true,
        }
    }

    pub fn eq(&self, other: &Handle) -> (r: bool)
        ensures
            r == (*self == *other),
    {
        *self == *other
    }

    pub fn ne(&self, other: &Handle) -> (r: bool)
        ensures
            r == (*self != *other),
    {
        !(*self == *other)
    }
}

/// The null handle: refers to no cell; links nothing on the dirty list.
pub fn null_handle() -> (h: Handle)
    ensures
        h == Handle::Null,
{
    Handle::Null
}

/// Cell index carried by a non-null handle.
pub fn unwrap(handle: Handle) -> (i: usize)
    requires
        handle.index_of() >= 0,
    ensures
        handle == Handle::Cell(i),
        i as int == handle.index_of(),
{
    match handle {
        Handle::Cell(i) => i,
        Handle::Null => {
            proof {
                assert(false);
            }
            0
        },
    }
}

/// Handle referring to the cell at a given index.
pub fn wrap(data: usize) -> (h: Handle)
    ensures
        h == Handle::Cell(data),
{
    Handle::Cell(data)
}

/// Per-cell record: the two payload slot indices, the optional reader-side
/// auxiliary datum, and the intrusive dirty-list link.
#[derive(Clone, Copy)]
pub struct HandleData<A> {
    pub read_ptr: usize,
    pub write_ptr: usize,
    pub read_aux: Option<A>,
    pub next_dirty: Handle,
}

/// A writer-side operation between a fork and the matching join, described
/// as a value: a write through a handle, or the creation of a fresh cell.
pub enum WriterStep<T> {
    Write(Handle, T),
    Create(T),
}

/// The writer-side pool. Owns every cell record and every payload slot.
pub struct Scope<T, A> {
    pub layout_active: bool,
    pub first_dirty: Handle,
    pub cells: Vec<HandleData<A>>,
    pub payloads: Vec<Option<T>>,
    pub dirty_chain: Ghost<Seq<int>>,
}

impl<T: Copy, A: Copy> Scope<T, A> {
    /// True between a `reader_forked` and the matching `reader_joined`.
    pub open spec fn forked(self) -> bool {
        self.layout_active
    }

    pub open spec fn cell_count(self) -> int {
        self.cells@.len() as int
    }

    pub open spec fn valid_handle(self, h: Handle) -> bool {
        0 <= h.index_of() < self.cell_count()
    }

    /// Arena slot holding the reader-visible payload of cell `i`.
    pub open spec fn read_slot(self, i: int) -> int {
        self.cells@[i].read_ptr as int
    }

    /// Arena slot holding the writer-visible payload of cell `i`.
    pub open spec fn write_slot(self, i: int) -> int {
        self.cells@[i].write_ptr as int
    }

    /// The payload a reader observes through a handle on cell `i`.
    pub open spec fn reader_view(self, i: int) -> T {
        self.payloads@[self.read_slot(i)].unwrap()
    }

    /// The payload the writer observes through a handle on cell `i`.
    pub open spec fn writer_view(self, i: int) -> T {
        self.payloads@[self.write_slot(i)].unwrap()
    }

    pub open spec fn aux_of(self, i: int) -> Option<A> {
        self.cells@[i].read_aux
    }

    /// A dirty cell holds a writer shadow distinct from the reader payload.
    pub open spec fn is_dirty(self, i: int) -> bool {
        self.write_slot(i) != self.read_slot(i)
    }

    /// The dirty list, as the sequence of cell indices it links.
    pub open spec fn chain(self) -> Seq<int> {
        self.dirty_chain@
    }

    pub open spec fn dirty_count(self) -> int {
        self.chain().len() as int
    }

    /// Payload slots ever allocated by this scope.
    pub open spec fn total_allocated(self) -> int {
        self.payloads@.len() as int
    }

    /// Payload slots currently allocated (not yet freed).
    pub open spec fn live_payloads(self) -> int {
        count_some(self.payloads@)
    }

    /// Both slot indices of cell `i` point at live arena slots, and a clean
    /// cell carries no dirty-list link.
    pub open spec fn cell_ok(self, i: int) -> bool {
        &&& 0 <= self.read_slot(i) < self.total_allocated()
        &&& 0 <= self.write_slot(i) < self.total_allocated()
        &&& self.payloads@[self.read_slot(i)] is Some
        &&& self.payloads@[self.write_slot(i)] is Some
        &&& !self.is_dirty(i) ==> self.cells@[i].next_dirty == Handle::Null
    }

    /// Distinct cells never share a payload slot.
    pub open spec fn distinct_cells(self, i: int, j: int) -> bool {
        &&& self.read_slot(i) != self.read_slot(j)
        &&& self.read_slot(i) != self.write_slot(j)
        &&& self.write_slot(i) != self.write_slot(j)
    }

    /// Entry `k` of the dirty list names a dirty cell and links to entry
    /// `k + 1`, or to nothing at the end of the list.
    pub open spec fn chain_link_ok(self, k: int) -> bool {
        &&& 0 <= self.chain()[k] < self.cell_count()
        &&& self.is_dirty(self.chain()[k])
        &&& self.cells@[self.chain()[k]].next_dirty == if k + 1 < self.chain().len() {
            Handle::Cell(self.chain()[k + 1] as usize)
        } else {
            Handle::Null
        }
    }

    /// Cell `i` holds slot `p` as its reader or writer payload.
    pub open spec fn references(self, i: int, p: int) -> bool {
        self.read_slot(i) == p || self.write_slot(i) == p
    }

    /// Well-formedness: the invariants that hold at every quiescent point.
    pub open spec fn wf(self) -> bool {
        &&& forall|i: int| 0 <= i < self.cell_count() ==> #[trigger] self.cell_ok(i)
        &&& forall|i: int, j: int|
            0 <= i < self.cell_count() && 0 <= j < self.cell_count() && i != j
                ==> #[trigger] self.distinct_cells(i, j)
        &&& forall|k: int| 0 <= k < self.chain().len() ==> #[trigger] self.chain_link_ok(k)
        &&& forall|k1: int, k2: int|
            0 <= k1 < k2 < self.chain().len() ==> self.chain()[k1] != self.chain()[k2]
        &&& self.first_dirty == if self.chain().len() == 0 {
            Handle::Null
        } else {
            Handle::Cell(self.chain()[0] as usize)
        }
        &&& forall|i: int|
            0 <= i < self.cell_count() && #[trigger] self.is_dirty(i) ==> self.chain().contains(i)
        &&& !self.forked() ==> self.chain().len() == 0
        &&& forall|p: int|
            0 <= p < self.total_allocated() && self.payloads@[p] is Some
                ==> exists|i: int| 0 <= i < self.cell_count() && #[trigger] self.references(i, p)
    }

    /// Cell `j` is observably unchanged between two scope states: both
    /// views, the auxiliary datum and the clean/dirty status agree.
    pub open spec fn same_obs(pre: Self, post: Self, j: int) -> bool {
        &&& post.reader_view(j) == pre.reader_view(j)
        &&& post.writer_view(j) == pre.writer_view(j)
        &&& post.aux_of(j) == pre.aux_of(j)
        &&& post.is_dirty(j) == pre.is_dirty(j)
    }

    /// What `handle` does: one fresh clean cell holding `v` under both
    /// views, one fresh payload slot, everything else untouched.
    pub open spec fn create_rel(pre: Self, post: Self, v: T, h: Handle) -> bool {
        &&& h == Handle::Cell(pre.cells@.len() as usize)
        &&& post.cell_count() == pre.cell_count() + 1
        &&& post.forked() == pre.forked()
        &&& post.first_dirty == pre.first_dirty
        &&& post.chain() == pre.chain()
        &&& post.reader_view(h.index_of()) == v
        &&& post.writer_view(h.index_of()) == v
        &&& !post.is_dirty(h.index_of())
        &&& post.aux_of(h.index_of()) is None
        &&& forall|j: int|
            #![trigger post.reader_view(j)]
            #![trigger post.writer_view(j)]
            #![trigger post.aux_of(j)]
            #![trigger post.is_dirty(j)]
            0 <= j < pre.cell_count() ==> Self::same_obs(pre, post, j)
        &&& post.total_allocated() == pre.total_allocated() + 1
        &&& post.live_payloads() == pre.live_payloads() + 1
    }

    /// What `reader_forked` does: raise the reader-active flag and touch
    /// nothing else.
    pub open spec fn fork_rel(pre: Self, post: Self) -> bool {
        &&& post.forked()
        &&& post.cells@ == pre.cells@
        &&& post.payloads@ == pre.payloads@
        &&& post.first_dirty == pre.first_dirty
        &&& post.chain() == pre.chain()
    }

    /// What `write` does to cell `i = h.index_of()`: the writer view becomes
    /// `v`; the reader view keeps the fork-time snapshot while a reader is
    /// active and follows the writer otherwise. An active-mode write to a
    /// clean cell allocates one fresh shadow slot and splices the cell onto
    /// the front of the dirty list (`next_dirty` takes the old head, the
    /// head becomes `h`); any other write stores in place, leaving both slot
    /// indices, the list and its head untouched. The cell's reader slot and
    /// every other cell are untouched in all cases.
    pub open spec fn write_rel(pre: Self, post: Self, h: Handle, v: T) -> bool {
        let i = h.index_of();
        let splice = pre.forked() && !pre.is_dirty(i);
        let fresh: int = if splice {
            1
        } else {
            0
        };
        &&& post.cell_count() == pre.cell_count()
        &&& post.forked() == pre.forked()
        &&& post.writer_view(i) == v
        &&& post.reader_view(i) == if pre.forked() {
            pre.reader_view(i)
        } else {
            v
        }
        &&& post.is_dirty(i) == pre.forked()
        &&& post.aux_of(i) == pre.aux_of(i)
        &&& post.read_slot(i) == pre.read_slot(i)
        &&& if splice {
            &&& post.first_dirty == h
            &&& post.chain() == seq![i] + pre.chain()
            &&& post.cells@[i].next_dirty == pre.first_dirty
            &&& post.write_slot(i) == pre.total_allocated()
            &&& post.payloads@ == pre.payloads@.push(Some(v))
        } else {
            &&& post.first_dirty == pre.first_dirty
            &&& post.chain() == pre.chain()
            &&& post.cells@[i].write_ptr == pre.cells@[i].write_ptr
            &&& post.cells@[i].next_dirty == pre.cells@[i].next_dirty
            &&& post.payloads@ == pre.payloads@.update(pre.write_slot(i), Some(v))
        }
        &&& forall|j: int|
            #![trigger post.cells@[j]]
            0 <= j < pre.cell_count() && j != i ==> post.cells@[j] == pre.cells@[j]
        &&& forall|j: int|
            #![trigger post.reader_view(j)]
            #![trigger post.writer_view(j)]
            #![trigger post.aux_of(j)]
            #![trigger post.is_dirty(j)]
            0 <= j < pre.cell_count() && j != i ==> Self::same_obs(pre, post, j)
        &&& post.total_allocated() == pre.total_allocated() + fresh
        &&& post.live_payloads() == pre.live_payloads() + fresh
        &&& post.dirty_count() == pre.dirty_count() + fresh
    }

    /// What `reader_joined` does: for each cell on the dirty list, free the
    /// stale payload in its reader slot, set the reader slot to the writer
    /// slot (the shadow is never freed) and clear the dirty link; leave
    /// every other cell and every other payload slot untouched; empty the
    /// dirty list and return to the quiescent state.
    pub open spec fn join_rel(pre: Self, post: Self) -> bool {
        &&& !post.forked()
        &&& post.first_dirty == Handle::Null
        &&& post.dirty_count() == 0
        &&& post.cell_count() == pre.cell_count()
        &&& forall|k: int|
            #![trigger pre.chain()[k]]
            0 <= k < pre.chain().len() ==> Self::joined_cell(pre, post, pre.chain()[k])
                && post.payloads@[pre.read_slot(pre.chain()[k])] is None
        &&& forall|j: int|
            #![trigger post.cells@[j]]
            0 <= j < pre.cell_count() && !pre.chain().contains(j) ==> post.cells@[j]
                == pre.cells@[j]
        &&& forall|p: int|
            #![trigger post.payloads@[p]]
            0 <= p < pre.total_allocated() && !Self::freed_by_prefix(
                pre,
                pre.chain(),
                pre.chain().len() as int,
                p,
            ) ==> post.payloads@[p] == pre.payloads@[p]
        &&& forall|j: int|
            #![trigger post.reader_view(j)]
            #![trigger post.writer_view(j)]
            0 <= j < pre.cell_count()
                ==> post.reader_view(j) == pre.writer_view(j) && post.writer_view(j)
                == pre.writer_view(j) && !post.is_dirty(j)
        &&& forall|j: int|
            0 <= j < pre.cell_count() ==> #[trigger] post.aux_of(j) == pre.aux_of(j)
        &&& post.total_allocated() == pre.total_allocated()
        &&& post.live_payloads() == pre.live_payloads() - pre.dirty_count()
        &&& pre.dirty_count() == 0 ==> post.cells@ == pre.cells@ && post.payloads@
            == pre.payloads@
    }

    /// One writer-side operation on the pool, as a value: used to state laws
    /// over whole sequences of operations.
    pub open spec fn step_rel(pre: Self, post: Self, step: WriterStep<T>) -> bool {
        match step {
            WriterStep::Write(h, v) => pre.valid_handle(h) && Self::write_rel(pre, post, h, v),
            WriterStep::Create(v) => Self::create_rel(
                pre,
                post,
                v,
                Handle::Cell(pre.cells@.len() as usize),
            ),
        }
    }

    /// Create a fresh cell holding a copy of `v` under both views and return
    /// a handle to it. Allowed in either state; a cell created while a
    /// reader is active is simply clean.
    pub fn handle(&mut self, v: T) -> (h: Handle)
        requires
            old(self).wf(),
        ensures
            final(self).wf(),
            final(self).valid_handle(h),
            Self::create_rel(*old(self), *final(self), v, h),
    {
        let slot = self.payloads.len();
        self.payloads.push(Some(v));
        let idx = self.cells.len();
        self.cells.push(
            HandleData {
                read_ptr: slot,
                write_ptr: slot,
                read_aux: None,
                next_dirty: Handle::Null,
            },
        );
        let h = Handle::Cell(idx);
        proof {
            let pre = *old(self);
            let post = *self;
            let n = pre.cell_count();
            lemma_count_some_push(pre.payloads@, Some(v));
            assert forall|i: int| 0 <= i < post.cell_count() implies #[trigger] post.cell_ok(i) by {
                if i < n {
                    assert(pre.cell_ok(i));
                } else {
                    assert(post.payloads@[slot as int] is Some);
                }
            }
            assert forall|i: int, j: int|
                0 <= i < post.cell_count() && 0 <= j < post.cell_count() && i
                    != j implies #[trigger] post.distinct_cells(i, j) by {
                if i < n && j < n {
                    assert(pre.distinct_cells(i, j));
                } else if i < n {
                    assert(pre.cell_ok(i));
                } else {
                    assert(pre.cell_ok(j));
                }
            }
            assert forall|k: int| 0 <= k < post.chain().len() implies #[trigger] post.chain_link_ok(
                k,
            ) by {
                assert(pre.chain_link_ok(k));
            }
            assert forall|i: int|
                0 <= i < post.cell_count() && #[trigger] post.is_dirty(i) implies post.chain()
                .contains(i) by {
                assert(i < n && pre.is_dirty(i));
            }
            assert forall|p: int|
                0 <= p < post.total_allocated() && post.payloads@[p] is Some implies exists|i: int|
                0 <= i < post.cell_count() && #[trigger] post.references(i, p) by {
                if p < pre.total_allocated() {
                    let w = choose|w: int|
                        0 <= w < pre.cell_count() && #[trigger] pre.references(w, p);
                    assert(post.references(w, p));
                } else {
                    assert(post.references(n, p));
                }
            }
            assert forall|j: int|
                #![trigger post.reader_view(j)]
                #![trigger post.writer_view(j)]
                #![trigger post.aux_of(j)]
                #![trigger post.is_dirty(j)]
                0 <= j < n implies Self::same_obs(pre, post, j) by {
                assert(pre.cell_ok(j));
            }
        }
        h
    }

    /// Declare that a reader has been forked. The dirty list is provably
    /// empty on entry: a quiescent scope holds no dirty cell.
    pub fn reader_forked(&mut self)
        requires
            old(self).wf(),
            !old(self).forked(),
        ensures
            final(self).wf(),
            Self::fork_rel(*old(self), *final(self)),
    {
        proof {
            assert(self.first_dirty == Handle::Null);
        }
        self.layout_active = true;
        proof {
            let pre = *old(self);
            let post = *self;
            assert forall|i: int| 0 <= i < post.cell_count() implies #[trigger] post.cell_ok(i) by {
                assert(pre.cell_ok(i));
            }
            assert forall|i: int, j: int|
                0 <= i < post.cell_count() && 0 <= j < post.cell_count() && i
                    != j implies #[trigger] post.distinct_cells(i, j) by {
                assert(pre.distinct_cells(i, j));
            }
            assert forall|k: int| 0 <= k < post.chain().len() implies #[trigger] post.chain_link_ok(
                k,
            ) by {
                assert(pre.chain_link_ok(k));
            }
            assert forall|i: int|
                0 <= i < post.cell_count() && #[trigger] post.is_dirty(i) implies post.chain()
                .contains(i) by {
                assert(pre.is_dirty(i));
            }
            assert forall|p: int|
                0 <= p < post.total_allocated() && post.payloads@[p] is Some implies exists|i: int|
                0 <= i < post.cell_count() && #[trigger] post.references(i, p) by {
                let w = choose|w: int| 0 <= w < pre.cell_count() && #[trigger] pre.references(w, p);
                assert(post.references(w, p));
            }
        }
    }

    /// Writer-side write: replace the writer-visible payload of the cell
    /// behind `h` with `v`. While a reader is active, the first write to a
    /// clean cell allocates a shadow slot and splices the cell onto the
    /// front of the dirty list; the reader keeps its fork-time payload.
    pub fn write(&mut self, h: &Handle, v: T)
        requires
            old(self).wf(),
            old(self).valid_handle(*h),
        ensures
            final(self).wf(),
            Self::write_rel(*old(self), *final(self), *h, v),
    {
        let i = unwrap(*h);
        let ghost i0 = h.index_of();
        proof {
            assert(old(self).cell_ok(i0));
        }
        let rec = self.cells[i];
        if self.layout_active && rec.write_ptr == rec.read_ptr {
            let fresh = self.payloads.len();
            self.payloads.push(Some(v));
            let rec2 = HandleData {
                read_ptr: rec.read_ptr,
                write_ptr: fresh,
                read_aux: rec.read_aux,
                next_dirty: self.first_dirty,
            };
            self.cells[i] = rec2;
            self.first_dirty = Handle::Cell(i);
            proof {
                self.dirty_chain@ = seq![i0] + old(self).dirty_chain@;
            }
            proof {
                let pre = *old(self);
                let post = *self;
                let n = pre.cell_count();
                let ch = pre.chain();
                lemma_count_some_push(pre.payloads@, Some(v));
                assert(!ch.contains(i0)) by {
                    if ch.contains(i0) {
                        let k = choose|k: int| 0 <= k < ch.len() && ch[k] == i0;
                        assert(pre.chain_link_ok(k));
                    }
                }
                assert forall|j: int| 0 <= j < n implies #[trigger] post.cell_ok(j) by {
                    assert(pre.cell_ok(j));
                }
                assert forall|a: int, b: int|
                    0 <= a < n && 0 <= b < n && a != b implies #[trigger] post.distinct_cells(
                    a,
                    b,
                ) by {
                    assert(pre.distinct_cells(a, b));
                    if a != i0 && b != i0 {
                    } else if a == i0 {
                        assert(pre.cell_ok(b));
                    } else {
                        assert(pre.cell_ok(a));
                    }
                }
                assert forall|k: int| 0 <= k < post.chain().len() implies #[trigger] post.chain_link_ok(
                    k,
                ) by {
                    if k == 0 {
                        assert(post.chain()[0] == i0);
                    } else {
                        assert(post.chain()[k] == ch[k - 1]);
                        assert(pre.chain_link_ok(k - 1));
                        assert(ch[k - 1] != i0);
                        if k + 1 < post.chain().len() {
                            assert(post.chain()[k + 1] == ch[k]);
                        }
                    }
                }
                assert forall|k1: int, k2: int|
                    0 <= k1 < k2 < post.chain().len() implies post.chain()[k1] != post.chain()[k2] by {
                    if k1 == 0 {
                        assert(post.chain()[k2] == ch[k2 - 1]);
                        assert(ch.contains(ch[k2 - 1]));
                    }
                }
                assert forall|j: int|
                    0 <= j < n && #[trigger] post.is_dirty(j) implies post.chain().contains(j) by {
                    if j == i0 {
                        assert(post.chain()[0] == i0);
                    } else {
                        assert(pre.is_dirty(j));
                        let k = choose|k: int| 0 <= k < ch.len() && ch[k] == j;
                        assert(post.chain()[k + 1] == j);
                    }
                }
                assert forall|p: int|
                    0 <= p < post.total_allocated() && post.payloads@[p] is Some implies exists|
                    w: int,
                |
                    0 <= w < n && #[trigger] post.references(w, p) by {
                    if p < pre.total_allocated() {
                        let w = choose|w: int|
                            0 <= w < pre.cell_count() && #[trigger] pre.references(w, p);
                        assert(post.references(w, p));
                    } else {
                        assert(post.references(i0, p));
                    }
                }
                assert forall|j: int|
                    #![trigger post.reader_view(j)]
                    #![trigger post.writer_view(j)]
                    #![trigger post.aux_of(j)]
                    #![trigger post.is_dirty(j)]
                    0 <= j < n && j != i0 implies Self::same_obs(pre, post, j) by {
                    assert(pre.cell_ok(j));
                }
                assert(post.writer_view(i0) == v);
                assert(post.reader_view(i0) == pre.reader_view(i0));
            }
        } else {
            let wp = rec.write_ptr;
            self.payloads[wp] = Some(v);
            proof {
                let pre = *old(self);
                let post = *self;
                let n = pre.cell_count();
                lemma_count_some_update(pre.payloads@, wp as int, Some(v));
                if pre.is_dirty(i0) {
                    // a dirty cell exists only while a reader is active
                    assert(pre.chain().contains(i0));
                    assert(pre.forked());
                } else {
                    assert(!pre.forked());
                }
                assert forall|j: int| 0 <= j < n implies #[trigger] post.cell_ok(j) by {
                    assert(pre.cell_ok(j));
                }
                assert forall|a: int, b: int|
                    0 <= a < n && 0 <= b < n && a != b implies #[trigger] post.distinct_cells(
                    a,
                    b,
                ) by {
                    assert(pre.distinct_cells(a, b));
                }
                assert forall|k: int| 0 <= k < post.chain().len() implies #[trigger] post.chain_link_ok(
                    k,
                ) by {
                    assert(pre.chain_link_ok(k));
                }
                assert forall|j: int|
                    0 <= j < n && #[trigger] post.is_dirty(j) implies post.chain().contains(j) by {
                    assert(pre.is_dirty(j));
                }
                assert forall|p: int|
                    0 <= p < post.total_allocated() && post.payloads@[p] is Some implies exists|
                    w: int,
                |
                    0 <= w < n && #[trigger] post.references(w, p) by {
                    if p == wp as int {
                        assert(post.references(i0, p));
                    } else {
                        let w = choose|w: int|
                            0 <= w < pre.cell_count() && #[trigger] pre.references(w, p);
                        assert(post.references(w, p));
                    }
                }
                assert forall|j: int|
                    #![trigger post.reader_view(j)]
                    #![trigger post.writer_view(j)]
                    #![trigger post.aux_of(j)]
                    #![trigger post.is_dirty(j)]
                    0 <= j < n && j != i0 implies Self::same_obs(pre, post, j) by {
                    assert(pre.cell_ok(j));
                    assert(pre.distinct_cells(j, i0));
                }
                assert(post.writer_view(i0) == v);
            }
        }
    }

    /// After the join walk, cell `c` has published its shadow: the reader
    /// slot equals the writer slot, the dirty link is cleared, and the
    /// auxiliary datum is untouched.
    pub open spec fn joined_cell(pre: Self, post: Self, c: int) -> bool {
        &&& post.cells@[c].read_ptr == pre.cells@[c].write_ptr
        &&& post.cells@[c].write_ptr == pre.cells@[c].write_ptr
        &&& post.cells@[c].read_aux == pre.cells@[c].read_aux
        &&& post.cells@[c].next_dirty == Handle::Null
    }

    /// Slot `p` is the stale reader payload of one of the first `k` cells on
    /// the dirty list.
    pub open spec fn freed_by_prefix(pre: Self, ch: Seq<int>, k: int, p: int) -> bool {
        exists|m: int| #![trigger ch[m]] 0 <= m < k && pre.read_slot(ch[m]) == p
    }

    /// Join the reader: walk the dirty list, free each stale reader payload,
    /// publish each writer shadow as the new reader payload, clear the dirty
    /// links, and return to the quiescent state.
    pub fn reader_joined(&mut self)
        requires
            old(self).wf(),
            old(self).forked(),
        ensures
            final(self).wf(),
            Self::join_rel(*old(self), *final(self)),
    {
        let ghost pre = *old(self);
        let ghost ch = pre.chain();
        let mut cur = self.first_dirty;
        let ghost mut k: int = 0;
        while cur.is_not_null()
            invariant
                pre.wf(),
                pre == *old(self),
                ch == pre.chain(),
                0 <= k <= ch.len(),
                cur == if k < ch.len() {
                    Handle::Cell(ch[k] as usize)
                } else {
                    Handle::Null
                },
                self.layout_active == pre.layout_active,
                self.first_dirty == pre.first_dirty,
                self.dirty_chain@ == ch,
                self.cells@.len() == pre.cells@.len(),
                self.payloads@.len() == pre.payloads@.len(),
                forall|m: int|
                    #![trigger ch[m]]
                    0 <= m < k ==> Self::joined_cell(pre, *self, ch[m]),
                forall|m: int|
                    #![trigger ch[m]]
                    0 <= m < k ==> 0 <= pre.read_slot(ch[m]) < self.payloads@.len()
                        && self.payloads@[pre.read_slot(ch[m])] is None,
                forall|m: int|
                    #![trigger ch[m]]
                    k <= m < ch.len() ==> self.cells@[ch[m]] == pre.cells@[ch[m]],
                forall|i: int|
                    #![trigger self.cells@[i]]
                    0 <= i < pre.cell_count() && !ch.contains(i) ==> self.cells@[i]
                        == pre.cells@[i],
                forall|p: int|
                    #![trigger self.payloads@[p]]
                    0 <= p < pre.total_allocated() && !Self::freed_by_prefix(pre, ch, k, p)
                        ==> self.payloads@[p] == pre.payloads@[p],
                count_some(self.payloads@) == count_some(pre.payloads@) - k,
            decreases ch.len() - k,
        {
            let ncells = self.cells.len();
            proof {
                assert(k < ch.len());
                assert(pre.chain_link_ok(k));
                assert(ch.contains(ch[k]));
                assert(0 <= ch[k] < ncells as int);
            }
            let i = unwrap(cur);
            let rec = self.cells[i];
            let rp = rec.read_ptr;
            proof {
                assert(pre.cell_ok(ch[k]));
                assert(i as int == ch[k]);
                assert(self.cells@[ch[k]] == pre.cells@[ch[k]]);
                assert(rp as int == pre.read_slot(ch[k]));
                assert(!Self::freed_by_prefix(pre, ch, k, rp as int)) by {
                    if Self::freed_by_prefix(pre, ch, k, rp as int) {
                        let m = choose|m: int|
                            #![trigger ch[m]]
                            0 <= m < k && pre.read_slot(ch[m]) == rp as int;
                        assert(pre.chain_link_ok(m));
                        assert(ch[m] != ch[k]);
                        assert(pre.distinct_cells(ch[m], ch[k]));
                        assert(false);
                    }
                }
                lemma_count_some_update(self.payloads@, rp as int, None::<T>);
            }
            self.payloads[rp] = None;
            let rec2 = HandleData {
                read_ptr: rec.write_ptr,
                write_ptr: rec.write_ptr,
                read_aux: rec.read_aux,
                next_dirty: Handle::Null,
            };
            self.cells[i] = rec2;
            cur = rec.next_dirty;
            proof {
                k = k + 1;
                assert forall|m: int| #![trigger ch[m]] 0 <= m < k implies Self::joined_cell(
                    pre,
                    *self,
                    ch[m],
                ) by {
                    if m < k - 1 {
                        assert(pre.chain_link_ok(m));
                        assert(ch[m] != ch[k - 1]);
                    }
                }
                assert forall|m: int| #![trigger ch[m]] k <= m < ch.len() implies self.cells@[ch[m]]
                    == pre.cells@[ch[m]] by {
                    assert(pre.chain_link_ok(m));
                    assert(ch[m] != ch[k - 1]);
                }
                assert forall|p: int|
                    #![trigger self.payloads@[p]]
                    0 <= p < pre.total_allocated() && !Self::freed_by_prefix(pre, ch, k, p)
                        implies self.payloads@[p] == pre.payloads@[p] by {
                    if p != rp as int {
                        assert(!Self::freed_by_prefix(pre, ch, k - 1, p)) by {
                            if Self::freed_by_prefix(pre, ch, k - 1, p) {
                                let m = choose|m: int|
                                    #![trigger ch[m]]
                                    0 <= m < k - 1 && pre.read_slot(ch[m]) == p;
                                assert(0 <= m < k && pre.read_slot(ch[m]) == p);
                            }
                        }
                    } else {
                        assert(pre.read_slot(ch[k - 1]) == p);
                    }
                }
            }
        }
        proof {
            assert(k == ch.len());
        }
        self.first_dirty = Handle::Null;
        self.layout_active = false;
        proof {
            self.dirty_chain@ = Seq::empty();
        }
        proof {
            let post = *self;
            let n = pre.cell_count();
            // every stale reader slot of a dirty cell was freed; every other
            // slot is untouched
            assert forall|j: int| 0 <= j < n implies !post.is_dirty(j) && #[trigger] post.cell_ok(
                j,
            ) && Self::joined_cell(pre, post, j) by {
                assert(pre.cell_ok(j));
                if ch.contains(j) {
                    let m = choose|m: int| 0 <= m < ch.len() && ch[m] == j;
                    assert(Self::joined_cell(pre, post, ch[m]));
                    assert(!Self::freed_by_prefix(pre, ch, k, pre.write_slot(j))) by {
                        if Self::freed_by_prefix(pre, ch, k, pre.write_slot(j)) {
                            let m2 = choose|m2: int|
                                #![trigger ch[m2]]
                                0 <= m2 < k && pre.read_slot(ch[m2]) == pre.write_slot(j);
                            assert(pre.chain_link_ok(m2));
                            if ch[m2] == j {
                                assert(pre.is_dirty(j));
                            } else {
                                assert(pre.distinct_cells(ch[m2], j));
                            }
                            assert(false);
                        }
                    }
                } else {
                    assert(post.cells@[j] == pre.cells@[j]);
                    if pre.is_dirty(j) {
                        assert(pre.chain().contains(j));
                    }
                    assert(!Self::freed_by_prefix(pre, ch, k, pre.read_slot(j))) by {
                        if Self::freed_by_prefix(pre, ch, k, pre.read_slot(j)) {
                            let m2 = choose|m2: int|
                                #![trigger ch[m2]]
                                0 <= m2 < k && pre.read_slot(ch[m2]) == pre.read_slot(j);
                            assert(pre.chain_link_ok(m2));
                            assert(ch.contains(ch[m2]));
                            assert(pre.distinct_cells(j, ch[m2]));
                            assert(false);
                        }
                    }
                }
            }
            assert forall|j: int|
                0 <= j < n && #[trigger] post.is_dirty(j) implies post.chain().contains(j) by {
                assert(post.cell_ok(j));
                assert(false);
            }
            assert forall|a: int, b: int|
                0 <= a < n && 0 <= b < n && a != b implies #[trigger] post.distinct_cells(a, b) by {
                assert(pre.distinct_cells(a, b));
                assert(post.cell_ok(a));
                assert(post.cell_ok(b));
                assert(Self::joined_cell(pre, post, a));
                assert(Self::joined_cell(pre, post, b));
                assert(pre.cell_ok(a));
                assert(pre.cell_ok(b));
                if ch.contains(a) {
                } else {
                    assert(post.cells@[a] == pre.cells@[a]);
                }
                if ch.contains(b) {
                } else {
                    assert(post.cells@[b] == pre.cells@[b]);
                }
            }
            assert forall|p: int|
                0 <= p < post.total_allocated() && post.payloads@[p] is Some implies exists|w: int|
                0 <= w < n && #[trigger] post.references(w, p) by {
                assert(!Self::freed_by_prefix(pre, ch, k, p)) by {
                    if Self::freed_by_prefix(pre, ch, k, p) {
                        let m = choose|m: int|
                            #![trigger ch[m]]
                            0 <= m < k && pre.read_slot(ch[m]) == p;
                    }
                }
                let w = choose|w: int| 0 <= w < pre.cell_count() && #[trigger] pre.references(w, p);
                if pre.read_slot(w) == p && ch.contains(w) {
                    let m = choose|m: int| #![trigger ch[m]] 0 <= m < ch.len() && ch[m] == w;
                    assert(pre.read_slot(ch[m]) == p);
                    assert(false);
                } else {
                    assert(post.references(w, p));
                }
            }
            assert forall|j: int|
                #![trigger post.reader_view(j)]
                #![trigger post.writer_view(j)]
                0 <= j < n implies post.reader_view(j) == pre.writer_view(j) && post.writer_view(j)
                == pre.writer_view(j) by {
                assert(post.cell_ok(j));
                assert(Self::joined_cell(pre, post, j));
            }
            if ch.len() == 0 {
                assert(post.cells@ =~= pre.cells@);
                assert(post.payloads@ =~= pre.payloads@);
            }
        }
    }

    /// Writer-side read: observe the writer-visible payload, which reflects
    /// the writer's own in-progress edits.
    pub fn read(&self, h: &Handle) -> (r: T)
        requires
            self.wf(),
            self.valid_handle(*h),
        ensures
            r == self.writer_view(h.index_of()),
    {
        let i = unwrap(*h);
        proof {
            assert(self.cell_ok(h.index_of()));
        }
        let rec = self.cells[i];
        let slot: Option<T> = self.payloads[rec.write_ptr];
        slot.unwrap()
    }

    /// What `set_aux` does: attach `a` to the cell behind `h` and touch
    /// nothing else.
    pub open spec fn set_aux_rel(pre: Self, post: Self, h: Handle, a: A) -> bool {
        let i = h.index_of();
        &&& post.cell_count() == pre.cell_count()
        &&& post.forked() == pre.forked()
        &&& post.payloads@ == pre.payloads@
        &&& post.first_dirty == pre.first_dirty
        &&& post.chain() == pre.chain()
        &&& post.aux_of(i) == Some(a)
        &&& post.reader_view(i) == pre.reader_view(i)
        &&& post.writer_view(i) == pre.writer_view(i)
        &&& post.is_dirty(i) == pre.is_dirty(i)
        &&& forall|j: int|
            #![trigger post.reader_view(j)]
            #![trigger post.writer_view(j)]
            #![trigger post.aux_of(j)]
            #![trigger post.is_dirty(j)]
            0 <= j < pre.cell_count() && j != i ==> Self::same_obs(pre, post, j)
    }

    /// Reclaim all storage, as pool destruction does: walk the full roster
    /// of cells, free the payloads of each — only once when the reader and
    /// writer payloads alias — and discard the cell records.
    pub fn reclaim(&mut self)
        requires
            old(self).wf(),
        ensures
            final(self).wf(),
            !final(self).forked(),
            final(self).cell_count() == 0,
            final(self).total_allocated() == old(self).total_allocated(),
            forall|p: int|
                0 <= p < final(self).total_allocated() ==> final(self).payloads@[p] is None,
            final(self).live_payloads() == 0,
    {
        let ghost pre = *old(self);
        let n = self.cells.len();
        let mut idx: usize = 0;
        while idx < n
            invariant
                pre.wf(),
                pre == *old(self),
                0 <= idx as int <= n as int,
                n as int == pre.cell_count(),
                self.cells@ == pre.cells@,
                self.payloads@.len() == pre.payloads@.len(),
                forall|p: int|
                    #![trigger self.payloads@[p]]
                    0 <= p < pre.total_allocated() ==> self.payloads@[p] == (if exists|w: int|
                        0 <= w < idx as int && #[trigger] pre.references(w, p) {
                        None::<T>
                    } else {
                        pre.payloads@[p]
                    }),
            decreases n as int - idx as int,
        {
            proof {
                assert(pre.cell_ok(idx as int));
            }
            let rec = self.cells[idx];
            self.payloads[rec.read_ptr] = None;
            if rec.write_ptr != rec.read_ptr {
                self.payloads[rec.write_ptr] = None;
            }
            idx = idx + 1;
            proof {
                let done = idx as int;
                assert forall|p: int|
                    #![trigger self.payloads@[p]]
                    0 <= p < pre.total_allocated() implies self.payloads@[p] == (if exists|w: int|
                    0 <= w < done && #[trigger] pre.references(w, p) {
                    None::<T>
                } else {
                    pre.payloads@[p]
                }) by {
                    if pre.references(done - 1, p) {
                        assert(self.payloads@[p] is None);
                    } else if exists|w: int| 0 <= w < done - 1 && #[trigger] pre.references(w, p) {
                        let w = choose|w: int| 0 <= w < done - 1 && #[trigger] pre.references(w, p);
                        assert(pre.references(w, p));
                        assert(self.payloads@[p] is None);
                    } else {
                        assert(p != pre.read_slot(done - 1) && p != pre.write_slot(done - 1));
                    }
                }
            }
        }
        proof {
            assert forall|p: int| 0 <= p < self.payloads@.len() implies self.payloads@[p] is None by {
                if self.payloads@[p] is Some {
                    assert(self.payloads@[p] == pre.payloads@[p]);
                    let w = choose|w: int|
                        0 <= w < pre.cell_count() && #[trigger] pre.references(w, p);
                    assert(0 <= w < idx as int && pre.references(w, p));
                    assert(false);
                }
            }
            lemma_count_some_all_none(self.payloads@);
        }
        self.cells.clear();
        self.first_dirty = Handle::Null;
        self.layout_active = false;
        proof {
            self.dirty_chain@ = Seq::empty();
        }
        proof {
            lemma_count_some_all_none(self.payloads@);
        }
    }

    pub fn is_reader_forked(&self) -> (r: bool)
        ensures
            r == self.forked(),
    {
        self.layout_active
    }

    /// Number of cells ever created by this scope.
    pub fn n_cells(&self) -> (r: usize)
        ensures
            r as int == self.cell_count(),
    {
        self.cells.len()
    }

    /// Number of payload slots ever allocated by this scope.
    pub fn n_allocated(&self) -> (r: usize)
        ensures
            r as int == self.total_allocated(),
    {
        self.payloads.len()
    }

    /// Number of payload slots currently allocated (allocated, not freed).
    pub fn n_live(&self) -> (r: usize)
        ensures
            r as int == self.live_payloads(),
    {
        let n = self.payloads.len();
        let mut count: usize = 0;
        let mut p: usize = 0;
        proof {
            assert(self.payloads@.take(0) =~= Seq::<Option<T>>::empty());
        }
        while p < n
            invariant
                0 <= p <= n,
                n == self.payloads@.len(),
                count <= p,
                count as int == count_some(self.payloads@.take(p as int)),
            decreases n - p,
        {
            proof {
                lemma_count_some_take_step(self.payloads@, p as int);
            }
            if self.payloads[p].is_some() {
                count = count + 1;
            }
            p = p + 1;
        }
        proof {
            lemma_count_some_take_all(self.payloads@);
        }
        count
    }
}

impl Handle {
    /// Reader-side read: observe the reader-visible payload, the snapshot
    /// last published by a fork or join.
    pub fn read<T: Copy, A: Copy>(&self, s: &Scope<T, A>) -> (r: T)
        requires
            s.wf(),
            s.valid_handle(*self),
        ensures
            r == s.reader_view(self.index_of()),
    {
        let i = unwrap(*self);
        proof {
            assert(s.cell_ok(self.index_of()));
        }
        let rec = s.cells[i];
        let slot: Option<T> = s.payloads[rec.read_ptr];
        slot.unwrap()
    }

    /// True if auxiliary data is associated with this handle.
    pub fn has_aux<T: Copy, A: Copy>(&self, s: &Scope<T, A>) -> (r: bool)
        requires
            s.wf(),
            s.valid_handle(*self),
        ensures
            r == (s.aux_of(self.index_of()) is Some),
    {
        let i = unwrap(*self);
        s.cells[i].read_aux.is_some()
    }

    /// Attach auxiliary data to this handle. The scope never clones it on
    /// fork and never frees it on join; keeping the datum meaningful over
    /// time is the reader's business.
    pub fn set_aux<T: Copy, A: Copy>(&self, s: &mut Scope<T, A>, aux: A)
        requires
            old(s).wf(),
            old(s).valid_handle(*self),
        ensures
            final(s).wf(),
            Scope::<T, A>::set_aux_rel(*old(s), *final(s), *self, aux),
    {
        let i = unwrap(*self);
        let rec = s.cells[i];
        let rec2 = HandleData {
            read_ptr: rec.read_ptr,
            write_ptr: rec.write_ptr,
            read_aux: Some(aux),
            next_dirty: rec.next_dirty,
        };
        s.cells[i] = rec2;
        proof {
            let pre = *old(s);
            let post = *s;
            let i0 = self.index_of();
            let n = pre.cell_count();
            assert forall|j: int| 0 <= j < n implies #[trigger] post.cell_ok(j) by {
                assert(pre.cell_ok(j));
            }
            assert forall|a: int, b: int|
                0 <= a < n && 0 <= b < n && a != b implies #[trigger] post.distinct_cells(a, b) by {
                assert(pre.distinct_cells(a, b));
            }
            assert forall|k: int| 0 <= k < post.chain().len() implies #[trigger] post.chain_link_ok(
                k,
            ) by {
                assert(pre.chain_link_ok(k));
            }
            assert forall|j: int|
                0 <= j < n && #[trigger] post.is_dirty(j) implies post.chain().contains(j) by {
                assert(pre.is_dirty(j));
            }
            assert forall|p: int|
                0 <= p < post.total_allocated() && post.payloads@[p] is Some implies exists|w: int|
                0 <= w < n && #[trigger] post.references(w, p) by {
                let w = choose|w: int| 0 <= w < pre.cell_count() && #[trigger] pre.references(w, p);
                assert(post.references(w, p));
            }
            assert forall|j: int|
                #![trigger post.reader_view(j)]
                #![trigger post.writer_view(j)]
                #![trigger post.aux_of(j)]
                #![trigger post.is_dirty(j)]
                0 <= j < n && j != i0 implies Scope::<T, A>::same_obs(pre, post, j) by {
                assert(pre.cell_ok(j));
            }
        }
    }

    /// Read the auxiliary data associated with this handle. Asking for
    /// auxiliary data that was never attached is a caller error, ruled out
    /// by contract.
    pub fn aux<T: Copy, A: Copy>(&self, s: &Scope<T, A>) -> (r: A)
        requires
            s.wf(),
            s.valid_handle(*self),
            s.aux_of(self.index_of()) is Some,
        ensures
            Some(r) == s.aux_of(self.index_of()),
    {
        let i = unwrap(*self);
        let a: Option<A> = s.cells[i].read_aux;
        a.unwrap()
    }
}

/// A fresh scope: quiescent, no cells, nothing allocated.
#[allow(non_snake_case)]
pub fn Scope<T: Copy, A: Copy>() -> (s: Scope<T, A>)
    ensures
        s.wf(),
        !s.forked(),
        s.cell_count() == 0,
        s.total_allocated() == 0,
        s.live_payloads() == 0,
        s.first_dirty == Handle::Null,
        s.chain().len() == 0,
{
    Scope {
        layout_active: false,
        first_dirty: Handle::Null,
        cells: Vec::new(),
        payloads: Vec::new(),
        dirty_chain: Ghost(Seq::empty()),
    }
}

} // verus!
