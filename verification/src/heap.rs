//! Traced heap: owns every garbage-collected cell and the root registry, and
//! runs mark-and-sweep collection.
//!
//! A cell is addressed by a `GcPointer`. Collection traces every root — the
//! externally registered handle slots plus the explicitly pushed native
//! roots — and reclaims exactly the cells not reachable from them.

use vstd::prelude::*;
use crate::symbol_table::JsSymbol;

verus! {

/// Reference to a heap cell.
#[derive(Clone, Copy, PartialEq, Eq, Hash, Debug, Structural)]
pub struct GcPointer {
    pub index: usize,
}

/// A runtime value: the operand domain of the virtual machine and the
/// property domain of heap objects.
#[derive(Debug, PartialEq, Eq)]
pub enum Value {
    Undef,
    Null,
    Boolean(bool),
    Int(i64),
    Str(String),
    Nan,
    Obj(GcPointer),
}

/// Type identifier of a symbol cell.
pub const TYPE_ID_SYMBOL: u64 = 1;

/// Type identifier of an object cell.
pub const TYPE_ID_OBJECT: u64 = 2;

/// Type identifier of a plain traced node cell.
pub const TYPE_ID_NODE: u64 = 3;

/// The payload of a heap cell. Each variant supplies its own trace behavior:
/// the outgoing heap references it holds.
pub enum CellPayload {
    /// A runtime symbol; holds no outgoing references (no-op trace).
    Sym(JsSymbol),
    /// An object: enumerable properties keyed by symbol identifier.
    Object(Vec<(u32, Value)>),
    /// A plain node holding outgoing references; the simplest traceable cell.
    Node(Vec<GcPointer>),
}

/// A garbage-collected cell.
pub struct Cell {
    pub payload: CellPayload,
}

/// Outgoing references of an object's property list, as cell indices.
pub open spec fn prop_edges(props: Seq<(u32, Value)>) -> Seq<int>
    decreases props.len(),
{
    if props.len() == 0 {
        Seq::empty()
    } else {
        let rest = prop_edges(props.drop_last());
        match props.last().1 {
            Value::Obj(p) => rest.push(p.index as int),
            _ => rest,
        }
    }
}

impl Cell {
    /// The type identifier the collector and the native-code boundary
    /// dispatch on.
    pub open spec fn spec_type_id(self) -> u64 {
        match self.payload {
            CellPayload::Sym(_) => TYPE_ID_SYMBOL,
            CellPayload::Object(_) => TYPE_ID_OBJECT,
            CellPayload::Node(_) => TYPE_ID_NODE,
        }
    }

    /// Dynamic type identifier of this cell.
    pub fn type_id(&self) -> (r: u64)
        ensures
            r == self.spec_type_id(),
    {
        match &self.payload {
            CellPayload::Sym(_) => TYPE_ID_SYMBOL,
            CellPayload::Object(_) => TYPE_ID_OBJECT,
            CellPayload::Node(_) => TYPE_ID_NODE,
        }
    }

    /// Serialization hook pair (deserialize, allocate) exposed to the
    /// external snapshot subsystem; hooks are resolved per type, so the pair
    /// is determined by the type identifier.
    pub fn deser_pair(&self) -> (r: (u64, u64))
        ensures
            r.0 == self.spec_type_id(),
            r.1 == self.spec_type_id(),
    {
        let t = self.type_id();
        (t, t)
    }

    /// Outgoing heap references of this cell, as cell indices; the trace
    /// operation of the payload.
    pub open spec fn edges(self) -> Seq<int> {
        match self.payload {
            CellPayload::Sym(_) => Seq::empty(),
            CellPayload::Object(props) => prop_edges(props@),
            CellPayload::Node(ch) => ch@.map_values(|p: GcPointer| p.index as int),
        }
    }
}

/// Whether the index list `wl` holds the cell index `i`.
pub open spec fn in_list(wl: Seq<usize>, i: int) -> bool {
    exists|k: int| 0 <= k < wl.len() && (#[trigger] wl[k]) as int == i
}

/// Number of `false` entries of a boolean sequence.
pub open spec fn count_false(s: Seq<bool>) -> nat
    decreases s.len(),
{
    if s.len() == 0 {
        0
    } else {
        count_false(s.drop_last()) + (if s.last() {
            0nat
        } else {
            1nat
        })
    }
}

proof fn lemma_count_false_update(s: Seq<bool>, i: int)
    requires
        0 <= i < s.len(),
        !s[i],
    ensures
        count_false(s.update(i, true)) + 1 == count_false(s),
    decreases s.len(),
{
    let s2 = s.update(i, true);
    if i == s.len() - 1 {
        assert(s2.drop_last() =~= s.drop_last());
    } else {
        assert(s2.drop_last() =~= s.drop_last().update(i, true));
        lemma_count_false_update(s.drop_last(), i);
    }
}

/// The heap: every cell, the externally registered handle slots, and the
/// explicitly registered native roots.
pub struct Heap {
    pub(crate) cells: Vec<Option<Cell>>,
    pub(crate) handles: Vec<Option<HandleInner>>,
    pub(crate) roots: Vec<GcPointer>,
}

impl Heap {
    /// The cell store, slot by slot.
    pub closed spec fn cells_view(self) -> Seq<Option<Cell>> {
        self.cells@
    }

    /// The handle root registry, slot by slot.
    pub closed spec fn handles_view(self) -> Seq<Option<HandleInner>> {
        self.handles@
    }

    /// The native roots.
    pub closed spec fn roots_view(self) -> Seq<GcPointer> {
        self.roots@
    }

    /// Number of cell slots.
    pub open spec fn n_cells(self) -> int {
        self.cells_view().len() as int
    }

    /// Whether cell slot `i` holds a live cell.
    pub open spec fn live(self, i: int) -> bool {
        0 <= i < self.n_cells() && self.cells_view()[i] is Some
    }

    /// The cell at live slot `i`.
    pub open spec fn cell_at(self, i: int) -> Cell {
        self.cells_view()[i]->Some_0
    }

    /// Whether a pointer refers to a live cell.
    pub open spec fn ptr_ok(self, p: GcPointer) -> bool {
        self.live(p.index as int)
    }

    /// Whether handle slot `h` is registered.
    pub open spec fn handle_live(self, h: int) -> bool {
        0 <= h < self.handles_view().len() && self.handles_view()[h] is Some
    }

    /// The cell the registered handle slot `h` keeps rooted.
    pub open spec fn handle_target(self, h: int) -> GcPointer {
        self.handles_view()[h]->Some_0.value
    }

    /// The reference count of registered handle slot `h`.
    pub open spec fn handle_rc(self, h: int) -> u32 {
        self.handles_view()[h]->Some_0.rc
    }

    /// Every reference a cell holds points at a live cell, and an object's
    /// property list holds each key at most once.
    pub open spec fn cell_ok(self, c: Cell) -> bool {
        match c.payload {
            CellPayload::Sym(_) => true,
            CellPayload::Object(props) => {
                &&& forall|k: int|
                    0 <= k < props@.len() && (#[trigger] props@[k]).1 is Obj ==> self.ptr_ok(
                        props@[k].1->Obj_0,
                    )
                &&& forall|k1: int, k2: int|
                    0 <= k1 < k2 < props@.len() ==> (#[trigger] props@[k1]).0 != (
                    #[trigger] props@[k2]).0
            },
            CellPayload::Node(ch) => forall|k: int|
                0 <= k < ch@.len() ==> self.ptr_ok(#[trigger] ch@[k]),
        }
    }

    /// Heap invariant: every live cell's references, every registered
    /// handle's target and every native root point at live cells, and every
    /// registered handle counts at least one alias.
    pub open spec fn wf(self) -> bool {
        &&& forall|i: int| #[trigger] self.live(i) ==> self.cell_ok(self.cell_at(i))
        &&& forall|hh: int| #[trigger] self.handle_live(hh) ==> self.ptr_ok(
            self.handle_target(hh),
        ) && self.handle_rc(hh) >= 1
        &&& forall|k: int|
            0 <= k < self.roots_view().len() ==> self.ptr_ok(#[trigger] self.roots_view()[k])
    }

    /// Whether cell index `i` is a root: the target of a registered handle
    /// or a native root.
    pub open spec fn is_root(self, i: int) -> bool {
        (exists|hh: int|
            self.handle_live(hh) && (#[trigger] self.handle_target(hh)).index as int == i) || (
        exists|k: int|
            0 <= k < self.roots_view().len() && (#[trigger] self.roots_view()[k]).index as int
                == i)
    }

    /// One tracing step: a live cell `j` holds a reference to cell `i`.
    pub open spec fn edge_step(self, j: int, i: int) -> bool {
        self.live(j) && self.cell_at(j).edges().contains(i)
    }

    /// Reachability from the roots in at most `n` tracing steps.
    #[verifier::opaque]
    pub open spec fn reach_n(self, i: int, n: nat) -> bool
        decreases n,
    {
        if n == 0 {
            self.is_root(i)
        } else {
            self.reach_n(i, (n - 1) as nat) || (exists|j: int|
                #[trigger] self.edge_step(j, i) && self.reach_n(j, (n - 1) as nat))
        }
    }

    /// Reachability from the roots.
    pub open spec fn reachable(self, i: int) -> bool {
        exists|n: nat| self.reach_n(i, n)
    }
}

/// A root is reachable.
pub proof fn lemma_root_reachable(h: Heap, i: int)
    requires
        h.is_root(i),
    ensures
        h.reachable(i),
{
    assert(h.reach_n(i, 0)) by {
        reveal_with_fuel(Heap::reach_n, 1);
    }
}

/// Reachability steps through the references of a live reachable cell.
pub proof fn lemma_reach_step(h: Heap, j: int, i: int)
    requires
        h.reachable(j),
        h.live(j),
        h.cell_at(j).edges().contains(i),
    ensures
        h.reachable(i),
{
    reveal_with_fuel(Heap::reach_n, 1);
    let n = choose|nn: nat| h.reach_n(j, nn);
    let m: nat = n + 1;
    assert(h.edge_step(j, i));
    assert(h.reach_n(j, (m - 1) as nat));
    assert(h.reach_n(i, m));
}

proof fn lemma_prop_edges_live(h: Heap, props: Seq<(u32, Value)>)
    requires
        forall|k: int|
            0 <= k < props.len() && (#[trigger] props[k]).1 is Obj ==> h.ptr_ok(
                props[k].1->Obj_0,
            ),
    ensures
        forall|e: int| #[trigger] prop_edges(props).contains(e) ==> h.live(e),
    decreases props.len(),
{
    if props.len() > 0 {
        let rest = props.drop_last();
        lemma_prop_edges_live(h, rest);
        assert forall|e: int| #[trigger] prop_edges(props).contains(e) implies h.live(e) by {
            let m = choose|m: int|
                0 <= m < prop_edges(props).len() && prop_edges(props)[m] == e;
            match props.last().1 {
                Value::Obj(p) => {
                    if m == prop_edges(props).len() - 1 {
                        assert(props[props.len() - 1].1 is Obj);
                        assert(h.ptr_ok(p));
                    } else {
                        assert(prop_edges(rest).contains(e)) by {
                            assert(prop_edges(rest)[m] == e);
                        }
                    }
                },
                _ => {
                    assert(prop_edges(rest).contains(e)) by {
                        assert(prop_edges(rest)[m] == e);
                    }
                },
            }
        }
    }
}

/// Every reference a well-formed cell's trace visits points at a live cell.
proof fn lemma_cell_edges_live(h: Heap, c: Cell)
    requires
        h.cell_ok(c),
    ensures
        forall|e: int| #[trigger] c.edges().contains(e) ==> h.live(e),
{
    match c.payload {
        CellPayload::Sym(_) => {},
        CellPayload::Object(props) => {
            lemma_prop_edges_live(h, props@);
        },
        CellPayload::Node(ch) => {
            assert forall|e: int| #[trigger] c.edges().contains(e) implies h.live(e) by {
                let s = ch@.map_values(|p: GcPointer| p.index as int);
                let k = choose|k: int| 0 <= k < s.len() && s[k] == e;
                assert(h.ptr_ok(ch@[k]));
            }
        },
    }
}

proof fn lemma_reach_n_live(h: Heap, i: int, n: nat)
    requires
        h.wf(),
        h.reach_n(i, n),
    ensures
        h.live(i),
    decreases n,
{
    reveal_with_fuel(Heap::reach_n, 1);
    if n == 0 {
        assert(h.is_root(i));
        if exists|hh: int|
            h.handle_live(hh) && (#[trigger] h.handle_target(hh)).index as int == i {
            let hh = choose|hh: int|
                h.handle_live(hh) && (#[trigger] h.handle_target(hh)).index as int == i;
            assert(h.handle_live(hh));
            assert(h.ptr_ok(h.handle_target(hh)));
            assert(h.live(i));
        } else {
            let k = choose|k: int|
                0 <= k < h.roots_view().len() && (#[trigger] h.roots_view()[k]).index as int == i;
            assert(h.ptr_ok(h.roots_view()[k]));
            assert(h.live(i));
        }
    } else {
        if h.reach_n(i, (n - 1) as nat) {
            lemma_reach_n_live(h, i, (n - 1) as nat);
        } else {
            let j = choose|j: int| #[trigger] h.edge_step(j, i) && h.reach_n(j, (n - 1) as nat);
            assert(h.live(j));
            lemma_cell_edges_live(h, h.cell_at(j));
            assert(h.cell_at(j).edges().contains(i));
        }
    }
}

/// A reachable cell is live.
pub proof fn lemma_reachable_live(h: Heap, i: int)
    requires
        h.wf(),
        h.reachable(i),
    ensures
        h.live(i),
{
    let n = choose|n: nat| h.reach_n(i, n);
    lemma_reach_n_live(h, i, n);
}

proof fn lemma_closed_marked(h: Heap, marked: Seq<bool>, i: int, n: nat)
    requires
        h.wf(),
        marked.len() == h.n_cells(),
        forall|r: int| 0 <= r < h.n_cells() && #[trigger] h.is_root(r) ==> marked[r],
        forall|a: int, e: int|
            0 <= a < h.n_cells() && marked[a] && #[trigger] h.cell_at(a).edges().contains(e)
                ==> 0 <= e < h.n_cells() && marked[e],
        h.reach_n(i, n),
    ensures
        0 <= i < h.n_cells() && marked[i],
    decreases n,
{
    reveal_with_fuel(Heap::reach_n, 1);
    lemma_reach_n_live(h, i, n);
    if n == 0 {
    } else {
        if h.reach_n(i, (n - 1) as nat) {
            lemma_closed_marked(h, marked, i, (n - 1) as nat);
        } else {
            let j = choose|j: int| #[trigger] h.edge_step(j, i) && h.reach_n(j, (n - 1) as nat);
            lemma_closed_marked(h, marked, j, (n - 1) as nat);
            assert(h.cell_at(j).edges().contains(i));
        }
    }
}

pub(crate) proof fn lemma_cell_ok_monotone(h1: Heap, h2: Heap, c: Cell)
    requires
        h1.cell_ok(c),
        forall|p: GcPointer| #[trigger] h1.ptr_ok(p) ==> h2.ptr_ok(p),
    ensures
        h2.cell_ok(c),
{
    match c.payload {
        CellPayload::Sym(_) => {},
        CellPayload::Object(props) => {
            assert forall|k: int|
                0 <= k < props@.len() && (#[trigger] props@[k]).1 is Obj implies h2.ptr_ok(
                props@[k].1->Obj_0,
            ) by {
                assert(h1.ptr_ok(props@[k].1->Obj_0));
            }
        },
        CellPayload::Node(ch) => {
            assert forall|k: int| 0 <= k < ch@.len() implies h2.ptr_ok(#[trigger] ch@[k]) by {
                assert(h1.ptr_ok(ch@[k]));
            }
        },
    }
}

/// A property holding an object reference contributes that reference to the
/// property list's outgoing edges.
proof fn lemma_prop_edge_of(props: Seq<(u32, Value)>, k: int)
    requires
        0 <= k < props.len(),
        props[k].1 is Obj,
    ensures
        prop_edges(props).contains(props[k].1->Obj_0.index as int),
    decreases props.len(),
{
    let e = props[k].1->Obj_0.index as int;
    if k == props.len() - 1 {
        assert(prop_edges(props).last() == e);
        assert(prop_edges(props).contains(e)) by {
            assert(prop_edges(props)[prop_edges(props).len() - 1] == e);
        }
    } else {
        lemma_prop_edge_of(props.drop_last(), k);
        let m = choose|m: int|
            0 <= m < prop_edges(props.drop_last()).len() && prop_edges(props.drop_last())[m] == e;
        assert(prop_edges(props).contains(e)) by {
            assert(prop_edges(props)[m] == e);
        }
    }
}

/// The outgoing references of a cell, as the trace operation enumerates
/// them.
fn cell_children(c: &Cell) -> (r: Vec<GcPointer>)
    ensures
        r@.len() == c.edges().len(),
        forall|k: int| 0 <= k < r@.len() ==> (#[trigger] r@[k]).index as int == c.edges()[k],
{
    match &c.payload {
        CellPayload::Sym(_) => Vec::new(),
        CellPayload::Node(ch) => {
            let mut r: Vec<GcPointer> = Vec::new();
            let mut k: usize = 0;
            while k < ch.len()
                invariant
                    k <= ch@.len(),
                    r@.len() == k,
                    forall|m: int| 0 <= m < k ==> #[trigger] r@[m] == ch@[m],
                decreases ch@.len() - k,
            {
                r.push(ch[k]);
                k = k + 1;
            }
            proof {
                assert(c.edges() =~= ch@.map_values(|p: GcPointer| p.index as int));
            }
            r
        },
        CellPayload::Object(props) => {
            let mut r: Vec<GcPointer> = Vec::new();
            let mut k: usize = 0;
            while k < props.len()
                invariant
                    k <= props@.len(),
                    r@.len() == prop_edges(props@.take(k as int)).len(),
                    forall|m: int|
                        0 <= m < r@.len() ==> (#[trigger] r@[m]).index as int == prop_edges(
                            props@.take(k as int),
                        )[m],
                decreases props@.len() - k,
            {
                proof {
                    assert(props@.take(k as int + 1).drop_last() =~= props@.take(k as int));
                    assert(props@.take(k as int + 1).last() == props@[k as int]);
                }
                match &props[k].1 {
                    Value::Obj(p) => {
                        r.push(*p);
                    },
                    _ => {},
                }
                k = k + 1;
            }
            proof {
                assert(props@.take(props@.len() as int) =~= props@);
            }
            r
        },
    }
}

impl Heap {
    /// A fresh heap: no cells, no handles, no roots.
    pub fn new() -> (r: Self)
        ensures
            r.wf(),
            r.cells_view() =~= Seq::empty(),
            r.handles_view() =~= Seq::empty(),
            r.roots_view() =~= Seq::empty(),
    {
        Heap { cells: Vec::new(), handles: Vec::new(), roots: Vec::new() }
    }

    /// Place a value under collector management. The value's outgoing
    /// references must point at live cells of this heap.
    pub fn allocate(&mut self, value: Cell) -> (r: GcPointer)
        requires
            old(self).wf(),
            old(self).cell_ok(value),
        ensures
            final(self).wf(),
            r.index as int == old(self).n_cells(),
            final(self).cells_view() =~= old(self).cells_view().push(Some(value)),
            final(self).handles_view() == old(self).handles_view(),
            final(self).roots_view() == old(self).roots_view(),
            final(self).ptr_ok(r),
    {
        let idx = self.cells.len();
        self.cells.push(Some(value));
        proof {
            assert forall|p: GcPointer| #[trigger] old(self).ptr_ok(p) implies self.ptr_ok(p) by {}
            assert forall|i: int| #[trigger] self.live(i) implies self.cell_ok(self.cell_at(i)) by {
                if i < old(self).n_cells() {
                    assert(old(self).live(i));
                    assert(old(self).cell_ok(old(self).cell_at(i)));
                    assert(self.cell_at(i) == old(self).cell_at(i));
                    lemma_cell_ok_monotone(*old(self), *self, self.cell_at(i));
                } else {
                    assert(self.cell_at(i) == value);
                    lemma_cell_ok_monotone(*old(self), *self, value);
                }
            }
            assert forall|hh: int| #[trigger] self.handle_live(hh) implies self.ptr_ok(
                self.handle_target(hh),
            ) && self.handle_rc(hh) >= 1 by {
                assert(old(self).handle_live(hh));
                assert(old(self).ptr_ok(old(self).handle_target(hh)));
            }
            assert forall|k: int| 0 <= k < self.roots_view().len() implies self.ptr_ok(
                #[trigger] self.roots_view()[k],
            ) by {
                assert(old(self).ptr_ok(old(self).roots_view()[k]));
            }
        }
        GcPointer { index: idx }
    }

    /// Register a native root (a VM-held location) with the collector.
    pub fn push_root(&mut self, p: GcPointer)
        requires
            old(self).wf(),
            old(self).ptr_ok(p),
        ensures
            final(self).wf(),
            final(self).roots_view() =~= old(self).roots_view().push(p),
            final(self).cells_view() == old(self).cells_view(),
            final(self).handles_view() == old(self).handles_view(),
    {
        self.roots.push(p);
        proof {
            assert forall|i: int| #[trigger] self.live(i) implies self.cell_ok(self.cell_at(i)) by {
                assert(old(self).live(i));
                assert(old(self).cell_ok(old(self).cell_at(i)));
                assert forall|q: GcPointer| #[trigger] old(self).ptr_ok(q) implies self.ptr_ok(
                    q,
                ) by {}
                lemma_cell_ok_monotone(*old(self), *self, self.cell_at(i));
            }
            assert forall|hh: int| #[trigger] self.handle_live(hh) implies self.ptr_ok(
                self.handle_target(hh),
            ) && self.handle_rc(hh) >= 1 by {
                assert(old(self).handle_live(hh));
                assert(old(self).ptr_ok(old(self).handle_target(hh)));
            }
            assert forall|k: int| 0 <= k < self.roots_view().len() implies self.ptr_ok(
                #[trigger] self.roots_view()[k],
            ) by {
                if k < old(self).roots_view().len() {
                    assert(old(self).ptr_ok(old(self).roots_view()[k]));
                } else {
                    assert(self.roots_view()[k] == p);
                }
            }
        }
    }

    /// Drop the most recently registered native root.
    pub fn pop_root(&mut self)
        requires
            old(self).wf(),
            old(self).roots_view().len() > 0,
        ensures
            final(self).wf(),
            final(self).roots_view() =~= old(self).roots_view().drop_last(),
            final(self).cells_view() == old(self).cells_view(),
            final(self).handles_view() == old(self).handles_view(),
    {
        let _ = self.roots.pop();
        proof {
            assert forall|i: int| #[trigger] self.live(i) implies self.cell_ok(self.cell_at(i)) by {
                assert(old(self).live(i));
                assert(old(self).cell_ok(old(self).cell_at(i)));
                assert forall|q: GcPointer| #[trigger] old(self).ptr_ok(q) implies self.ptr_ok(
                    q,
                ) by {}
                lemma_cell_ok_monotone(*old(self), *self, self.cell_at(i));
            }
            assert forall|hh: int| #[trigger] self.handle_live(hh) implies self.ptr_ok(
                self.handle_target(hh),
            ) && self.handle_rc(hh) >= 1 by {
                assert(old(self).handle_live(hh));
                assert(old(self).ptr_ok(old(self).handle_target(hh)));
            }
            assert forall|k: int| 0 <= k < self.roots_view().len() implies self.ptr_ok(
                #[trigger] self.roots_view()[k],
            ) by {
                assert(self.roots_view()[k] == old(self).roots_view()[k]);
                assert(old(self).ptr_ok(old(self).roots_view()[k]));
            }
        }
    }

    /// Borrow the cell a pointer refers to, if it is live.
    pub fn try_cell_ref(&self, p: GcPointer) -> (r: Option<&Cell>)
        ensures
            (match r {
                Some(c) => self.ptr_ok(p) && *c == self.cell_at(p.index as int),
                None => !self.ptr_ok(p),
            }),
    {
        if p.index < self.cells.len() {
            match &self.cells[p.index] {
                Some(c) => Some(c),
                None => None,
            }
        } else {
            None
        }
    }

    /// Borrow the live cell a pointer refers to.
    pub fn cell_ref(&self, p: GcPointer) -> (r: &Cell)
        requires
            self.ptr_ok(p),
        ensures
            *r == self.cell_at(p.index as int),
    {
        match &self.cells[p.index] {
            Some(c) => c,
            None => {
                proof {
                    assert(false);
                }
                vstd::pervasive::unreached()
            },
        }
    }

    /// Mark phase: compute exactly the set of cells reachable from the
    /// handle registry and the native roots.
    fn mark(&self) -> (marked: Vec<bool>)
        requires
            self.wf(),
        ensures
            marked@.len() == self.n_cells(),
            forall|i: int| 0 <= i < self.n_cells() ==> (#[trigger] marked@[i] <==> self.reachable(i)),
    {
        let n = self.cells.len();
        let mut marked: Vec<bool> = Vec::new();
        while marked.len() < n
            invariant
                marked@.len() <= n,
                forall|k: int| 0 <= k < marked@.len() ==> !(#[trigger] marked@[k]),
            decreases n - marked.len(),
        {
            marked.push(false);
        }
        let mut worklist: Vec<usize> = Vec::new();
        let mut h: usize = 0;
        while h < self.handles.len()
            invariant
                self.wf(),
                n == self.n_cells(),
                marked@.len() == n,
                h <= self.handles_view().len(),
                forall|k: int|
                    0 <= k < worklist@.len() ==> (#[trigger] worklist@[k]) < n
                        && marked@[worklist@[k] as int],
                forall|i: int|
                    0 <= i < n && #[trigger] marked@[i] ==> self.reachable(i) && self.live(i),
                forall|i: int| 0 <= i < n && #[trigger] marked@[i] ==> in_list(worklist@, i),
                forall|h2: int|
                    0 <= h2 < h && #[trigger] self.handle_live(h2) ==> marked@[self.handle_target(
                        h2,
                    ).index as int],
            decreases self.handles_view().len() - h,
        {
            let slot = self.handles[h];
            match slot {
                Some(inner) => {
                    let t = inner.value.index;
                    proof {
                        assert(self.handle_live(h as int));
                        assert(self.ptr_ok(self.handle_target(h as int)));
                        assert(self.is_root(t as int));
                        lemma_root_reachable(*self, t as int);
                    }
                    let ghost wlb = worklist@;
                    let ghost mkb = marked@;
                    if !marked[t] {
                        marked[t] = true;
                        worklist.push(t);
                        proof {
                            assert forall|i: int| 0 <= i < n && #[trigger] marked@[i] implies
                                in_list(worklist@, i) by {
                                if i == t as int {
                                    assert((#[trigger] worklist@[wlb.len() as int]) as int == i);
                                } else {
                                    assert(mkb[i]);
                                    assert(in_list(wlb, i));
                                    let k = choose|k: int|
                                        0 <= k < wlb.len() && (#[trigger] wlb[k]) as int == i;
                                    assert(worklist@[k] as int == i);
                                }
                            }
                        }
                    }
                },
                None => {},
            }
            h = h + 1;
        }
        let mut rk: usize = 0;
        while rk < self.roots.len()
            invariant
                self.wf(),
                n == self.n_cells(),
                marked@.len() == n,
                rk <= self.roots_view().len(),
                forall|k: int|
                    0 <= k < worklist@.len() ==> (#[trigger] worklist@[k]) < n
                        && marked@[worklist@[k] as int],
                forall|i: int|
                    0 <= i < n && #[trigger] marked@[i] ==> self.reachable(i) && self.live(i),
                forall|i: int| 0 <= i < n && #[trigger] marked@[i] ==> in_list(worklist@, i),
                forall|h2: int|
                    #[trigger] self.handle_live(h2) ==> marked@[self.handle_target(
                        h2,
                    ).index as int],
                forall|k2: int|
                    0 <= k2 < rk ==> marked@[(#[trigger] self.roots_view()[k2]).index as int],
            decreases self.roots_view().len() - rk,
        {
            let p = self.roots[rk];
            let t = p.index;
            proof {
                assert(self.ptr_ok(self.roots_view()[rk as int]));
                assert(self.is_root(t as int));
                lemma_root_reachable(*self, t as int);
            }
            let ghost wlb = worklist@;
            let ghost mkb = marked@;
            if !marked[t] {
                marked[t] = true;
                worklist.push(t);
                proof {
                    assert forall|i: int| 0 <= i < n && #[trigger] marked@[i] implies in_list(
                        worklist@,
                        i,
                    ) by {
                        if i == t as int {
                            assert((#[trigger] worklist@[wlb.len() as int]) as int == i);
                        } else {
                            assert(mkb[i]);
                            assert(in_list(wlb, i));
                            let k = choose|k: int|
                                0 <= k < wlb.len() && (#[trigger] wlb[k]) as int == i;
                            assert(worklist@[k] as int == i);
                        }
                    }
                }
            }
            rk = rk + 1;
        }
        proof {
            assert forall|i: int| 0 <= i < n && #[trigger] self.is_root(i) implies marked@[i] by {
                if exists|hh: int|
                    self.handle_live(hh) && (#[trigger] self.handle_target(hh)).index as int
                        == i {
                    let hh = choose|hh: int|
                        self.handle_live(hh) && (#[trigger] self.handle_target(hh)).index as int
                            == i;
                    assert(marked@[self.handle_target(hh).index as int]);
                } else {
                    let k = choose|k: int|
                        0 <= k < self.roots_view().len() && (
                        #[trigger] self.roots_view()[k]).index as int == i;
                    assert(marked@[self.roots_view()[k].index as int]);
                }
            }
        }
        while worklist.len() > 0
            invariant
                self.wf(),
                n == self.n_cells(),
                marked@.len() == n,
                forall|k: int|
                    0 <= k < worklist@.len() ==> (#[trigger] worklist@[k]) < n
                        && marked@[worklist@[k] as int],
                forall|i: int|
                    0 <= i < n && #[trigger] marked@[i] ==> self.reachable(i) && self.live(i),
                forall|i: int| 0 <= i < n && #[trigger] self.is_root(i) ==> marked@[i],
                forall|i: int, e: int|
                    0 <= i < n && marked@[i] && !in_list(worklist@, i)
                        && #[trigger] self.cell_at(i).edges().contains(e) ==> 0 <= e < n
                        && marked@[e],
            decreases count_false(marked@), worklist@.len(),
        {
            let ghost wl_head = worklist@;
            let ghost marked_head = marked@;
            let jopt = worklist.pop();
            let j: usize = match jopt {
                Some(x) => x,
                None => 0,
            };
            proof {
                assert(marked@[j as int]);
                assert(self.live(j as int));
            }
            let children: Vec<GcPointer> = match &self.cells[j] {
                Some(c) => cell_children(c),
                None => Vec::new(),
            };
            let ghost edges = self.cell_at(j as int).edges();
            proof {
                assert(wl_head[wl_head.len() - 1] == j);
                assert forall|ii: int, e: int|
                    0 <= ii < n && marked@[ii] && !in_list(worklist@, ii) && ii != j as int
                        && #[trigger] self.cell_at(ii).edges().contains(e) implies 0 <= e < n
                    && marked@[e] by {
                    assert(!in_list(wl_head, ii)) by {
                        if in_list(wl_head, ii) {
                            let k = choose|k: int|
                                0 <= k < wl_head.len() && (#[trigger] wl_head[k]) as int == ii;
                            if k < wl_head.len() - 1 {
                                assert(worklist@[k] as int == ii);
                            }
                        }
                    }
                }
            }
            let mut ci: usize = 0;
            while ci < children.len()
                invariant
                    self.wf(),
                    n == self.n_cells(),
                    marked@.len() == n,
                    ci <= children@.len(),
                    children@.len() == edges.len(),
                    forall|k: int|
                        0 <= k < children@.len() ==> (#[trigger] children@[k]).index as int
                            == edges[k],
                    edges == self.cell_at(j as int).edges(),
                    0 <= (j as int) < n,
                    marked@[j as int],
                    self.live(j as int),
                    forall|k: int|
                        0 <= k < worklist@.len() ==> (#[trigger] worklist@[k]) < n
                            && marked@[worklist@[k] as int],
                    forall|i: int|
                        0 <= i < n && #[trigger] marked@[i] ==> self.reachable(i) && self.live(i),
                    forall|i: int| 0 <= i < n && #[trigger] self.is_root(i) ==> marked@[i],
                    forall|i: int, e: int|
                        0 <= i < n && marked@[i] && !in_list(worklist@, i) && i != j as int
                            && #[trigger] self.cell_at(i).edges().contains(e) ==> 0 <= e < n
                            && marked@[e],
                    forall|k: int|
                        0 <= k < ci ==> 0 <= (#[trigger] edges[k]) < n && marked@[edges[k]],
                    count_false(marked@) < count_false(marked_head) || (count_false(marked@)
                        == count_false(marked_head) && worklist@.len() == wl_head.len() - 1),
                decreases children@.len() - ci,
            {
                let c = children[ci];
                let t = c.index;
                proof {
                    assert(children@[ci as int].index as int == edges[ci as int]);
                    assert(edges.contains(edges[ci as int]));
                    assert(self.cell_at(j as int).edges().contains(t as int));
                    lemma_reach_step(*self, j as int, t as int);
                    lemma_reachable_live(*self, t as int);
                }
                let ghost wlb = worklist@;
                if !marked[t] {
                    proof {
                        lemma_count_false_update(marked@, t as int);
                    }
                    marked[t] = true;
                    worklist.push(t);
                    proof {
                        assert forall|ii: int, e: int|
                            0 <= ii < n && marked@[ii] && !in_list(worklist@, ii) && ii != j as int
                                && #[trigger] self.cell_at(ii).edges().contains(e) implies 0 <= e
                            < n && marked@[e] by {
                            assert(ii != t as int) by {
                                assert((#[trigger] worklist@[wlb.len() as int]) as int
                                    == t as int);
                            }
                            assert(!in_list(wlb, ii)) by {
                                if in_list(wlb, ii) {
                                    let k = choose|k: int|
                                        0 <= k < wlb.len() && (#[trigger] wlb[k]) as int == ii;
                                    assert(worklist@[k] as int == ii);
                                }
                            }
                        }
                    }
                }
                ci = ci + 1;
            }
            proof {
                assert forall|i: int, e: int|
                    0 <= i < n && marked@[i] && !in_list(worklist@, i)
                        && #[trigger] self.cell_at(i).edges().contains(e) implies 0 <= e < n
                    && marked@[e] by {
                    if i == j as int {
                        let k = choose|k: int| 0 <= k < edges.len() && edges[k] == e;
                        assert(marked@[edges[k]]);
                    }
                }
            }
        }
        proof {
            assert forall|i: int|
                0 <= i < n && self.reachable(i) implies #[trigger] marked@[i] by {
                let nn = choose|nn: nat| self.reach_n(i, nn);
                assert forall|a: int, e: int|
                    0 <= a < self.n_cells() && marked@[a] && #[trigger] self.cell_at(
                        a,
                    ).edges().contains(e) implies 0 <= e < self.n_cells() && marked@[e] by {
                    assert(!in_list(worklist@, a));
                }
                lemma_closed_marked(*self, marked@, i, nn);
            }
        }
        marked
    }

    /// Collection: trace every root, then reclaim exactly the unreachable
    /// cells. Reachable cells, the handle registry and the native roots are
    /// untouched.
    pub fn collect(&mut self)
        requires
            old(self).wf(),
        ensures
            final(self).wf(),
            final(self).n_cells() == old(self).n_cells(),
            final(self).handles_view() == old(self).handles_view(),
            final(self).roots_view() == old(self).roots_view(),
            forall|i: int|
                0 <= i < old(self).n_cells() && old(self).reachable(i) ==> final(self).cells_view()[i] == old(self).cells_view()[i],
            forall|i: int|
                0 <= i < old(self).n_cells() && !old(self).reachable(i) ==> (#[trigger] final(self).cells_view()[i]) is None,
    {
        let marked = self.mark();
        let ghost oh = *self;
        let n = self.cells.len();
        let mut i: usize = 0;
        while i < n
            invariant
                n == oh.n_cells(),
                marked@.len() == n,
                i <= n,
                self.cells_view().len() == n,
                self.handles_view() == oh.handles_view(),
                self.roots_view() == oh.roots_view(),
                forall|k: int| 0 <= k < n ==> (#[trigger] marked@[k] <==> oh.reachable(k)),
                forall|k: int|
                    0 <= k < i && marked@[k] ==> (#[trigger] self.cells_view()[k])
                        == oh.cells_view()[k],
                forall|k: int|
                    0 <= k < i && !marked@[k] ==> (#[trigger] self.cells_view()[k]) is None,
                forall|k: int|
                    i <= k < n ==> (#[trigger] self.cells_view()[k]) == oh.cells_view()[k],
            decreases n - i,
        {
            if !marked[i] {
                self.cells[i] = None;
            }
            i = i + 1;
        }
        proof {
            assert forall|ii: int| #[trigger] self.live(ii) implies self.cell_ok(
                self.cell_at(ii),
            ) by {
                assert(marked@[ii]);
                assert(oh.reachable(ii));
                assert(oh.live(ii)) by {
                    lemma_reachable_live(oh, ii);
                }
                assert(self.cell_at(ii) == oh.cell_at(ii));
                let c = self.cell_at(ii);
                assert(oh.cell_ok(c));
                match c.payload {
                    CellPayload::Sym(_) => {},
                    CellPayload::Object(props) => {
                        assert forall|k: int|
                            0 <= k < props@.len() && (#[trigger] props@[k]).1 is Obj implies
                            self.ptr_ok(props@[k].1->Obj_0) by {
                            let e = props@[k].1->Obj_0.index as int;
                            lemma_prop_edge_of(props@, k);
                            assert(oh.cell_at(ii).edges().contains(e));
                            lemma_reach_step(oh, ii, e);
                            lemma_reachable_live(oh, e);
                            assert(marked@[e]);
                            assert(self.cells_view()[e] == oh.cells_view()[e]);
                        }
                    },
                    CellPayload::Node(ch) => {
                        assert forall|k: int| 0 <= k < ch@.len() implies self.ptr_ok(
                            #[trigger] ch@[k],
                        ) by {
                            let e = ch@[k].index as int;
                            let s = ch@.map_values(|p: GcPointer| p.index as int);
                            assert(s[k] == e);
                            assert(c.edges().contains(e)) by {
                                assert(c.edges()[k] == e);
                            }
                            lemma_reach_step(oh, ii, e);
                            lemma_reachable_live(oh, e);
                            assert(marked@[e]);
                            assert(self.cells_view()[e] == oh.cells_view()[e]);
                        }
                    },
                }
            }
            assert forall|hh: int| #[trigger] self.handle_live(hh) implies self.ptr_ok(
                self.handle_target(hh),
            ) && self.handle_rc(hh) >= 1 by {
                assert(oh.handle_live(hh));
                let t = oh.handle_target(hh).index as int;
                assert(oh.is_root(t));
                lemma_root_reachable(oh, t);
                lemma_reachable_live(oh, t);
                assert(marked@[t]);
                assert(self.cells_view()[t] == oh.cells_view()[t]);
            }
            assert forall|k: int| 0 <= k < self.roots_view().len() implies self.ptr_ok(
                #[trigger] self.roots_view()[k],
            ) by {
                let t = oh.roots_view()[k].index as int;
                assert(oh.is_root(t));
                lemma_root_reachable(oh, t);
                lemma_reachable_live(oh, t);
                assert(marked@[t]);
                assert(self.cells_view()[t] == oh.cells_view()[t]);
            }
        }
    }
}

/// Native-code boundary: the type identifier of a heap object, so generated
/// code can branch on object type without re-entering the interpreter.
pub fn type_id_of_object_stub(heap: &Heap, x: GcPointer) -> (r: u64)
    requires
        heap.ptr_ok(x),
    ensures
        r == heap.cell_at(x.index as int).spec_type_id(),
{
    heap.cell_ref(x).type_id()
}

/// The registered storage of a handle: the rooted cell reference and the
/// shared reference count.
#[derive(Clone, Copy, PartialEq, Eq, Debug)]
pub struct HandleInner {
    pub value: GcPointer,
    pub rc: u32,
}

/// Marker capability of registered handle storage: anything the collector
/// traces through the root registry.
pub trait HandleTrait {

}

impl HandleTrait for HandleInner {

}

/// An externally held, reference-counted, heap-registered reference: keeps
/// its target reachable across native-code call boundaries, where the VM
/// stack is not scanned.
pub struct Handle {
    inner: usize,
}

/// Effect of releasing one alias of a registered handle slot: above one
/// alias the count drops; at the last alias the slot is deregistered.
pub open spec fn release_model(hs: Seq<Option<HandleInner>>, s: int) -> Seq<Option<HandleInner>> {
    if hs[s]->Some_0.rc > 1 {
        hs.update(
            s,
            Some(HandleInner { value: hs[s]->Some_0.value, rc: (hs[s]->Some_0.rc - 1) as u32 }),
        )
    } else {
        hs.update(s, None)
    }
}

impl Handle {
    /// The handle registry slot this handle shares.
    pub closed spec fn slot(self) -> int {
        self.inner as int
    }

    /// The handle registry slot this handle shares.
    pub fn slot_index(&self) -> (r: usize)
        ensures
            r as int == self.slot(),
    {
        self.inner
    }

    /// Acquire a handle for a value: box it in a fresh registry slot with one
    /// alias, so the value is traced on every collection cycle.
    pub fn new(heap: &mut Heap, value: GcPointer) -> (h: Handle)
        requires
            old(heap).wf(),
            old(heap).ptr_ok(value),
        ensures
            final(heap).wf(),
            h.slot() == old(heap).handles_view().len(),
            final(heap).handles_view() =~= old(heap).handles_view().push(
                Some(HandleInner { value, rc: 1 }),
            ),
            final(heap).cells_view() == old(heap).cells_view(),
            final(heap).roots_view() == old(heap).roots_view(),
            final(heap).handle_live(h.slot()),
            final(heap).handle_target(h.slot()) == value,
            final(heap).handle_rc(h.slot()) == 1u32,
    {
        let idx = heap.handles.len();
        heap.handles.push(Some(HandleInner { value, rc: 1 }));
        proof {
            assert forall|hh: int| #[trigger] heap.handle_live(hh) implies heap.ptr_ok(
                heap.handle_target(hh),
            ) && heap.handle_rc(hh) >= 1 by {
                if hh < old(heap).handles_view().len() {
                    assert(heap.handles_view()[hh] == old(heap).handles_view()[hh]);
                    assert(old(heap).handle_live(hh));
                    assert(old(heap).ptr_ok(old(heap).handle_target(hh)));
                } else {
                    assert(heap.handles_view()[hh] == Some(HandleInner { value, rc: 1u32 }));
                }
            }
            lemma_handles_changed_wf(*old(heap), *heap);
        }
        Handle { inner: idx }
    }

    /// Alias this handle: the shared count rises by one; both handles point
    /// at the same registered storage (shared ownership, not a value copy).
    pub fn alias(&self, heap: &mut Heap) -> (h: Handle)
        requires
            old(heap).wf(),
            old(heap).handle_live(self.slot()),
            old(heap).handle_rc(self.slot()) < u32::MAX,
        ensures
            final(heap).wf(),
            h.slot() == self.slot(),
            final(heap).handles_view() =~= old(heap).handles_view().update(
                self.slot(),
                Some(
                    HandleInner {
                        value: old(heap).handle_target(self.slot()),
                        rc: (old(heap).handle_rc(self.slot()) + 1) as u32,
                    },
                ),
            ),
            final(heap).cells_view() == old(heap).cells_view(),
            final(heap).roots_view() == old(heap).roots_view(),
            final(heap).handle_live(self.slot()),
            final(heap).handle_target(self.slot()) == old(heap).handle_target(self.slot()),
    {
        let s = self.inner;
        let slot = heap.handles[s];
        match slot {
            Some(inner) => {
                heap.handles[s] = Some(HandleInner { value: inner.value, rc: inner.rc + 1 });
                proof {
                    assert forall|hh: int| #[trigger] heap.handle_live(hh) implies heap.ptr_ok(
                        heap.handle_target(hh),
                    ) && heap.handle_rc(hh) >= 1 by {
                        if hh != s as int {
                            assert(heap.handles_view()[hh] == old(heap).handles_view()[hh]);
                            assert(old(heap).handle_live(hh));
                            assert(old(heap).ptr_ok(old(heap).handle_target(hh)));
                        } else {
                            assert(old(heap).ptr_ok(old(heap).handle_target(hh)));
                        }
                    }
                    lemma_handles_changed_wf(*old(heap), *heap);
                }
                Handle { inner: s }
            },
            None => {
                proof {
                    assert(false);
                }
                Handle { inner: s }
            },
        }
    }

    /// Release this alias. Above one alias the shared count drops; at the
    /// last alias the slot is deregistered and its storage freed
    /// immediately — deterministic, not deferred to the next collection.
    pub fn release(self, heap: &mut Heap)
        requires
            old(heap).wf(),
            old(heap).handle_live(self.slot()),
        ensures
            final(heap).wf(),
            final(heap).handles_view() =~= release_model(old(heap).handles_view(), self.slot()),
            final(heap).cells_view() == old(heap).cells_view(),
            final(heap).roots_view() == old(heap).roots_view(),
    {
        let s = self.inner;
        let slot = heap.handles[s];
        match slot {
            Some(inner) => {
                if inner.rc > 1 {
                    heap.handles[s] = Some(HandleInner { value: inner.value, rc: inner.rc - 1 });
                } else {
                    heap.handles[s] = None;
                }
                proof {
                    assert forall|hh: int| #[trigger] heap.handle_live(hh) implies heap.ptr_ok(
                        heap.handle_target(hh),
                    ) && heap.handle_rc(hh) >= 1 by {
                        if hh != s as int {
                            assert(heap.handles_view()[hh] == old(heap).handles_view()[hh]);
                            assert(old(heap).handle_live(hh));
                            assert(old(heap).ptr_ok(old(heap).handle_target(hh)));
                        } else {
                            assert(old(heap).ptr_ok(old(heap).handle_target(hh)));
                        }
                    }
                    lemma_handles_changed_wf(*old(heap), *heap);
                }
            },
            None => {},
        }
    }

    /// Dereference: the rooted cell this handle keeps alive.
    pub fn get(&self, heap: &Heap) -> (p: GcPointer)
        requires
            heap.handle_live(self.slot()),
        ensures
            p == heap.handle_target(self.slot()),
    {
        let slot = heap.handles[self.inner];
        match slot {
            Some(inner) => inner.value,
            None => {
                proof {
                    assert(false);
                }
                GcPointer { index: 0 }
            },
        }
    }
}

impl Heap {
    /// Root-membership test hook: whether the given registry slot is
    /// currently registered as a root.
    pub fn is_rooted(&self, slot: usize) -> (b: bool)
        ensures
            b == self.handle_live(slot as int),
    {
        if slot < self.handles.len() {
            match &self.handles[slot] {
                Some(_) => true,
                None => false,
            }
        } else {
            false
        }
    }
}

/// Well-formedness carries over to a heap whose cells and roots are
/// unchanged and whose registered handles all target live cells with at
/// least one alias.
proof fn lemma_handles_changed_wf(h1: Heap, h2: Heap)
    requires
        h1.wf(),
        h2.cells_view() == h1.cells_view(),
        h2.roots_view() == h1.roots_view(),
        forall|hh: int| #[trigger] h2.handle_live(hh) ==> h2.ptr_ok(h2.handle_target(hh))
            && h2.handle_rc(hh) >= 1,
    ensures
        h2.wf(),
{
    assert forall|i: int| #[trigger] h2.live(i) implies h2.cell_ok(h2.cell_at(i)) by {
        assert(h1.live(i));
        assert(h1.cell_ok(h1.cell_at(i)));
        assert(h2.cell_at(i) == h1.cell_at(i));
        assert forall|q: GcPointer| #[trigger] h1.ptr_ok(q) implies h2.ptr_ok(q) by {}
        lemma_cell_ok_monotone(h1, h2, h2.cell_at(i));
    }
    assert forall|k: int| 0 <= k < h2.roots_view().len() implies h2.ptr_ok(
        #[trigger] h2.roots_view()[k],
    ) by {
        assert(h1.ptr_ok(h1.roots_view()[k]));
    }
}

/// A live handle roots its target: the target is reachable on every
/// collection cycle, regardless of the VM's native roots.
pub proof fn lemma_handle_roots_cell(h: Heap, s: int)
    requires
        h.handle_live(s),
    ensures
        h.is_root(h.handle_target(s).index as int),
        h.reachable(h.handle_target(s).index as int),
{
    let t = h.handle_target(s).index as int;
    assert(h.is_root(t)) by {
        assert(h.handle_live(s) && h.handle_target(s).index as int == t);
    }
    lemma_root_reachable(h, t);
}

/// After aliasing, releasing one alias keeps the slot registered and its
/// target unchanged: the wrapped value stays reachable through the
/// surviving alias.
pub proof fn lemma_release_keeps_shared(hs: Seq<Option<HandleInner>>, s: int)
    requires
        0 <= s < hs.len(),
        hs[s] is Some,
        hs[s]->Some_0.rc >= 2,
    ensures
        release_model(hs, s)[s] is Some,
        release_model(hs, s)[s]->Some_0.value == hs[s]->Some_0.value,
        release_model(hs, s)[s]->Some_0.rc == hs[s]->Some_0.rc - 1,
{
}

/// Releasing the last alias removes the handle's address from the root
/// registry.
pub proof fn lemma_release_last_deregisters(hs: Seq<Option<HandleInner>>, s: int)
    requires
        0 <= s < hs.len(),
        hs[s] is Some,
        hs[s]->Some_0.rc == 1,
    ensures
        release_model(hs, s)[s] is None,
{
}

/// First property with key `name` in a property list, as its index.
pub open spec fn find_prop_index(props: Seq<(u32, Value)>, name: u32) -> Option<int>
    decreases props.len(),
{
    if props.len() == 0 {
        None
    } else if props.first().0 == name {
        Some(0)
    } else {
        match find_prop_index(props.drop_first(), name) {
            Some(i) => Some(i + 1),
            None => None,
        }
    }
}

/// A property list after writing one property: the first entry with the key
/// is replaced, or a new entry is appended.
pub open spec fn put_props(props: Seq<(u32, Value)>, name: u32, v: Value) -> Seq<(u32, Value)> {
    match find_prop_index(props, name) {
        Some(k) => props.update(k, (name, v)),
        None => props.push((name, v)),
    }
}

proof fn lemma_find_prop_index_hit(props: Seq<(u32, Value)>, name: u32, k: int)
    requires
        0 <= k < props.len(),
        props[k].0 == name,
        forall|m: int| 0 <= m < k ==> (#[trigger] props[m]).0 != name,
    ensures
        find_prop_index(props, name) == Some(k),
    decreases props.len(),
{
    if k == 0 {
    } else {
        assert(props.first().0 != name);
        lemma_find_prop_index_hit(props.drop_first(), name, k - 1);
    }
}

proof fn lemma_find_prop_index_bounds(props: Seq<(u32, Value)>, name: u32)
    ensures
        (match find_prop_index(props, name) {
            Some(k) => 0 <= k < props.len() && props[k].0 == name,
            None => true,
        }),
    decreases props.len(),
{
    if props.len() > 0 && props.first().0 != name {
        lemma_find_prop_index_bounds(props.drop_first(), name);
    }
}

proof fn lemma_find_prop_index_none(props: Seq<(u32, Value)>, name: u32)
    requires
        find_prop_index(props, name) is None,
    ensures
        forall|m: int| 0 <= m < props.len() ==> (#[trigger] props[m]).0 != name,
    decreases props.len(),
{
    if props.len() > 0 {
        assert(props.first().0 != name);
        lemma_find_prop_index_none(props.drop_first(), name);
        assert forall|m: int| 0 <= m < props.len() implies (#[trigger] props[m]).0 != name by {
            if m > 0 {
                assert(props.drop_first()[m - 1].0 != name);
            }
        }
    }
}

proof fn lemma_find_prop_index_miss(props: Seq<(u32, Value)>, name: u32)
    requires
        forall|m: int| 0 <= m < props.len() ==> (#[trigger] props[m]).0 != name,
    ensures
        find_prop_index(props, name) is None,
    decreases props.len(),
{
    if props.len() > 0 {
        lemma_find_prop_index_miss(props.drop_first(), name);
    }
}

/// Duplicate a runtime value: an equal value in fresh storage.
pub fn dup_value(v: &Value) -> (r: Value)
    ensures
        r == *v,
{
    match v {
        Value::Undef => Value::Undef,
        Value::Null => Value::Null,
        Value::Boolean(b) => Value::Boolean(*b),
        Value::Int(n) => Value::Int(*n),
        Value::Str(s) => Value::Str(s.clone()),
        Value::Nan => Value::Nan,
        Value::Obj(p) => Value::Obj(*p),
    }
}

fn find_prop_index_exec(props: &Vec<(u32, Value)>, name: u32) -> (r: Option<usize>)
    ensures
        (match r {
            Some(k) => (k as int) < props@.len() && find_prop_index(props@, name) == Some(
                k as int,
            ),
            None => find_prop_index(props@, name) is None,
        }),
{
    let n = props.len();
    let mut k: usize = 0;
    while k < n
        invariant
            k <= n,
            n == props@.len(),
            forall|m: int| 0 <= m < k ==> (#[trigger] props@[m]).0 != name,
        decreases n - k,
    {
        if props[k].0 == name {
            proof {
                lemma_find_prop_index_hit(props@, name, k as int);
            }
            return Some(k);
        }
        k = k + 1;
    }
    proof {
        lemma_find_prop_index_miss(props@, name);
    }
    None
}

fn props_with_put(props: &Vec<(u32, Value)>, name: u32, v: Value) -> (r: Vec<(u32, Value)>)
    ensures
        r@ == put_props(props@, name, v),
{
    let n = props.len();
    let hit = find_prop_index_exec(props, name);
    let mut slot: Option<Value> = Some(v);
    let ghost vv = v;
    let mut r: Vec<(u32, Value)> = Vec::new();
    let mut m: usize = 0;
    while m < n
        invariant
            m <= n,
            n == props@.len(),
            r@.len() == m,
            (match hit {
                Some(hk) => {
                    &&& (hk as int) < n
                    &&& find_prop_index(props@, name) == Some(hk as int)
                    &&& forall|j: int| 0 <= j < m && j != hk ==> #[trigger] r@[j] == props@[j]
                    &&& (m > hk ==> r@[hk as int] == (name, vv))
                    &&& (m <= hk ==> (slot matches Some(sv) && sv == vv))
                },
                None => {
                    &&& forall|j: int| 0 <= j < m ==> #[trigger] r@[j] == props@[j]
                    &&& (slot matches Some(sv) && sv == vv)
                },
            }),
        decreases n - m,
    {
        let replace_here = match hit {
            Some(hk) => hk == m,
            None => false,
        };
        if replace_here {
            let sv = match slot {
                Some(sv) => sv,
                None => Value::Undef,
            };
            slot = None;
            r.push((name, sv));
        } else {
            r.push((props[m].0, dup_value(&props[m].1)));
        }
        m = m + 1;
    }
    match hit {
        Some(hk) => {
            proof {
                assert(r@ =~= props@.update(hk as int, (name, vv)));
            }
            r
        },
        None => {
            let sv = match slot {
                Some(sv) => sv,
                None => Value::Undef,
            };
            r.push((name, sv));
            proof {
                assert(r@ =~= props@.push((name, vv)));
            }
            r
        },
    }
}

impl Heap {
    /// Allocate an object cell with the given properties; each reference
    /// among the values must point at a live cell of this heap.
    pub fn alloc_object(&mut self, props: Vec<(u32, Value)>) -> (r: GcPointer)
        requires
            old(self).wf(),
            forall|k: int|
                0 <= k < props@.len() && (#[trigger] props@[k]).1 is Obj ==> old(self).ptr_ok(
                    props@[k].1->Obj_0,
                ),
            forall|k1: int, k2: int|
                0 <= k1 < k2 < props@.len() ==> (#[trigger] props@[k1]).0 != (
                #[trigger] props@[k2]).0,
        ensures
            final(self).wf(),
            r.index as int == old(self).n_cells(),
            final(self).n_cells() == old(self).n_cells() + 1,
            forall|i: int|
                0 <= i < old(self).n_cells() ==> final(self).cells_view()[i] == old(
                    self,
                ).cells_view()[i],
            final(self).handles_view() == old(self).handles_view(),
            final(self).roots_view() == old(self).roots_view(),
            final(self).ptr_ok(r),
            (final(self).cell_at(r.index as int).payload matches CellPayload::Object(ps) && ps@
                == props@),
    {
        self.allocate(Cell { payload: CellPayload::Object(props) })
    }

    /// Write one property of an object cell: replace the entry under the
    /// key, or append a new one. Returns whether the pointer named a live
    /// object cell; on any other target nothing changes.
    pub fn put_prop(&mut self, p: GcPointer, name: u32, v: Value) -> (r: bool)
        requires
            old(self).wf(),
            (v matches Value::Obj(q) ==> old(self).ptr_ok(q)),
        ensures
            final(self).wf(),
            final(self).handles_view() == old(self).handles_view(),
            final(self).roots_view() == old(self).roots_view(),
            final(self).n_cells() == old(self).n_cells(),
            r == (old(self).ptr_ok(p) && old(self).cell_at(p.index as int).payload is Object),
            !r ==> final(self).cells_view() == old(self).cells_view(),
            r ==> forall|i: int|
                0 <= i < old(self).n_cells() && i != p.index as int
                    ==> final(self).cells_view()[i] == old(self).cells_view()[i],
            r ==> final(self).live(p.index as int),
            r ==> (final(self).cell_at(p.index as int).payload matches CellPayload::Object(nps)
                && nps@ == put_props(
                old(self).cell_at(p.index as int).payload->Object_0@,
                name,
                v,
            )),
    {
        if p.index >= self.cells.len() {
            return false;
        }
        let is_obj = match &self.cells[p.index] {
            Some(c) => matches!(&c.payload, CellPayload::Object(_)),
            None => false,
        };
        if !is_obj {
            return false;
        }
        let ghost oh = *old(self);
        let ghost oprops = oh.cell_at(p.index as int).payload->Object_0@;
        proof {
            assert(oh.live(p.index as int));
            assert(oh.cell_ok(oh.cell_at(p.index as int)));
        }
        let np = match &self.cells[p.index] {
            Some(c) => match &c.payload {
                CellPayload::Object(props) => {
                    proof {
                        assert(props@ == oprops);
                    }
                    props_with_put(props, name, v)
                },
                _ => {
                    proof {
                        assert(false);
                    }
                    Vec::new()
                },
            },
            None => {
                proof {
                    assert(false);
                }
                Vec::new()
            },
        };
        proof {
            assert(np@ == put_props(oprops, name, v));
        }
        {
            {
                self.cells[p.index] = Some(Cell { payload: CellPayload::Object(np) });
                proof {
                    assert forall|q: GcPointer| #[trigger] oh.ptr_ok(q) implies self.ptr_ok(
                        q,
                    ) by {}
                    assert forall|i: int| #[trigger] self.live(i) implies self.cell_ok(
                        self.cell_at(i),
                    ) by {
                        if i != p.index as int {
                            assert(oh.live(i));
                            assert(oh.cell_ok(oh.cell_at(i)));
                            assert(self.cell_at(i) == oh.cell_at(i));
                            lemma_cell_ok_monotone(oh, *self, self.cell_at(i));
                        } else {
                            let nps = self.cell_at(i).payload->Object_0;
                            assert(nps == np);
                            assert(nps@ == put_props(oprops, name, v));
                            assert forall|k: int|
                                0 <= k < nps@.len() && (#[trigger] nps@[k]).1 is Obj implies
                                self.ptr_ok(nps@[k].1->Obj_0) by {
                                assert(oh.cell_ok(oh.cell_at(i)));
                                lemma_find_prop_index_bounds(oprops, name);
                                match find_prop_index(oprops, name) {
                                    Some(hk) => {
                                        assert(0 <= hk < oprops.len());
                                        assert(nps@ == oprops.update(hk, (name, v)));
                                        assert(nps@.len() == oprops.len());
                                        if k != hk {
                                            assert(nps@[k] == oprops[k]);
                                            assert(oprops[k].1 is Obj);
                                            assert(oh.ptr_ok(oprops[k].1->Obj_0));
                                        } else {
                                            assert(nps@[k] == (name, v));
                                        }
                                    },
                                    None => {
                                        assert(nps@ == oprops.push((name, v)));
                                        assert(nps@.len() == oprops.len() + 1);
                                        if k < oprops.len() {
                                            assert(nps@[k] == oprops[k]);
                                            assert(oprops[k].1 is Obj);
                                            assert(oh.ptr_ok(oprops[k].1->Obj_0));
                                        } else {
                                            assert(nps@[k] == (name, v));
                                        }
                                    },
                                }
                            }
                            assert forall|k1: int, k2: int|
                                0 <= k1 < k2 < nps@.len() implies (#[trigger] nps@[k1]).0 != (
                            #[trigger] nps@[k2]).0 by {
                                lemma_find_prop_index_bounds(oprops, name);
                                match find_prop_index(oprops, name) {
                                    Some(hk) => {
                                        assert(nps@ == oprops.update(hk, (name, v)));
                                        assert(oprops[hk].0 == name);
                                        assert(nps@[k1].0 == oprops[k1].0);
                                        assert(nps@[k2].0 == oprops[k2].0);
                                    },
                                    None => {
                                        lemma_find_prop_index_none(oprops, name);
                                        assert(nps@ == oprops.push((name, v)));
                                        if k2 < oprops.len() {
                                            assert(nps@[k1] == oprops[k1]);
                                            assert(nps@[k2] == oprops[k2]);
                                        } else {
                                            assert(nps@[k2] == (name, v));
                                            assert(nps@[k1] == oprops[k1]);
                                            assert(oprops[k1].0 != name);
                                        }
                                    },
                                }
                            }
                        }
                    }
                    assert forall|hh: int| #[trigger] self.handle_live(hh) implies self.ptr_ok(
                        self.handle_target(hh),
                    ) && self.handle_rc(hh) >= 1 by {
                        assert(oh.handle_live(hh));
                        assert(oh.ptr_ok(oh.handle_target(hh)));
                    }
                    assert forall|k: int| 0 <= k < self.roots_view().len() implies self.ptr_ok(
                        #[trigger] self.roots_view()[k],
                    ) by {
                        assert(oh.ptr_ok(oh.roots_view()[k]));
                    }
                }
                true
            }
        }
    }
}

} // verus!
