//! Process-wide string interner and the uniform property-key type.
//!
//! A `SymbolTable` maps strings to stable small integer identifiers and back.
//! Identifiers below `PUBLIC_START` are reserved for built-in well-known
//! symbols registered during initialization; identifiers from `PUBLIC_START`
//! upward are handed out monotonically to interned user strings.

use vstd::prelude::*;
use dashmap::DashMap;
use std::collections::hash_map::RandomState;

verus! {

/// First identifier available to user-interned strings; everything below is
/// reserved for built-in well-known symbols.
pub const PUBLIC_START: u32 = 128;

#[verifier::external_type_specification]
#[verifier::external_body]
#[verifier::reject_recursive_types(K)]
#[verifier::reject_recursive_types(V)]
#[verifier::reject_recursive_types(S)]
pub struct ExDashMap<K, V, S>(DashMap<K, V, S>);

/// The entries of a string-to-identifier map, as a mathematical map.
pub uninterp spec fn sym_map_of(m: DashMap<String, u32, RandomState>) -> Map<Seq<char>, u32>;

/// The entries of an identifier-to-string map, as a mathematical map.
pub uninterp spec fn id_map_of(m: DashMap<u32, String, RandomState>) -> Map<u32, Seq<char>>;

/// Relies on dashmap::DashMap::with_capacity: a freshly created map holds no
/// entries.
#[verifier::external_body]
fn new_sym_map() -> (m: DashMap<String, u32>)
    ensures
        sym_map_of(m) =~= Map::empty(),
{
    DashMap::with_capacity(0)
}

/// Relies on dashmap::DashMap::with_capacity: a freshly created map holds no
/// entries.
#[verifier::external_body]
fn new_id_map() -> (m: DashMap<u32, String>)
    ensures
        id_map_of(m) =~= Map::empty(),
{
    DashMap::with_capacity(0)
}

/// Relies on dashmap::DashMap::get: returns the value stored under the key,
/// or nothing when the key is absent.
#[verifier::external_body]
fn sym_map_get(m: &DashMap<String, u32>, k: &str) -> (r: Option<u32>)
    ensures
        r == (if sym_map_of(*m).contains_key(k@) {
            Some(sym_map_of(*m)[k@])
        } else {
            None::<u32>
        }),
{
    m.get(k).map(|g| *g.value())
}

/// Relies on dashmap::DashMap::get: returns the value stored under the key,
/// or nothing when the key is absent.
#[verifier::external_body]
fn id_map_get(m: &DashMap<u32, String>, k: u32) -> (r: Option<String>)
    ensures
        r matches Some(s) ==> id_map_of(*m).contains_key(k) && s@ == id_map_of(*m)[k],
        r is None ==> !id_map_of(*m).contains_key(k),
{
    m.get(&k).map(|g| g.value().clone())
}

/// Relies on dashmap::DashMap::insert: adds the entry, replacing any entry
/// previously stored under the same key.
#[verifier::external_body]
fn sym_map_insert(m: &mut DashMap<String, u32>, k: String, v: u32)
    ensures
        sym_map_of(*final(m)) == sym_map_of(*old(m)).insert(k@, v),
{
    m.insert(k, v);
}

/// Relies on dashmap::DashMap::insert: adds the entry, replacing any entry
/// previously stored under the same key.
#[verifier::external_body]
fn id_map_insert(m: &mut DashMap<u32, String>, k: u32, v: String)
    ensures
        id_map_of(*final(m)) == id_map_of(*old(m)).insert(k, v@),
{
    m.insert(k, v);
}

/// Stable identifier of an interned string.
#[derive(Clone, Copy, PartialEq, Eq, Hash, Debug, Structural)]
pub struct SymbolID(pub u32);

/// Runtime symbol: the uniform key type for all property access.
#[derive(Clone, Copy, PartialEq, Eq, Hash, Debug, Structural)]
pub enum Symbol {
    /// Interned string key.
    Key(SymbolID),
    /// Private key, derived only from an existing `Key`; never script-visible.
    Private(SymbolID),
    /// Dense array index; never touches the interner.
    Index(u32),
}

impl Symbol {
    /// Derive the private form of an interned key.
    pub fn private(self) -> (r: Self)
        requires
            self is Key,
        ensures
            r == Symbol::Private(self->Key_0),
    {
        match self {
            Self::Key(x) => Self::Private(x),
            _ => Self::Private(SymbolID(0)),
        }
    }

    /// Checked form of `private`: yields nothing on a non-`Key` symbol.
    pub fn try_private(self) -> (r: Option<Self>)
        ensures
            self is Key ==> r == Some(Symbol::Private(self->Key_0)),
            !(self is Key) ==> r is None,
    {
        match self {
            Self::Key(x) => Some(Self::Private(x)),
            _ => None,
        }
    }

    /// Whether this symbol is a dense array index.
    pub fn is_index(self) -> (r: bool)
        ensures
            r == (self is Index),
    {
        matches!(self, Self::Index(_))
    }

    /// The index held by an `Index` symbol.
    pub fn get_index(self) -> (r: u32)
        requires
            self is Index,
        ensures
            r == self->Index_0,
    {
        match self {
            Self::Index(x) => x,
            _ => 0,
        }
    }

    /// Checked form of `get_index`: yields nothing on a non-`Index` symbol.
    pub fn try_get_index(self) -> (r: Option<u32>)
        ensures
            self is Index ==> r == Some(self->Index_0),
            !(self is Index) ==> r is None,
    {
        match self {
            Self::Index(x) => Some(x),
            _ => None,
        }
    }

    /// Whether this symbol is an interned or private key rather than an index.
    pub fn is_key(self) -> (r: bool)
        ensures
            r == !(self is Index),
    {
        !self.is_index()
    }
}

/// Placeholder symbol: the key carrying identifier zero.
pub fn dummy_symbol() -> (r: Symbol)
    ensures
        r == Symbol::Key(SymbolID(0)),
{
    Symbol::Key(SymbolID(0))
}

/// Mathematical model of a symbol table: the two directions of the mapping
/// and the next identifier to hand out.
#[verifier::ext_equal]
pub struct SymbolModel {
    pub syms: Map<Seq<char>, u32>,
    pub ids: Map<u32, Seq<char>>,
    pub next: u32,
}

/// Well-formedness of the model: the two maps are inverse to one another and
/// every identifier lies below the next one to be handed out.
pub open spec fn model_wf(m: SymbolModel) -> bool {
    &&& PUBLIC_START <= m.next
    &&& forall|s: Seq<char>| #[trigger] m.syms.contains_key(s) ==> {
        &&& m.ids.contains_key(m.syms[s])
        &&& m.ids[m.syms[s]] == s
        &&& m.syms[s] < m.next
    }
    &&& forall|i: u32| #[trigger] m.ids.contains_key(i) ==> {
        &&& m.syms.contains_key(m.ids[i])
        &&& m.syms[m.ids[i]] == i
        &&& i < m.next
    }
}

/// One interning step on the model: an already-seen string keeps its
/// identifier and changes nothing; a new string is bound to `next` in both
/// directions and `next` advances.
pub open spec fn intern_model(m: SymbolModel, s: Seq<char>) -> (SymbolModel, u32) {
    if m.syms.contains_key(s) {
        (m, m.syms[s])
    } else {
        (
            SymbolModel {
                syms: m.syms.insert(s, m.next),
                ids: m.ids.insert(m.next, s),
                next: (m.next + 1) as u32,
            },
            m.next,
        )
    }
}

/// Bidirectional mapping between strings and stable identifiers.
pub struct SymbolTable {
    symbols: DashMap<String, u32>,
    ids: DashMap<u32, String>,
    key: u32,
}

impl SymbolTable {
    /// The model this table denotes.
    pub closed spec fn model(self) -> SymbolModel {
        SymbolModel { syms: sym_map_of(self.symbols), ids: id_map_of(self.ids), next: self.key }
    }

    /// Table invariant.
    pub open spec fn wf(self) -> bool {
        model_wf(self.model())
    }

    /// A fresh table: no entries, next identifier is `PUBLIC_START`.
    pub fn new() -> (r: Self)
        ensures
            r.wf(),
            r.model().syms == Map::<Seq<char>, u32>::empty(),
            r.model().ids == Map::<u32, Seq<char>>::empty(),
            r.model().next == PUBLIC_START,
    {
        Self { symbols: new_sym_map(), ids: new_id_map(), key: PUBLIC_START }
    }

    /// Register one built-in well-known symbol under a reserved identifier.
    /// Must complete for all built-ins before any user string is interned.
    pub fn register_builtin(&mut self, id: u32, name: &str)
        requires
            old(self).wf(),
            id < PUBLIC_START,
            !old(self).model().ids.contains_key(id),
            !old(self).model().syms.contains_key(name@),
        ensures
            final(self).wf(),
            final(self).model().syms == old(self).model().syms.insert(name@, id),
            final(self).model().ids == old(self).model().ids.insert(id, name@),
            final(self).model().next == old(self).model().next,
    {
        sym_map_insert(&mut self.symbols, name.to_owned(), id);
        id_map_insert(&mut self.ids, id, name.to_owned());
    }

    /// Intern a string: idempotent, with fresh strings assigned the next
    /// sequential identifier.
    pub fn intern(&mut self, val: &str) -> (r: SymbolID)
        requires
            old(self).wf(),
            old(self).model().next < u32::MAX,
        ensures
            final(self).wf(),
            (final(self).model(), r.0) == intern_model(old(self).model(), val@),
            final(self).model().syms.contains_key(val@),
            final(self).model().syms[val@] == r.0,
            final(self).model().ids.contains_key(r.0),
            final(self).model().ids[r.0] == val@,
            r.0 < final(self).model().next,
    {
        let existing = sym_map_get(&self.symbols, val);
        match existing {
            Some(k) => {
                proof {
                    assert(self.model() == old(self).model());
                }
                SymbolID(k)
            },
            None => {
                let k = self.key;
                self.key = k + 1;
                sym_map_insert(&mut self.symbols, val.to_owned(), k);
                id_map_insert(&mut self.ids, k, val.to_owned());
                proof {
                    lemma_intern_model_wf(old(self).model(), val@);
                    assert(self.model() =~= intern_model(old(self).model(), val@).0);
                }
                SymbolID(k)
            },
        }
    }

    /// Reverse lookup of an interned identifier. The identifier must have
    /// been handed out by this table.
    pub fn description(&self, symbol: SymbolID) -> (r: String)
        requires
            self.wf(),
            self.model().ids.contains_key(symbol.0),
        ensures
            r@ == self.model().ids[symbol.0],
    {
        let found = id_map_get(&self.ids, symbol.0);
        match found {
            Some(s) => s,
            None => {
                proof {
                    assert(false);
                }
                String::new()
            },
        }
    }

    /// The next identifier this table would assign to a fresh string.
    pub fn next_key(&self) -> (r: u32)
        ensures
            r == self.model().next,
    {
        self.key
    }

    /// Checked reverse lookup: yields nothing for an identifier this table
    /// never handed out.
    pub fn try_description(&self, symbol: SymbolID) -> (r: Option<String>)
        ensures
            r matches Some(s) ==> self.model().ids.contains_key(symbol.0) && s@ == self.model().ids[symbol.0],
            r is None ==> !self.model().ids.contains_key(symbol.0),
    {
        id_map_get(&self.ids, symbol.0)
    }
}

/// Anything that can be turned into a runtime symbol against a table.
pub trait Internable {
    /// The symbol this value denotes, interning through the given table
    /// where a string key is needed.
    fn intern(&self, table: &mut SymbolTable) -> (r: Symbol)
        requires
            old(table).wf(),
            old(table).model().next < u32::MAX,
        ensures
            final(table).wf(),
    ;
}

impl Internable for str {
    /// A string interns to its stable key: always the `Key` variant, with
    /// the identifier the table assigns, and the table takes exactly one
    /// interning step.
    fn intern(&self, table: &mut SymbolTable) -> (r: Symbol)
        ensures
            final(table).wf(),
            final(table).model() == intern_model(old(table).model(), self@).0,
            r == Symbol::Key(SymbolID(intern_model(old(table).model(), self@).1)),
    {
        Symbol::Key(table.intern(self))
    }
}

impl Internable for String {
    /// A string interns to its stable key: always the `Key` variant, with
    /// the identifier the table assigns, and the table takes exactly one
    /// interning step.
    fn intern(&self, table: &mut SymbolTable) -> (r: Symbol)
        ensures
            final(table).wf(),
            final(table).model() == intern_model(old(table).model(), self@).0,
            r == Symbol::Key(SymbolID(intern_model(old(table).model(), self@).1)),
    {
        Symbol::Key(table.intern(self.as_str()))
    }
}

impl Internable for u32 {
    /// A dense index becomes its own index symbol; the interner is never
    /// consulted or changed.
    fn intern(&self, table: &mut SymbolTable) -> (r: Symbol)
        ensures
            final(table).wf(),
            r == Symbol::Index(*self),
            final(table).model() == old(table).model(),
    {
        Symbol::Index(*self)
    }
}

impl Internable for usize {
    /// A value that fits the dense-index range becomes its own index
    /// symbol, interner untouched; a larger value interns its decimal
    /// rendering as a key.
    fn intern(&self, table: &mut SymbolTable) -> (r: Symbol)
        ensures
            final(table).wf(),
            (*self as u32 as usize == *self) ==> {
                &&& r == Symbol::Index(*self as u32)
                &&& final(table).model() == old(table).model()
            },
            !(*self as u32 as usize == *self) ==> {
                &&& final(table).model() == intern_model(
                    old(table).model(),
                    decimal_digits(*self as nat),
                ).0
                &&& r == Symbol::Key(
                    SymbolID(intern_model(old(table).model(), decimal_digits(*self as nat)).1),
                )
            },
    {
        let v = *self;
        if v as u32 as usize == v {
            Symbol::Index(v as u32)
        } else {
            let rendered = decimal_string(v);
            Symbol::Key(table.intern(rendered.as_str()))
        }
    }
}

/// The character of one decimal digit.
pub open spec fn digit_char(d: int) -> char {
    if d == 0 {
        '0'
    } else if d == 1 {
        '1'
    } else if d == 2 {
        '2'
    } else if d == 3 {
        '3'
    } else if d == 4 {
        '4'
    } else if d == 5 {
        '5'
    } else if d == 6 {
        '6'
    } else if d == 7 {
        '7'
    } else if d == 8 {
        '8'
    } else {
        '9'
    }
}

/// The decimal rendering of a number, most significant digit first.
pub open spec fn decimal_digits(n: nat) -> Seq<char>
    decreases n,
{
    if n < 10 {
        seq![digit_char(n as int)]
    } else {
        decimal_digits(n / 10).push(digit_char((n % 10) as int))
    }
}

fn digit_str(d: u8) -> (r: String)
    requires
        d < 10,
    ensures
        r@ == seq![digit_char(d as int)],
{
    let r = match d {
        0 => "0".to_owned(),
        1 => "1".to_owned(),
        2 => "2".to_owned(),
        3 => "3".to_owned(),
        4 => "4".to_owned(),
        5 => "5".to_owned(),
        6 => "6".to_owned(),
        7 => "7".to_owned(),
        8 => "8".to_owned(),
        _ => "9".to_owned(),
    };
    proof {
        reveal_strlit("0");
        reveal_strlit("1");
        reveal_strlit("2");
        reveal_strlit("3");
        reveal_strlit("4");
        reveal_strlit("5");
        reveal_strlit("6");
        reveal_strlit("7");
        reveal_strlit("8");
        reveal_strlit("9");
        assert(r@ =~= seq![digit_char(d as int)]);
    }
    r
}

/// Render a number in decimal, matching `decimal_digits` exactly.
pub fn decimal_string(n: usize) -> (r: String)
    ensures
        r@ == decimal_digits(n as nat),
    decreases n,
{
    if n < 10 {
        digit_str(n as u8)
    } else {
        let mut prefix = decimal_string(n / 10);
        let last = digit_str((n % 10) as u8);
        prefix.append(last.as_str());
        proof {
            assert(prefix@ =~= decimal_digits(n as nat));
        }
        prefix
    }
}

/// A heap-allocated runtime symbol cell.
pub struct JsSymbol {
    pub(crate) sym: Symbol,
}

impl JsSymbol {
    /// The symbol this cell wraps.
    pub closed spec fn sym_of(self) -> Symbol {
        self.sym
    }

    /// Allocate a symbol cell under collector management. A symbol holds no
    /// outgoing heap references, so its trace is a no-op.
    pub fn new(heap: &mut crate::heap::Heap, sym: Symbol) -> (r: crate::heap::GcPointer)
        requires
            old(heap).wf(),
        ensures
            final(heap).wf(),
            final(heap).n_cells() == old(heap).n_cells() + 1,
            forall|i: int|
                0 <= i < old(heap).n_cells() ==> final(heap).cells_view()[i] == old(
                    heap,
                ).cells_view()[i],
            final(heap).handles_view() == old(heap).handles_view(),
            final(heap).roots_view() == old(heap).roots_view(),
            final(heap).ptr_ok(r),
            r.index as int == old(heap).n_cells(),
            (final(heap).cell_at(r.index as int).payload matches crate::heap::CellPayload::Sym(
                js) && js.sym_of() == sym),
            final(heap).cell_at(r.index as int).spec_type_id() == crate::heap::TYPE_ID_SYMBOL,
    {
        heap.allocate(
            crate::heap::Cell { payload: crate::heap::CellPayload::Sym(JsSymbol { sym }) },
        )
    }

    /// The wrapped symbol.
    pub fn symbol(&self) -> (r: Symbol)
        ensures
            r == self.sym_of(),
    {
        self.sym
    }
}

/// Interning preserves the table invariant.
pub proof fn lemma_intern_model_wf(m: SymbolModel, s: Seq<char>)
    requires
        model_wf(m),
        m.next < u32::MAX,
    ensures
        model_wf(intern_model(m, s).0),
{
    let m1 = intern_model(m, s).0;
    if !m.syms.contains_key(s) {
        assert(!m.ids.contains_key(m.next));
        assert forall|t: Seq<char>| #[trigger] m1.syms.contains_key(t) implies {
            &&& m1.ids.contains_key(m1.syms[t])
            &&& m1.ids[m1.syms[t]] == t
            &&& m1.syms[t] < m1.next
        } by {
            if t != s {
                assert(m.syms.contains_key(t));
                assert(m.syms[t] != m.next);
            }
        }
        assert forall|i: u32| #[trigger] m1.ids.contains_key(i) implies {
            &&& m1.syms.contains_key(m1.ids[i])
            &&& m1.syms[m1.ids[i]] == i
            &&& i < m1.next
        } by {
            if i != m.next {
                assert(m.ids.contains_key(i));
                assert(m.ids[i] != s);
            }
        }
    }
}

/// Interning is idempotent: interning a string a second time returns the very
/// identifier of the first time and leaves the table unchanged.
pub proof fn lemma_intern_idempotent(m: SymbolModel, s: Seq<char>)
    requires
        model_wf(m),
        m.next < u32::MAX,
    ensures
        intern_model(intern_model(m, s).0, s).1 == intern_model(m, s).1,
        intern_model(intern_model(m, s).0, s).0 == intern_model(m, s).0,
{
    let (m1, id1) = intern_model(m, s);
    assert(m1.syms.contains_key(s));
    assert(m1.syms[s] == id1);
}

/// Distinct strings never share an identifier: after interning two different
/// strings, the identifiers returned differ.
pub proof fn lemma_intern_distinct(m: SymbolModel, s1: Seq<char>, s2: Seq<char>)
    requires
        model_wf(m),
        m.next < u32::MAX - 1,
        s1 != s2,
    ensures
        intern_model(intern_model(m, s1).0, s2).1 != intern_model(m, s1).1,
{
    let (m1, id1) = intern_model(m, s1);
    let (m2, id2) = intern_model(m1, s2);
    lemma_intern_model_wf(m, s1);
    assert(m1.syms.contains_key(s1) && m1.syms[s1] == id1);
    if m1.syms.contains_key(s2) {
        if id2 == id1 {
            assert(m1.ids[id2] == s2);
            assert(m1.ids[id1] == s1);
            assert(false);
        }
    } else {
        assert(id2 == m1.next);
        assert(id1 < m1.next);
    }
}

/// Fresh identifiers are handed out in strictly increasing order: a string
/// unseen by the table receives an identifier strictly above every
/// identifier the table has already handed out.
pub proof fn lemma_intern_monotonic(m: SymbolModel, s: Seq<char>, i: u32)
    requires
        model_wf(m),
        m.next < u32::MAX,
        !m.syms.contains_key(s),
        m.ids.contains_key(i),
    ensures
        intern_model(m, s).1 > i,
        intern_model(m, s).0.next > m.next,
{
}

/// Round trip: the description of an interned string is that string itself.
pub proof fn lemma_description_roundtrip(m: SymbolModel, s: Seq<char>)
    requires
        model_wf(m),
        m.next < u32::MAX,
    ensures
        intern_model(m, s).0.ids.contains_key(intern_model(m, s).1),
        intern_model(m, s).0.ids[intern_model(m, s).1] == s,
{
}

/// The reserved range holds exactly the built-ins: in a table that has only
/// registered built-ins (next identifier still `PUBLIC_START`), the first
/// user-interned string receives exactly `PUBLIC_START`.
pub proof fn lemma_first_user_id(m: SymbolModel, s: Seq<char>)
    requires
        model_wf(m),
        m.next == PUBLIC_START,
        !m.syms.contains_key(s),
    ensures
        intern_model(m, s).1 == PUBLIC_START,
        forall|i: u32| #[trigger] m.ids.contains_key(i) ==> i < PUBLIC_START,
{
}

} // verus!
