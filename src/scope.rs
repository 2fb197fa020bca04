//! The scope registry: one table from identity to scope, the state cells that
//! scopes own, dirty tracking and the lifecycle of a pass.
use vstd::prelude::*;
use crate::identity::{
    is_ancestor, parent_in, table_wf, CallsiteId, IdTable, Key, Moniker, ScopeId,
};

verus! {

/// The bookkeeping of one live scope.
#[derive(Clone, Copy, Debug, PartialEq, Eq, Structural)]
pub struct ScopeInfo {
    pub id: ScopeId,
    pub parent: ScopeId,
    /// Some cell of this scope or of a descendant was written since the pass began.
    pub dirty: bool,
    /// The scope was entered in the current pass.
    pub visited: bool,
    /// Which creation of the identity this scope is: a scope created later
    /// has a larger generation, so a handle never reaches a successor.
    pub generation: u64,
}

/// One state cell: the slot `key` of scope `scope`.
#[derive(Clone, Copy, Debug, PartialEq, Eq, Structural)]
pub struct Cell {
    pub scope: ScopeId,
    pub key: u64,
    pub value: u64,
    pub revision: u64,
}

#[derive(Clone, Copy, Debug, PartialEq, Eq, Structural)]
pub enum ComposeError {
    /// A scope was entered twice in one pass under the same identity.
    IdentityCollision,
}

/// How many unkeyed calls at `callsite` under `parent` the current pass has made.
#[derive(Clone, Copy, Debug, PartialEq, Eq, Structural)]
pub struct Counter {
    pub parent: ScopeId,
    pub callsite: CallsiteId,
    pub next: u64,
}

/// A write capability for one cell of one scope instance. It can be kept past
/// the pass that made it; once that scope is retired it changes nothing, even
/// if the same identity is entered again.
#[derive(Clone, Copy, Debug, PartialEq, Eq, Structural)]
pub struct Handle {
    pub scope: ScopeId,
    pub generation: u64,
    pub key: u64,
}

/// What a pass or a teardown removed from the registry, to be finalized.
pub struct Retired {
    pub scopes: Vec<ScopeInfo>,
    pub cells: Vec<Cell>,
}

pub open spec fn is_live(s: Seq<ScopeInfo>, id: ScopeId) -> bool {
    exists|i: int| 0 <= i < s.len() && #[trigger] s[i].id == id
}

pub open spec fn is_visited(s: Seq<ScopeInfo>, id: ScopeId) -> bool {
    exists|i: int| 0 <= i < s.len() && #[trigger] s[i].id == id && s[i].visited
}

pub open spec fn is_dirty(s: Seq<ScopeInfo>, id: ScopeId) -> bool {
    exists|i: int| 0 <= i < s.len() && #[trigger] s[i].id == id && s[i].dirty
}

/// The live scope `id` is the instance of generation `generation`.
pub open spec fn is_current(s: Seq<ScopeInfo>, id: ScopeId, generation: u64) -> bool {
    exists|i: int| 0 <= i < s.len() && #[trigger] s[i].id == id && s[i].generation == generation
}

pub open spec fn holds_cell(c: Cell, scope: ScopeId, key: u64) -> bool {
    c.scope == scope && c.key == key
}

/// The cell `key` of scope `scope`, if it was ever written.
pub open spec fn cell_at(c: Seq<Cell>, scope: ScopeId, key: u64) -> Option<Cell> {
    if exists|i: int| 0 <= i < c.len() && holds_cell(#[trigger] c[i], scope, key) {
        Some(c[choose|i: int| 0 <= i < c.len() && holds_cell(#[trigger] c[i], scope, key)])
    } else {
        None
    }
}

/// The value a read returns: the cell's value, or the default `0`.
pub open spec fn value_of(c: Seq<Cell>, scope: ScopeId, key: u64) -> u64 {
    match cell_at(c, scope, key) {
        Some(x) => x.value,
        None => 0,
    }
}

/// The revision of a cell: the number of writes to it, `0` before the first.
pub open spec fn revision_of(c: Seq<Cell>, scope: ScopeId, key: u64) -> u64 {
    match cell_at(c, scope, key) {
        Some(x) => x.revision,
        None => 0,
    }
}

pub open spec fn counts(c: Counter, parent: ScopeId, callsite: CallsiteId) -> bool {
    c.parent == parent && c.callsite == callsite
}

/// The number of unkeyed calls at `callsite` under `parent` so far in this pass.
pub open spec fn auto_count(cs: Seq<Counter>, parent: ScopeId, callsite: CallsiteId) -> u64 {
    if exists|i: int| 0 <= i < cs.len() && counts(#[trigger] cs[i], parent, callsite) {
        cs[choose|i: int| 0 <= i < cs.len() && counts(#[trigger] cs[i], parent, callsite)].next
    } else {
        0
    }
}

pub open spec fn counters_wf(cs: Seq<Counter>) -> bool {
    forall|i: int, j: int|
        0 <= i < j < cs.len() ==> !counts(#[trigger] cs[i], #[trigger] cs[j].parent, cs[j].callsite)
}

/// What entering the call with moniker `m` did: from identity table `ids0`
/// and scopes `sc0` to `ids1` and `sc1`, with result `r`. The identity is
/// found or issued; entering it twice in a pass is an `IdentityCollision`
/// that changes no scope; otherwise its live scope is reused as it is, or a
/// new empty one is created.
pub open spec fn entered(
    ids0: Seq<Moniker>,
    sc0: Seq<ScopeInfo>,
    ids1: Seq<Moniker>,
    sc1: Seq<ScopeInfo>,
    m: Moniker,
    generation: u64,
    r: Result<ScopeId, ComposeError>,
) -> bool {
    &&& ids0.is_prefix_of(ids1)
    &&& ids1.len() <= ids0.len() + 1
    &&& ids0.contains(m) ==> ids1 == ids0
    &&& !ids0.contains(m) ==> ids1 == ids0.push(m)
    &&& (r is Err <==> exists|i: int|
        0 <= i < ids0.len() && ids0[i] == m && is_visited(sc0, (i + 1) as u64))
    &&& match r {
        Ok(id) => {
            &&& 1 <= id <= ids1.len()
            &&& ids1[id - 1] == m
            &&& !is_visited(sc0, id)
            &&& is_visited(sc1, id)
            &&& is_live(sc0, id) ==> sc1 == visit(sc0, id)
            &&& !is_live(sc0, id) ==> sc1 == sc0.push(
                ScopeInfo { id, parent: m.parent, dirty: false, visited: true, generation },
            )
        },
        Err(_) => sc1 == sc0,
    }
}

/// The next revision (counting wraps around at the top of `u64`).
pub open spec fn bumped(r: u64) -> u64 {
    if r == u64::MAX {
        0
    } else {
        (r + 1) as u64
    }
}

/// The scopes after a write in scope `id`: it and its ancestors are dirty.
pub open spec fn marked(ids: Seq<Moniker>, s: Seq<ScopeInfo>, id: ScopeId) -> Seq<ScopeInfo> {
    Seq::new(
        s.len(),
        |i: int| ScopeInfo { dirty: s[i].dirty || is_ancestor(ids, s[i].id, id), ..s[i] },
    )
}

/// The scopes after scope `id` was entered again.
pub open spec fn visit(s: Seq<ScopeInfo>, id: ScopeId) -> Seq<ScopeInfo> {
    Seq::new(
        s.len(),
        |i: int|
            if s[i].id == id {
                ScopeInfo { visited: true, ..s[i] }
            } else {
                s[i]
            },
    )
}

/// The scopes as a pass begins: nothing is dirty, only the root is visited.
pub open spec fn restarted(s: Seq<ScopeInfo>) -> Seq<ScopeInfo> {
    Seq::new(s.len(), |i: int| ScopeInfo { dirty: false, visited: s[i].id == 0, ..s[i] })
}

pub open spec fn visited_scope() -> spec_fn(ScopeInfo) -> bool {
    |x: ScopeInfo| x.visited
}

pub open spec fn unvisited_scope() -> spec_fn(ScopeInfo) -> bool {
    |x: ScopeInfo| !x.visited
}

pub open spec fn kept_cell(s: Seq<ScopeInfo>) -> spec_fn(Cell) -> bool {
    |c: Cell| is_visited(s, c.scope)
}

pub open spec fn dropped_cell(s: Seq<ScopeInfo>) -> spec_fn(Cell) -> bool {
    |c: Cell| !is_visited(s, c.scope)
}

/// Scopes have distinct identities issued by `ids`, with the parent recorded there.
pub open spec fn scopes_wf(ids: Seq<Moniker>, s: Seq<ScopeInfo>) -> bool {
    &&& forall|i: int, j: int| 0 <= i < j < s.len() ==> #[trigger] s[i].id != #[trigger] s[j].id
    &&& forall|i: int|
        0 <= i < s.len() ==> #[trigger] s[i].id <= ids.len() && s[i].parent == parent_in(
            ids,
            s[i].id,
        )
}

/// Each cell belongs to a live scope, and a scope has at most one cell per key.
pub open spec fn cells_wf(s: Seq<ScopeInfo>, c: Seq<Cell>) -> bool {
    &&& forall|i: int, j: int|
        0 <= i < j < c.len() ==> !holds_cell(#[trigger] c[i], #[trigger] c[j].scope, c[j].key)
    &&& forall|i: int| 0 <= i < c.len() ==> is_live(s, #[trigger] c[i].scope)
}

pub proof fn lemma_counter_at_index(cs: Seq<Counter>, i: int)
    requires
        counters_wf(cs),
        0 <= i < cs.len(),
    ensures
        auto_count(cs, cs[i].parent, cs[i].callsite) == cs[i].next,
{
    assert(counts(cs[i], cs[i].parent, cs[i].callsite));
    let j = choose|j: int| 0 <= j < cs.len() && counts(#[trigger] cs[j], cs[i].parent, cs[i].callsite);
    if j < i {
        assert(!counts(cs[j], cs[i].parent, cs[i].callsite));
    } else if i < j {
        assert(!counts(cs[i], cs[j].parent, cs[j].callsite));
    }
}

pub proof fn lemma_cell_at_index(c: Seq<Cell>, i: int)
    requires
        forall|a: int, b: int|
            0 <= a < b < c.len() ==> !holds_cell(#[trigger] c[a], #[trigger] c[b].scope, c[b].key),
        0 <= i < c.len(),
    ensures
        cell_at(c, c[i].scope, c[i].key) == Some(c[i]),
{
    assert(holds_cell(c[i], c[i].scope, c[i].key));
    let j = choose|j: int| 0 <= j < c.len() && holds_cell(#[trigger] c[j], c[i].scope, c[i].key);
    if j < i {
        assert(!holds_cell(c[j], c[i].scope, c[i].key));
    } else if i < j {
        assert(!holds_cell(c[i], c[j].scope, c[j].key));
    }
}

/// Filtering the first `i + 1` elements adds element `i` to filtering the first `i`, if it passes.
pub proof fn lemma_filter_step<A>(s: Seq<A>, i: int, f: spec_fn(A) -> bool)
    requires
        0 <= i < s.len(),
    ensures
        s.subrange(0, i + 1).filter(f) == (if f(s[i]) {
            s.subrange(0, i).filter(f).push(s[i])
        } else {
            s.subrange(0, i).filter(f)
        }),
{
    reveal(Seq::filter);
    assert(s.subrange(0, i + 1).drop_last() =~= s.subrange(0, i));
}

/// Filtering a sequence whose elements have distinct keys leaves elements with distinct keys.
pub proof fn lemma_filter_distinct<A, K>(s: Seq<A>, f: spec_fn(A) -> bool, key: spec_fn(A) -> K)
    requires
        forall|i: int, j: int| 0 <= i < j < s.len() ==> key(#[trigger] s[i]) != key(#[trigger] s[j]),
    ensures
        forall|i: int, j: int|
            0 <= i < j < s.filter(f).len() ==> key(#[trigger] s.filter(f)[i]) != key(
                #[trigger] s.filter(f)[j],
            ),
    decreases s.len(),
{
    reveal(Seq::filter);
    if s.len() > 0 {
        let t = s.drop_last();
        assert forall|i: int, j: int| 0 <= i < j < t.len() implies key(#[trigger] t[i]) != key(
            #[trigger] t[j],
        ) by {
            assert(t[i] == s[i] && t[j] == s[j]);
        }
        lemma_filter_distinct(t, f, key);
        let tf = t.filter(f);
        if f(s.last()) {
            assert forall|i: int| 0 <= i < tf.len() implies key(#[trigger] tf[i]) != key(
                s.last(),
            ) by {
                t.lemma_filter_contains_rev(f, tf[i]);
                let j = choose|j: int| 0 <= j < t.len() && t[j] == tf[i];
                assert(s[j] == t[j]);
            }
            let sf = s.filter(f);
            assert(sf == tf.push(s.last()));
            assert forall|i: int, j: int| 0 <= i < j < sf.len() implies key(#[trigger] sf[i])
                != key(#[trigger] sf[j]) by {
                if j < tf.len() {
                    assert(sf[i] == tf[i] && sf[j] == tf[j]);
                } else {
                    assert(sf[i] == tf[i] && sf[j] == s.last());
                }
            }
        }
    }
}

/// The registry of one runtime: the identity table, the live scopes and their cells.
pub struct Scopes {
    ids: IdTable,
    scopes: Vec<ScopeInfo>,
    cells: Vec<Cell>,
    counters: Vec<Counter>,
    /// The number of scopes ever created; the next one gets it as generation.
    created: u64,
}

/// What entering scope `id` did, from registry `s0` to `s1` with result `r`:
/// an identity already entered in this pass is an `IdentityCollision` that
/// changes nothing; a live scope is marked visited and keeps its cells; an
/// absent one is created empty under the parent recorded for `id`, visited.
pub open spec fn got_or_created(
    s0: Scopes,
    s1: Scopes,
    id: ScopeId,
    r: Result<(), ComposeError>,
) -> bool {
    &&& s1.wf()
    &&& s1.ids_view() == s0.ids_view()
    &&& s1.cells_view() == s0.cells_view()
    &&& s1.counters_view() == s0.counters_view()
    &&& (r is Err <==> is_visited(s0.scopes_view(), id))
    &&& r is Err ==> r == Err::<(), ComposeError>(ComposeError::IdentityCollision)
        && s1.scopes_view() == s0.scopes_view()
    &&& r is Ok && is_live(s0.scopes_view(), id) ==> s1.scopes_view() == visit(
        s0.scopes_view(),
        id,
    )
    &&& r is Ok && !is_live(s0.scopes_view(), id) ==> s1.scopes_view() == s0.scopes_view().push(
        ScopeInfo {
            id,
            parent: parent_in(s0.ids_view(), id),
            dirty: false,
            visited: true,
            generation: s0.created_view(),
        },
    )
    &&& s1.created_view() == (if r is Ok && !is_live(s0.scopes_view(), id) {
        s0.created_view() + 1
    } else {
        s0.created_view() as int
    })
}

/// What writing `v` to the cell `key` of scope `id` did, from registry `s0`
/// to `s1`: on a live scope the value is replaced, the revision moves on, no
/// other cell changes and the scope and its ancestors become dirty; on a
/// retired one nothing changes.
pub open spec fn written(s0: Scopes, s1: Scopes, id: ScopeId, key: u64, v: u64) -> bool {
    &&& s1.wf()
    &&& s1.ids_view() == s0.ids_view()
    &&& s1.counters_view() == s0.counters_view()
    &&& s1.created_view() == s0.created_view()
    &&& is_live(s0.scopes_view(), id) ==> {
        &&& value_of(s1.cells_view(), id, key) == v
        &&& revision_of(s1.cells_view(), id, key) == bumped(revision_of(s0.cells_view(), id, key))
        &&& forall|s: ScopeId, k: u64|
            !(s == id && k == key) ==> #[trigger] cell_at(s1.cells_view(), s, k) == cell_at(
                s0.cells_view(),
                s,
                k,
            )
        &&& s1.scopes_view() == marked(s0.ids_view(), s0.scopes_view(), id)
    }
    &&& !is_live(s0.scopes_view(), id) ==> s1.scopes_view() == s0.scopes_view()
        && s1.cells_view() == s0.cells_view()
}

/// What a write through handle `h` did: on the scope instance it was made
/// for, what `written` says; on any other registry, nothing.
pub open spec fn handle_written(s0: Scopes, s1: Scopes, h: Handle, v: u64) -> bool {
    if is_current(s0.scopes_view(), h.scope, h.generation) {
        written(s0, s1, h.scope, h.key, v)
    } else {
        s1 == s0
    }
}

impl Scopes {
    pub closed spec fn ids_view(&self) -> Seq<Moniker> {
        self.ids@
    }

    pub closed spec fn scopes_view(&self) -> Seq<ScopeInfo> {
        self.scopes@
    }

    pub closed spec fn cells_view(&self) -> Seq<Cell> {
        self.cells@
    }

    pub closed spec fn counters_view(&self) -> Seq<Counter> {
        self.counters@
    }

    pub closed spec fn created_view(&self) -> u64 {
        self.created
    }

    pub open spec fn wf(&self) -> bool {
        &&& counters_wf(self.counters_view())
        &&& table_wf(self.ids_view())
        &&& scopes_wf(self.ids_view(), self.scopes_view())
        &&& cells_wf(self.scopes_view(), self.cells_view())
        &&& forall|i: int|
            0 <= i < self.scopes_view().len() ==> #[trigger] self.scopes_view()[i].generation
                < self.created_view()
    }

    /// A registry that holds only the root scope, visited.
    pub fn new() -> (r: Scopes)
        ensures
            r.wf(),
            r.ids_view() == Seq::<Moniker>::empty(),
            r.scopes_view() == seq![ScopeInfo { id: 0, parent: 0, dirty: false, visited: true, generation: 0 }],
            r.cells_view() == Seq::<Cell>::empty(),
            r.counters_view() == Seq::<Counter>::empty(),
            r.created_view() == 1,
    {
        let mut scopes: Vec<ScopeInfo> = Vec::new();
        scopes.push(ScopeInfo { id: 0, parent: 0, dirty: false, visited: true, generation: 0 });
        let r = Scopes { ids: IdTable::new(), scopes, cells: Vec::new(), counters: Vec::new(), created: 1 };
        assert(r.scopes@ =~= seq![ScopeInfo { id: 0, parent: 0, dirty: false, visited: true, generation: 0 }]);
        r
    }

    /// The number of live scopes.
    pub fn len(&self) -> (r: usize)
        ensures
            r == self.scopes_view().len(),
    {
        self.scopes.len()
    }

    /// The number of cells held by live scopes.
    pub fn cell_count(&self) -> (r: usize)
        ensures
            r == self.cells_view().len(),
    {
        self.cells.len()
    }

    /// The number of identities issued so far besides the root.
    pub fn issued(&self) -> (r: usize)
        ensures
            r == self.ids_view().len(),
    {
        self.ids.len()
    }

    /// Where scope `id` stands among the live scopes.
    fn position(&self, id: ScopeId) -> (r: Option<usize>)
        ensures
            match r {
                Some(i) => i < self.scopes@.len() && self.scopes@[i as int].id == id,
                None => !is_live(self.scopes_view(), id),
            },
    {
        let n = self.scopes.len();
        let mut i: usize = 0;
        while i < n
            invariant
                n == self.scopes@.len(),
                0 <= i <= n,
                forall|k: int| 0 <= k < i ==> self.scopes@[k].id != id,
            decreases n - i,
        {
            if self.scopes[i].id == id {
                return Some(i);
            }
            i = i + 1;
        }
        None
    }

    /// The bookkeeping of live scope `id`.
    pub fn info(&self, id: ScopeId) -> (r: Option<ScopeInfo>)
        ensures
            match r {
                Some(x) => x.id == id && self.scopes_view().contains(x),
                None => !is_live(self.scopes_view(), id),
            },
    {
        match self.position(id) {
            Some(i) => Some(self.scopes[i]),
            None => None,
        }
    }

    /// Whether a scope with identity `id` is live.
    pub fn contains(&self, id: ScopeId) -> (r: bool)
        ensures
            r == is_live(self.scopes_view(), id),
    {
        let n = self.scopes.len();
        let mut i: usize = 0;
        while i < n
            invariant
                n == self.scopes@.len(),
                0 <= i <= n,
                forall|k: int| 0 <= k < i ==> self.scopes@[k].id != id,
            decreases n - i,
        {
            if self.scopes[i].id == id {
                return true;
            }
            i = i + 1;
        }
        false
    }

    /// Whether scope `id` is live and was entered in the current pass.
    pub fn visited(&self, id: ScopeId) -> (r: bool)
        ensures
            r == is_visited(self.scopes_view(), id),
    {
        let n = self.scopes.len();
        let mut i: usize = 0;
        while i < n
            invariant
                n == self.scopes@.len(),
                0 <= i <= n,
                forall|k: int| 0 <= k < i ==> !(self.scopes@[k].id == id && self.scopes@[k].visited),
            decreases n - i,
        {
            if self.scopes[i].id == id && self.scopes[i].visited {
                return true;
            }
            i = i + 1;
        }
        false
    }

    /// Whether scope `id` is live and dirty.
    pub fn dirty(&self, id: ScopeId) -> (r: bool)
        ensures
            r == is_dirty(self.scopes_view(), id),
    {
        let n = self.scopes.len();
        let mut i: usize = 0;
        while i < n
            invariant
                n == self.scopes@.len(),
                0 <= i <= n,
                forall|k: int| 0 <= k < i ==> !(self.scopes@[k].id == id && self.scopes@[k].dirty),
            decreases n - i,
        {
            if self.scopes[i].id == id && self.scopes[i].dirty {
                return true;
            }
            i = i + 1;
        }
        false
    }
}


impl Scopes {
    /// The identity of the call at `callsite` with `key` under scope `parent`.
    pub fn allocate(&mut self, parent: ScopeId, callsite: CallsiteId, key: Key) -> (r: ScopeId)
        requires
            old(self).wf(),
            parent <= old(self).ids_view().len(),
            old(self).ids_view().len() < u64::MAX,
        ensures
            final(self).created_view() == old(self).created_view(),
            final(self).wf(),
            final(self).scopes_view() == old(self).scopes_view(),
            final(self).cells_view() == old(self).cells_view(),
            final(self).counters_view() == old(self).counters_view(),
            old(self).ids_view().is_prefix_of(final(self).ids_view()),
            1 <= r <= final(self).ids_view().len(),
            final(self).ids_view()[r - 1] == (Moniker { parent, callsite, key }),
            old(self).ids_view().contains(Moniker { parent, callsite, key })
                ==> final(self).ids_view() == old(self).ids_view(),
            !old(self).ids_view().contains(Moniker { parent, callsite, key })
                ==> final(self).ids_view() == old(self).ids_view().push(
                Moniker { parent, callsite, key },
            ),
    {
        let ghost before = self.ids@;
        let r = self.ids.allocate(Moniker { parent, callsite, key });
        assert(before.is_prefix_of(self.ids@)) by {
            assert forall|i: int| 0 <= i < before.len() implies before[i] == self.ids@[i] by {
                if !before.contains(Moniker { parent, callsite, key }) {
                    assert(self.ids@ == before.push(Moniker { parent, callsite, key }));
                }
            }
        }
        assert forall|i: int| 0 <= i < self.scopes@.len() implies #[trigger] self.scopes@[i].id
            <= self.ids@.len() && self.scopes@[i].parent == parent_in(
            self.ids@,
            self.scopes@[i].id,
        ) by {
            let id = self.scopes@[i].id;
            if id != 0 {
                assert(self.ids@[id - 1] == before[id - 1]);
            }
        }
        r
    }

    /// Enters scope `id` in the current pass: reuses the live scope with its
    /// cells, or creates an empty one under the recorded parent. Entering an
    /// identity a second time in one pass is an `IdentityCollision`.
    pub fn get_or_create(&mut self, id: ScopeId) -> (r: Result<(), ComposeError>)
        requires
            old(self).wf(),
            id <= old(self).ids_view().len(),
            old(self).created_view() < u64::MAX,
        ensures
            got_or_created(*old(self), *final(self), id, r),
    {
        if let Some(i) = self.position(id) {
            let s = self.scopes[i];
            if s.visited {
                assert(self.scopes@[i as int].id == id && self.scopes@[i as int].visited);
                return Err(ComposeError::IdentityCollision);
            }
            let ghost before = self.scopes@;
            self.scopes.set(i, ScopeInfo { visited: true, ..s });
            assert(before == old(self).scopes_view());
            assert forall|k: int| 0 <= k < before.len() && k != i implies before[k].id != id by {
                if k < i {
                    assert(before[k].id != before[i as int].id);
                } else {
                    assert(before[i as int].id != before[k].id);
                }
            }
            assert(self.scopes@ =~= visit(before, id));
            assert forall|k: int| 0 <= k < before.len() implies #[trigger] self.scopes@[k].id
                == before[k].id && self.scopes@[k].parent == before[k].parent by {}
            assert(!is_visited(before, id));
            assert forall|k: int| 0 <= k < self.cells@.len() implies is_live(
                self.scopes@,
                #[trigger] self.cells@[k].scope,
            ) by {
                let j = choose|j: int| 0 <= j < before.len() && #[trigger] before[j].id
                    == self.cells@[k].scope;
                assert(self.scopes@[j].id == before[j].id);
            }
            Ok(())
        } else {
            let parent = self.ids.parent(id);
            let ghost before = self.scopes@;
            let generation = self.created;
            self.scopes.push(ScopeInfo { id, parent, dirty: false, visited: true, generation });
            self.created = self.created + 1;
            assert forall|k: int| 0 <= k < self.cells@.len() implies is_live(
                self.scopes@,
                #[trigger] self.cells@[k].scope,
            ) by {
                let j = choose|j: int| 0 <= j < before.len() && #[trigger] before[j].id
                    == self.cells@[k].scope;
                assert(self.scopes@[j] == before[j]);
            }
            Ok(())
        }
    }

    /// The position of the next unkeyed call at `callsite` under `parent`, counted;
    /// `None` once the count can go no higher.
    fn next_auto(&mut self, parent: ScopeId, callsite: CallsiteId) -> (r: Option<u64>)
        requires
            old(self).wf(),
        ensures
            final(self).created_view() == old(self).created_view(),
            final(self).wf(),
            final(self).ids_view() == old(self).ids_view(),
            final(self).scopes_view() == old(self).scopes_view(),
            final(self).cells_view() == old(self).cells_view(),
            auto_count(old(self).counters_view(), parent, callsite) == u64::MAX ==> r is None
                && final(self).counters_view() == old(self).counters_view(),
            auto_count(old(self).counters_view(), parent, callsite) < u64::MAX ==> r == Some(
                auto_count(old(self).counters_view(), parent, callsite),
            ) && auto_count(final(self).counters_view(), parent, callsite) == auto_count(
                old(self).counters_view(),
                parent,
                callsite,
            ) + 1,
            forall|p: ScopeId, c: CallsiteId|
                !(p == parent && c == callsite) ==> #[trigger] auto_count(
                    final(self).counters_view(),
                    p,
                    c,
                ) == auto_count(old(self).counters_view(), p, c),
    {
        let ghost before = self.counters@;
        let n = self.counters.len();
        let mut i: usize = 0;
        while i < n
            invariant
                n == self.counters@.len(),
                self.counters@ == before,
                before == old(self).counters_view(),
                self.created == old(self).created_view(),
                self.ids@ == old(self).ids_view(),
                self.scopes@ == old(self).scopes_view(),
                self.cells@ == old(self).cells_view(),
                old(self).wf(),
                0 <= i <= n,
                forall|k: int| 0 <= k < i ==> !counts(#[trigger] self.counters@[k], parent, callsite),
            decreases n - i,
        {
            let c = self.counters[i];
            if c.parent == parent && c.callsite == callsite {
                proof {
                    lemma_counter_at_index(before, i as int);
                }
                if c.next == u64::MAX {
                    return None;
                }
                self.counters.set(i, Counter { next: c.next + 1, ..c });
                proof {
                    lemma_counter_at_index(self.counters@, i as int);
                }
                let ghost after = self.counters@;
                assert forall|a: int, b: int| 0 <= a < b < after.len() implies !counts(
                    #[trigger] after[a],
                    #[trigger] after[b].parent,
                    after[b].callsite,
                ) by {
                    assert(!counts(before[a], before[b].parent, before[b].callsite));
                }
                proof {
                    lemma_counter_at_index(after, i as int);
                }
                assert forall|p: ScopeId, cs: CallsiteId| !(p == parent && cs == callsite) implies #[trigger] auto_count(
                    after,
                    p,
                    cs,
                ) == auto_count(before, p, cs) by {
                    if exists|j: int| 0 <= j < before.len() && counts(#[trigger] before[j], p, cs) {
                        let j = choose|j: int| 0 <= j < before.len() && counts(#[trigger] before[j], p, cs);
                        lemma_counter_at_index(before, j);
                        lemma_counter_at_index(after, j);
                    } else {
                        assert forall|j: int| 0 <= j < after.len() implies !counts(#[trigger] after[j], p, cs) by {
                            assert(!counts(before[j], p, cs));
                        }
                    }
                }
                return Some(c.next);
            }
            i = i + 1;
        }
        self.counters.push(Counter { parent, callsite, next: 1 });
        let ghost after = self.counters@;
        assert forall|a: int, b: int| 0 <= a < b < after.len() implies !counts(
            #[trigger] after[a],
            #[trigger] after[b].parent,
            after[b].callsite,
        ) by {
            if b < n {
                assert(!counts(before[a], before[b].parent, before[b].callsite));
            } else {
                assert(!counts(before[a], parent, callsite));
            }
        }
        proof {
            lemma_counter_at_index(after, n as int);
        }
        assert forall|p: ScopeId, cs: CallsiteId| !(p == parent && cs == callsite) implies #[trigger] auto_count(
            after,
            p,
            cs,
        ) == auto_count(before, p, cs) by {
            if exists|j: int| 0 <= j < before.len() && counts(#[trigger] before[j], p, cs) {
                let j = choose|j: int| 0 <= j < before.len() && counts(#[trigger] before[j], p, cs);
                lemma_counter_at_index(before, j);
                lemma_counter_at_index(after, j);
            } else {
                assert forall|j: int| 0 <= j < after.len() implies !counts(#[trigger] after[j], p, cs) by {
                    if j < n {
                        assert(!counts(before[j], p, cs));
                    }
                }
            }
        }
        Some(0)
    }

    /// Allocates the identity of a nested call with moniker `m` and enters its scope.
    fn enter_moniker(&mut self, m: Moniker) -> (r: Result<ScopeId, ComposeError>)
        requires
            old(self).wf(),
            m.parent <= old(self).ids_view().len(),
            old(self).ids_view().len() < u64::MAX,
            old(self).created_view() < u64::MAX,
        ensures
            final(self).wf(),
            final(self).cells_view() == old(self).cells_view(),
            final(self).counters_view() == old(self).counters_view(),
            final(self).created_view() >= old(self).created_view(),
            entered(
                old(self).ids_view(),
                old(self).scopes_view(),
                final(self).ids_view(),
                final(self).scopes_view(),
                m,
                old(self).created_view(),
                r,
            ),
    {
        let ghost before = self.ids@;
        let id = self.allocate(m.parent, m.callsite, m.key);
        let ghost sc = self.scopes@;
        let r = self.get_or_create(id);
        proof {
            if exists|i: int|
                0 <= i < before.len() && before[i] == m && is_visited(sc, (i + 1) as u64) {
                let i = choose|i: int|
                    0 <= i < before.len() && before[i] == m && is_visited(sc, (i + 1) as u64);
                assert(self.ids@[i] == m);
                assert(self.ids@[id - 1] == m);
            }
            if r is Ok {
                if id <= before.len() {
                    assert(before[id - 1] == self.ids@[id - 1]);
                }
                if is_live(sc, id) {
                    let j = choose|j: int| 0 <= j < sc.len() && #[trigger] sc[j].id == id;
                    assert(self.scopes@[j].id == id && self.scopes@[j].visited);
                } else {
                    assert(self.scopes@[sc.len() as int].id == id);
                }
            }
        }
        match r {
            Ok(()) => Ok(id),
            Err(e) => Err(e),
        }
    }

    /// Enters the scope of the call at `callsite` under `parent` with the
    /// explicit key `key`.
    pub fn enter(&mut self, parent: ScopeId, callsite: CallsiteId, key: u64) -> (r: Result<
        ScopeId,
        ComposeError,
    >)
        requires
            old(self).wf(),
            parent <= old(self).ids_view().len(),
            old(self).ids_view().len() < u64::MAX,
            old(self).created_view() < u64::MAX,
        ensures
            final(self).wf(),
            final(self).cells_view() == old(self).cells_view(),
            final(self).counters_view() == old(self).counters_view(),
            final(self).created_view() >= old(self).created_view(),
            entered(
                old(self).ids_view(),
                old(self).scopes_view(),
                final(self).ids_view(),
                final(self).scopes_view(),
                Moniker { parent, callsite, key: Key::Explicit(key) },
                old(self).created_view(),
                r,
            ),
    {
        self.enter_moniker(Moniker { parent, callsite, key: Key::Explicit(key) })
    }

    /// Enters the scope of an unkeyed call at `callsite` under `parent`: the
    /// `n`-th such call in a pass is keyed by `Key::Auto(n)`. Once `u64::MAX`
    /// such calls were made in one pass no distinct key is left, and the call
    /// reports `IdentityCollision`.
    pub fn enter_unkeyed(&mut self, parent: ScopeId, callsite: CallsiteId) -> (r: Result<
        ScopeId,
        ComposeError,
    >)
        requires
            old(self).wf(),
            parent <= old(self).ids_view().len(),
            old(self).ids_view().len() < u64::MAX,
            old(self).created_view() < u64::MAX,
        ensures
            final(self).wf(),
            final(self).cells_view() == old(self).cells_view(),
            auto_count(old(self).counters_view(), parent, callsite) == u64::MAX ==> r == Err::<
                ScopeId,
                ComposeError,
            >(ComposeError::IdentityCollision) && final(self).ids_view() == old(self).ids_view()
                && final(self).scopes_view() == old(self).scopes_view(),
            auto_count(old(self).counters_view(), parent, callsite) < u64::MAX ==> {
                &&& entered(
                    old(self).ids_view(),
                    old(self).scopes_view(),
                    final(self).ids_view(),
                    final(self).scopes_view(),
                    Moniker {
                        parent,
                        callsite,
                        key: Key::Auto(auto_count(old(self).counters_view(), parent, callsite)),
                    },
                    old(self).created_view(),
                    r,
                )
                &&& auto_count(final(self).counters_view(), parent, callsite) == auto_count(
                    old(self).counters_view(),
                    parent,
                    callsite,
                ) + 1
            },
            forall|p: ScopeId, c: CallsiteId|
                !(p == parent && c == callsite) ==> #[trigger] auto_count(
                    final(self).counters_view(),
                    p,
                    c,
                ) == auto_count(old(self).counters_view(), p, c),
    {
        match self.next_auto(parent, callsite) {
            Some(n) => self.enter_moniker(Moniker { parent, callsite, key: Key::Auto(n) }),
            None => Err(ComposeError::IdentityCollision),
        }
    }
}


impl Scopes {
    /// Where the cell `key` of scope `id` stands among the cells.
    fn cell_position(&self, id: ScopeId, key: u64) -> (r: Option<usize>)
        ensures
            match r {
                Some(i) => i < self.cells@.len() && holds_cell(self.cells@[i as int], id, key),
                None => forall|k: int|
                    0 <= k < self.cells@.len() ==> !holds_cell(#[trigger] self.cells@[k], id, key),
            },
    {
        let n = self.cells.len();
        let mut i: usize = 0;
        while i < n
            invariant
                n == self.cells@.len(),
                0 <= i <= n,
                forall|k: int| 0 <= k < i ==> !holds_cell(#[trigger] self.cells@[k], id, key),
            decreases n - i,
        {
            let c = self.cells[i];
            if c.scope == id && c.key == key {
                return Some(i);
            }
            i = i + 1;
        }
        None
    }

    /// Reads the cell `key` of scope `id`: its value, or `0` if it was never written.
    pub fn get(&self, id: ScopeId, key: u64) -> (r: u64)
        requires
            self.wf(),
        ensures
            r == value_of(self.cells_view(), id, key),
    {
        match self.cell_position(id, key) {
            Some(i) => {
                proof {
                    lemma_cell_at_index(self.cells@, i as int);
                }
                self.cells[i].value
            },
            None => 0,
        }
    }

    /// The revision of the cell `key` of scope `id`.
    pub fn revision(&self, id: ScopeId, key: u64) -> (r: u64)
        requires
            self.wf(),
        ensures
            r == revision_of(self.cells_view(), id, key),
    {
        match self.cell_position(id, key) {
            Some(i) => {
                proof {
                    lemma_cell_at_index(self.cells@, i as int);
                }
                self.cells[i].revision
            },
            None => 0,
        }
    }

    /// Marks scope `id` and every ancestor dirty. Marking is an "or", so it is
    /// idempotent and order does not matter; a retired `id` marks nothing.
    pub fn mark_dirty(&mut self, id: ScopeId)
        requires
            old(self).wf(),
        ensures
            final(self).created_view() == old(self).created_view(),
            final(self).wf(),
            final(self).ids_view() == old(self).ids_view(),
            final(self).cells_view() == old(self).cells_view(),
            final(self).counters_view() == old(self).counters_view(),
            final(self).scopes_view() == (if is_live(old(self).scopes_view(), id) {
                marked(old(self).ids_view(), old(self).scopes_view(), id)
            } else {
                old(self).scopes_view()
            }),
    {
        if !self.contains(id) {
            return;
        }
        let ghost before = self.scopes@;
        let n = self.scopes.len();
        let mut i: usize = 0;
        while i < n
            invariant
                n == self.scopes@.len(),
                n == before.len(),
                0 <= i <= n,
                self.ids.wf(),
                self.ids@ == old(self).ids_view(),
                self.cells@ == old(self).cells_view(),
                self.counters@ == old(self).counters_view(),
                self.created == old(self).created_view(),
                before == old(self).scopes_view(),
                forall|k: int| 0 <= k < i ==> #[trigger] self.scopes@[k] == marked(self.ids@, before, id)[k],
                forall|k: int| i <= k < n ==> #[trigger] self.scopes@[k] == before[k],
            decreases n - i,
        {
            let s = self.scopes[i];
            if self.ids.is_ancestor(s.id, id) {
                self.scopes.set(i, ScopeInfo { dirty: true, ..s });
            }
            i = i + 1;
        }
        assert(self.scopes@ =~= marked(self.ids@, before, id));
        assert forall|k: int| 0 <= k < self.cells@.len() implies is_live(
            self.scopes@,
            #[trigger] self.cells@[k].scope,
        ) by {
            let j = choose|j: int| 0 <= j < before.len() && #[trigger] before[j].id
                == self.cells@[k].scope;
            assert(self.scopes@[j].id == before[j].id);
        }
    }

    /// Writes `v` to the cell `key` of scope `id`: the value is replaced whole,
    /// the revision moves on, and the scope and its ancestors become dirty. A
    /// write to a retired scope changes nothing.
    pub fn write(&mut self, id: ScopeId, key: u64, v: u64)
        requires
            old(self).wf(),
        ensures
            written(*old(self), *final(self), id, key, v),
    {
        if !self.contains(id) {
            return;
        }
        let ghost before = self.cells@;
        match self.cell_position(id, key) {
            Some(i) => {
                let c = self.cells[i];
                let rev = if c.revision == u64::MAX {
                    0
                } else {
                    c.revision + 1
                };
                self.cells.set(i, Cell { value: v, revision: rev, ..c });
                assert forall|a: int, b: int| 0 <= a < b < self.cells@.len() implies !holds_cell(
                    #[trigger] self.cells@[a],
                    #[trigger] self.cells@[b].scope,
                    self.cells@[b].key,
                ) by {
                    assert(!holds_cell(before[a], before[b].scope, before[b].key));
                }
                assert forall|k: int| 0 <= k < self.cells@.len() implies is_live(
                    self.scopes@,
                    #[trigger] self.cells@[k].scope,
                ) by {
                    assert(is_live(self.scopes@, before[k].scope));
                }
                proof {
                    lemma_cell_at_index(self.cells@, i as int);
                    lemma_cell_at_index(before, i as int);
                }
            },
            None => {
                self.cells.push(Cell { scope: id, key, value: v, revision: 1 });
                let ghost i = before.len() as int;
                assert forall|a: int, b: int| 0 <= a < b < self.cells@.len() implies !holds_cell(
                    #[trigger] self.cells@[a],
                    #[trigger] self.cells@[b].scope,
                    self.cells@[b].key,
                ) by {
                    if b < i {
                        assert(!holds_cell(before[a], before[b].scope, before[b].key));
                    } else {
                        assert(!holds_cell(before[a], id, key));
                    }
                }
                assert forall|k: int| 0 <= k < self.cells@.len() implies is_live(
                    self.scopes@,
                    #[trigger] self.cells@[k].scope,
                ) by {
                    if k < i {
                        assert(is_live(self.scopes@, before[k].scope));
                    }
                }
                proof {
                    lemma_cell_at_index(self.cells@, i);
                }
            },
        }
        let ghost after = self.cells@;
        assert forall|s: ScopeId, k: u64| !(s == id && k == key) implies #[trigger] cell_at(
            after,
            s,
            k,
        ) == cell_at(before, s, k) by {
            if exists|j: int| 0 <= j < before.len() && holds_cell(#[trigger] before[j], s, k) {
                let j = choose|j: int| 0 <= j < before.len() && holds_cell(#[trigger] before[j], s, k);
                assert(after[j] == before[j]);
                lemma_cell_at_index(before, j);
                lemma_cell_at_index(after, j);
            } else {
                assert forall|j: int| 0 <= j < after.len() implies !holds_cell(
                    #[trigger] after[j],
                    s,
                    k,
                ) by {
                    if j < before.len() {
                        assert(!holds_cell(before[j], s, k));
                    }
                }
            }
        }
        self.mark_dirty(id);
    }
}


impl Scopes {
    /// Starts a pass: clears every visited marker but the root's, and every dirty flag.
    pub fn begin_pass(&mut self)
        requires
            old(self).wf(),
        ensures
            final(self).created_view() == old(self).created_view(),
            final(self).wf(),
            final(self).ids_view() == old(self).ids_view(),
            final(self).cells_view() == old(self).cells_view(),
            final(self).scopes_view() == restarted(old(self).scopes_view()),
            final(self).counters_view() == Seq::<Counter>::empty(),
    {
        let ghost before = self.scopes@;
        let n = self.scopes.len();
        let mut i: usize = 0;
        while i < n
            invariant
                n == self.scopes@.len(),
                n == before.len(),
                0 <= i <= n,
                before == old(self).scopes_view(),
                self.ids@ == old(self).ids_view(),
                self.cells@ == old(self).cells_view(),
                self.counters@ == old(self).counters_view(),
                self.created == old(self).created_view(),
                forall|k: int| 0 <= k < i ==> #[trigger] self.scopes@[k] == restarted(before)[k],
                forall|k: int| i <= k < n ==> #[trigger] self.scopes@[k] == before[k],
            decreases n - i,
        {
            let s = self.scopes[i];
            self.scopes.set(i, ScopeInfo { dirty: false, visited: s.id == 0, ..s });
            i = i + 1;
        }
        self.counters = Vec::new();
        assert(self.scopes@ =~= restarted(before));
        assert forall|k: int| 0 <= k < self.cells@.len() implies is_live(
            self.scopes@,
            #[trigger] self.cells@[k].scope,
        ) by {
            let j = choose|j: int| 0 <= j < before.len() && #[trigger] before[j].id
                == self.cells@[k].scope;
            assert(self.scopes@[j].id == before[j].id);
        }
    }

    /// Ends a pass: every scope that was not entered in it is removed with its
    /// cells, and handed back for finalization; the others stay as they are.
    pub fn end_pass(&mut self) -> (r: Retired)
        requires
            old(self).wf(),
        ensures
            final(self).created_view() == old(self).created_view(),
            final(self).wf(),
            final(self).ids_view() == old(self).ids_view(),
            final(self).scopes_view() == old(self).scopes_view().filter(visited_scope()),
            final(self).cells_view() == old(self).cells_view().filter(
                kept_cell(old(self).scopes_view()),
            ),
            r.scopes@ == old(self).scopes_view().filter(unvisited_scope()),
            r.cells@ == old(self).cells_view().filter(dropped_cell(old(self).scopes_view())),
    {
        let ghost sc = self.scopes@;
        let ghost ce = self.cells@;
        let mut kept_cells: Vec<Cell> = Vec::new();
        let mut gone_cells: Vec<Cell> = Vec::new();
        let n = self.cells.len();
        let mut i: usize = 0;
        while i < n
            invariant
                n == self.cells@.len(),
                0 <= i <= n,
                self.cells@ == ce,
                self.scopes@ == sc,
                kept_cells@ == ce.subrange(0, i as int).filter(kept_cell(sc)),
                gone_cells@ == ce.subrange(0, i as int).filter(dropped_cell(sc)),
            decreases n - i,
        {
            let c = self.cells[i];
            proof {
                lemma_filter_step(ce, i as int, kept_cell(sc));
                lemma_filter_step(ce, i as int, dropped_cell(sc));
            }
            if self.visited(c.scope) {
                kept_cells.push(c);
            } else {
                gone_cells.push(c);
            }
            i = i + 1;
        }
        assert(ce.subrange(0, n as int) =~= ce);
        let mut kept: Vec<ScopeInfo> = Vec::new();
        let mut gone: Vec<ScopeInfo> = Vec::new();
        let m = self.scopes.len();
        let mut j: usize = 0;
        while j < m
            invariant
                m == self.scopes@.len(),
                0 <= j <= m,
                self.scopes@ == sc,
                kept@ == sc.subrange(0, j as int).filter(visited_scope()),
                gone@ == sc.subrange(0, j as int).filter(unvisited_scope()),
            decreases m - j,
        {
            let s = self.scopes[j];
            proof {
                lemma_filter_step(sc, j as int, visited_scope());
                lemma_filter_step(sc, j as int, unvisited_scope());
            }
            if s.visited {
                kept.push(s);
            } else {
                gone.push(s);
            }
            j = j + 1;
        }
        assert(sc.subrange(0, m as int) =~= sc);
        proof {
            let ids = self.ids@;
            let ks = sc.filter(visited_scope());
            let kc = ce.filter(kept_cell(sc));
            lemma_filter_distinct(sc, visited_scope(), |x: ScopeInfo| x.id);
            assert forall|a: int, b: int| 0 <= a < b < ks.len() implies #[trigger] ks[a].id
                != #[trigger] ks[b].id by {
                assert((|x: ScopeInfo| x.id)(ks[a]) != (|x: ScopeInfo| x.id)(ks[b]));
            }
            assert forall|a: int| 0 <= a < ks.len() implies #[trigger] ks[a].id <= ids.len()
                && ks[a].parent == parent_in(ids, ks[a].id) by {
                sc.lemma_filter_contains_rev(visited_scope(), ks[a]);
            }
            lemma_filter_distinct(ce, kept_cell(sc), |x: Cell| (x.scope, x.key));
            assert forall|a: int, b: int| 0 <= a < b < kc.len() implies !holds_cell(
                #[trigger] kc[a],
                #[trigger] kc[b].scope,
                kc[b].key,
            ) by {
                assert((|x: Cell| (x.scope, x.key))(kc[a]) != (|x: Cell| (x.scope, x.key))(kc[b]));
            }
            assert forall|a: int| 0 <= a < kc.len() implies is_live(ks, #[trigger] kc[a].scope) by {
                ce.lemma_filter_pred(kept_cell(sc), a);
                let w = choose|w: int| 0 <= w < sc.len() && #[trigger] sc[w].id == kc[a].scope
                    && sc[w].visited;
                sc.lemma_filter_contains(visited_scope(), w);
                let v = choose|v: int| 0 <= v < ks.len() && ks[v] == sc[w];
                assert(ks[v].id == kc[a].scope);
            }
        }
        self.scopes = kept;
        self.cells = kept_cells;
        assert forall|a: int| 0 <= a < self.scopes@.len() implies #[trigger] self.scopes@[a].generation
            < self.created by {
            sc.lemma_filter_contains_rev(visited_scope(), self.scopes@[a]);
            let w = choose|w: int| 0 <= w < sc.len() && sc[w] == self.scopes@[a];
            assert(sc[w].generation < self.created);
        }
        Retired { scopes: gone, cells: gone_cells }
    }

    /// Removes every scope and cell, handing each back once for finalization.
    /// Scopes come back top-down: in increasing identity, so each ancestor
    /// comes before its descendants.
    pub fn teardown(&mut self) -> (r: Retired)
        requires
            old(self).wf(),
        ensures
            final(self).wf(),
            final(self).created_view() == old(self).created_view(),
            final(self).ids_view() == old(self).ids_view(),
            final(self).scopes_view() == Seq::<ScopeInfo>::empty(),
            final(self).cells_view() == Seq::<Cell>::empty(),
            forall|x: ScopeInfo| r.scopes@.contains(x) <==> old(self).scopes_view().contains(x),
            forall|i: int, j: int|
                0 <= i < j < r.scopes@.len() ==> #[trigger] r.scopes@[i].id < #[trigger] r.scopes@[j].id,
            forall|i: int, j: int|
                0 <= i < r.scopes@.len() && 0 <= j < r.scopes@.len() && is_ancestor(
                    old(self).ids_view(),
                    #[trigger] r.scopes@[i].id,
                    #[trigger] r.scopes@[j].id,
                ) ==> i <= j,
            r.cells@ == old(self).cells_view(),
    {
        let ghost sc = self.scopes@;
        let n = self.ids.len();
        let mut out: Vec<ScopeInfo> = Vec::new();
        let mut i: usize = 0;
        loop
            invariant_except_break
                forall|a: int| 0 <= a < out@.len() ==> #[trigger] out@[a].id < i,
                forall|x: ScopeInfo| out@.contains(x) <==> (sc.contains(x) && x.id < i),
            invariant
                self.wf(),
                *self == *old(self),
                sc == self.scopes@,
                n == self.ids@.len(),
                0 <= i <= n,
                forall|a: int, b: int|
                    0 <= a < b < out@.len() ==> #[trigger] out@[a].id < #[trigger] out@[b].id,
            ensures
                forall|x: ScopeInfo| out@.contains(x) <==> (sc.contains(x) && x.id <= n),
            decreases n - i,
        {
            let ghost before = out@;
            match self.position(i as u64) {
                Some(p) => {
                    out.push(self.scopes[p]);
                    assert forall|x: ScopeInfo| out@.contains(x) <==> (sc.contains(x) && x.id < i + 1) by {
                        if sc.contains(x) && x.id == i {
                            let w = choose|w: int| 0 <= w < sc.len() && sc[w] == x;
                            if w != p {
                                if w < p {
                                    assert(sc[w].id != sc[p as int].id);
                                } else {
                                    assert(sc[p as int].id != sc[w].id);
                                }
                            }
                            assert(out@[before.len() as int] == x);
                        }
                        if out@.contains(x) {
                            let w = choose|w: int| 0 <= w < out@.len() && out@[w] == x;
                            if w < before.len() {
                                assert(before.contains(x));
                            }
                        }
                        if sc.contains(x) && x.id < i {
                            assert(before.contains(x));
                            let w = choose|w: int| 0 <= w < before.len() && before[w] == x;
                            assert(out@[w] == x);
                        }
                    }
                },
                None => {
                    assert forall|x: ScopeInfo| out@.contains(x) <==> (sc.contains(x) && x.id < i + 1) by {
                        if sc.contains(x) && x.id == i {
                            let w = choose|w: int| 0 <= w < sc.len() && sc[w] == x;
                            assert(sc[w].id == i as u64);
                        }
                    }
                },
            }
            if i == n {
                break;
            }
            i = i + 1;
        }
        assert forall|x: ScopeInfo| out@.contains(x) <==> sc.contains(x) by {
            if sc.contains(x) {
                let w = choose|w: int| 0 <= w < sc.len() && sc[w] == x;
                assert(sc[w].id <= n);
            }
        }
        assert forall|a: int, b: int|
            0 <= a < out@.len() && 0 <= b < out@.len() && is_ancestor(
                self.ids@,
                #[trigger] out@[a].id,
                #[trigger] out@[b].id,
            ) implies a <= b by {
            crate::identity::lemma_ancestor_le(self.ids@, out@[a].id, out@[b].id);
            if b < a {
                assert(out@[b].id < out@[a].id);
            }
        }
        let mut cells: Vec<Cell> = Vec::new();
        std::mem::swap(&mut cells, &mut self.cells);
        self.scopes = Vec::new();
        Retired { scopes: out, cells }
    }
}


/// Ending a pass keeps every cell of a scope that was entered in it, so the
/// next pass reads what this one left.
pub proof fn lemma_scope_reuse(s: Seq<ScopeInfo>, c: Seq<Cell>, id: ScopeId, key: u64)
    requires
        cells_wf(s, c),
        is_visited(s, id),
    ensures
        cell_at(c.filter(kept_cell(s)), id, key) == cell_at(c, id, key),
        value_of(c.filter(kept_cell(s)), id, key) == value_of(c, id, key),
{
    let f = c.filter(kept_cell(s));
    if exists|j: int| 0 <= j < c.len() && holds_cell(#[trigger] c[j], id, key) {
        let j = choose|j: int| 0 <= j < c.len() && holds_cell(#[trigger] c[j], id, key);
        lemma_cell_at_index(c, j);
        c.lemma_filter_contains(kept_cell(s), j);
        let v = choose|v: int| 0 <= v < f.len() && f[v] == c[j];
        lemma_filter_distinct(c, kept_cell(s), |x: Cell| (x.scope, x.key));
        assert forall|a: int, b: int| 0 <= a < b < f.len() implies !holds_cell(
            #[trigger] f[a],
            #[trigger] f[b].scope,
            f[b].key,
        ) by {
            assert((|x: Cell| (x.scope, x.key))(f[a]) != (|x: Cell| (x.scope, x.key))(f[b]));
        }
        lemma_cell_at_index(f, v);
    } else {
        assert forall|v: int| 0 <= v < f.len() implies !holds_cell(#[trigger] f[v], id, key) by {
            c.lemma_filter_contains_rev(kept_cell(s), f[v]);
        }
    }
}

/// Ending a pass removes a live scope that was not entered in it, with all of
/// its cells: if its identity comes back, its cells start at the default.
pub proof fn lemma_scope_retirement(s: Seq<ScopeInfo>, c: Seq<Cell>, id: ScopeId, key: u64)
    requires
        !is_visited(s, id),
    ensures
        !is_live(s.filter(visited_scope()), id),
        cell_at(c.filter(kept_cell(s)), id, key) is None,
        value_of(c.filter(kept_cell(s)), id, key) == 0,
{
    let fs = s.filter(visited_scope());
    assert forall|v: int| 0 <= v < fs.len() implies #[trigger] fs[v].id != id by {
        s.lemma_filter_pred(visited_scope(), v);
        s.lemma_filter_contains_rev(visited_scope(), fs[v]);
        let w = choose|w: int| 0 <= w < s.len() && s[w] == fs[v];
        assert(s[w].id == fs[v].id);
    }
    let fc = c.filter(kept_cell(s));
    assert forall|v: int| 0 <= v < fc.len() implies !holds_cell(#[trigger] fc[v], id, key) by {
        c.lemma_filter_pred(kept_cell(s), v);
    }
}

/// A write three levels below the root marks exactly that scope, its parent,
/// its grandparent and the root; no other scope is marked.
pub proof fn lemma_dirty_chain(ids: Seq<Moniker>, a: ScopeId, b: ScopeId, d: ScopeId, x: ScopeId)
    requires
        table_wf(ids),
        1 <= a <= ids.len(),
        1 <= b <= ids.len(),
        1 <= d <= ids.len(),
        ids[a - 1].parent == 0,
        ids[b - 1].parent == a,
        ids[d - 1].parent == b,
    ensures
        is_ancestor(ids, x, d) <==> (x == d || x == b || x == a || x == 0),
{
    assert(ids[d - 1].parent <= d - 1);
    assert(ids[b - 1].parent <= b - 1);
    assert(ids[a - 1].parent <= a - 1);
    reveal_with_fuel(is_ancestor, 5);
}


/// Each cell is handed back for finalization at most once when a pass ends:
/// the pass returns exactly the cells it removes and keeps every other one,
/// for a later pass or the teardown to return.
pub proof fn lemma_finalized_once(s: Seq<ScopeInfo>, c: Seq<Cell>, x: Cell)
    ensures
        !(c.filter(kept_cell(s)).contains(x) && c.filter(dropped_cell(s)).contains(x)),
        c.contains(x) <==> (c.filter(kept_cell(s)).contains(x) || c.filter(
            dropped_cell(s),
        ).contains(x)),
{
    if c.filter(kept_cell(s)).contains(x) {
        let i = choose|i: int| 0 <= i < c.filter(kept_cell(s)).len() && c.filter(kept_cell(s))[i] == x;
        c.lemma_filter_pred(kept_cell(s), i);
        c.lemma_filter_contains_rev(kept_cell(s), x);
        if c.filter(dropped_cell(s)).contains(x) {
            let j = choose|j: int| 0 <= j < c.filter(dropped_cell(s)).len() && c.filter(dropped_cell(s))[j] == x;
            c.lemma_filter_pred(dropped_cell(s), j);
        }
    }
    if c.filter(dropped_cell(s)).contains(x) {
        c.lemma_filter_contains_rev(dropped_cell(s), x);
    }
    if c.contains(x) {
        let i = choose|i: int| 0 <= i < c.len() && c[i] == x;
        if is_visited(s, x.scope) {
            c.lemma_filter_contains(kept_cell(s), i);
        } else {
            c.lemma_filter_contains(dropped_cell(s), i);
        }
    }
}


impl Scopes {
    /// Whether the live scope `id` is the instance of generation `generation`.
    pub fn current(&self, id: ScopeId, generation: u64) -> (r: bool)
        requires
            self.wf(),
        ensures
            r == is_current(self.scopes_view(), id, generation),
    {
        match self.position(id) {
            Some(i) => {
                let g = self.scopes[i].generation;
                if g != generation {
                    assert forall|k: int|
                        0 <= k < self.scopes@.len() && #[trigger] self.scopes@[k].id == id
                            implies self.scopes@[k].generation != generation by {
                        if k < i {
                            assert(self.scopes@[k].id != self.scopes@[i as int].id);
                        } else if k > i {
                            assert(self.scopes@[i as int].id != self.scopes@[k].id);
                        }
                    }
                }
                g == generation
            },
            None => false,
        }
    }

    /// A handle to the cell `key` of the live scope `id`.
    pub fn handle(&self, id: ScopeId, key: u64) -> (r: Option<Handle>)
        ensures
            match r {
                Some(h) => h.scope == id && h.key == key && is_current(
                    self.scopes_view(),
                    id,
                    h.generation,
                ),
                None => !is_live(self.scopes_view(), id),
            },
    {
        match self.position(id) {
            Some(i) => Some(Handle { scope: id, generation: self.scopes[i].generation, key }),
            None => None,
        }
    }

    /// Writes `v` through handle `h`: only the scope instance it was made for
    /// is written, as `write` says; otherwise nothing changes.
    pub fn write_handle(&mut self, h: Handle, v: u64)
        requires
            old(self).wf(),
        ensures
            final(self).wf(),
            handle_written(*old(self), *final(self), h, v),
    {
        match self.position(h.scope) {
            Some(i) => {
                if self.scopes[i].generation == h.generation {
                    self.write(h.scope, h.key, v);
                } else {
                    assert forall|k: int|
                        0 <= k < self.scopes@.len() && #[trigger] self.scopes@[k].id == h.scope
                            implies self.scopes@[k].generation != h.generation by {
                        if k != i {
                            if k < i {
                                assert(self.scopes@[k].id != self.scopes@[i as int].id);
                            } else {
                                assert(self.scopes@[i as int].id != self.scopes@[k].id);
                            }
                        }
                    }
                }
            },
            None => {},
        }
    }
}

/// A handle made for a scope never writes into a scope created after it was
/// made: such a scope has a larger generation than any scope that then lived.
pub proof fn lemma_stale_handle(s: Scopes, t: Scopes, h: Handle)
    requires
        s.wf(),
        is_current(s.scopes_view(), h.scope, h.generation),
        forall|i: int|
            0 <= i < t.scopes_view().len() && #[trigger] t.scopes_view()[i].id == h.scope
                ==> t.scopes_view()[i].generation >= s.created_view(),
    ensures
        !is_current(t.scopes_view(), h.scope, h.generation),
{
}

} // verus!
