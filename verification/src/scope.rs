//! A tree of lexical scopes: per-scope definitions with overload
//! accumulation, always-accumulating imported definitions, and a set of
//! imported scopes keyed by scope identity.

use vstd::prelude::*;

use crate::context::Context;
use crate::context::DiagV;
use crate::context::Diagnostic;
use crate::context::lemma_wf_unchanged;
use crate::context::Name;
use crate::context::NodeId;
use crate::context::Span;

verus! {

/// A stable opaque handle identifying one scope. Scope equality and hashing
/// go by this handle, never by table contents, so distinct scopes with
/// identical symbol sets stay distinguishable.
#[derive(Debug, Clone, Copy, PartialEq, Eq, PartialOrd, Ord, Hash, Structural)]
pub struct ScopeId(pub u64);

/// Hands out fresh scope identities.
#[derive(Debug, Clone)]
pub struct ScopeIdGen {
    pub next: u64,
}

impl ScopeIdGen {
    /// A generator whose first handle is `ScopeId(0)`.
    pub fn new() -> (g: ScopeIdGen)
        ensures
            g.next == 0,
    {
        ScopeIdGen { next: 0 }
    }

    /// A handle never handed out before by this generator.
    pub fn fresh(&mut self) -> (id: ScopeId)
        requires
            old(self).next < u64::MAX,
        ensures
            id.0 == old(self).next,
            final(self).next == old(self).next + 1,
    {
        let id = ScopeId(self.next);
        self.next = self.next + 1;
        id
    }
}

/// A definition: what a symbol denotes.
#[derive(Debug, Clone, Copy, PartialEq, Eq, Hash, Structural)]
pub enum Def2 {
    /// A package.
    Pkg(NodeId),
    /// A type declaration.
    Type(NodeId),
    /// An enumeration type variant.
    Enum(NodeId),
}

impl Def2 {
    /// Whether several same-named definitions of this kind may coexist.
    /// Enumeration variants overload; every other kind is unique.
    pub open spec fn spec_overloadable(&self) -> bool {
        self is Enum
    }

    /// Executable form of [`Def2::spec_overloadable`].
    pub fn overloadable(&self) -> (r: bool)
        ensures
            r == self.spec_overloadable(),
    {
        match self {
            Def2::Enum(_) => true,
            _ => false,
        }
    }
}

/// A definition together with the span of the name that bound it.
#[derive(Debug, Clone, Copy, PartialEq, Eq, Hash, Structural)]
pub struct SpannedDef {
    pub def: Def2,
    pub span: Span,
}

/// A name together with its source span.
#[derive(Debug, Clone, Copy, PartialEq, Eq, Hash, Structural)]
pub struct SpannedName {
    pub name: Name,
    pub span: Span,
}

/// The entries bound to `name` in a definition table, in insertion order.
pub open spec fn entries_in(t: Seq<(Name, SpannedDef)>, name: Name) -> Seq<SpannedDef>
    decreases t.len(),
{
    if t.len() == 0 {
        Seq::empty()
    } else {
        let rest = entries_in(t.drop_last(), name);
        if t.last().0 == name {
            rest.push(t.last().1)
        } else {
            rest
        }
    }
}

/// Appending one binding extends exactly that name's entry list.
pub proof fn lemma_entries_in_push(t: Seq<(Name, SpannedDef)>, name: Name, e: SpannedDef)
    ensures
        entries_in(t.push((name, e)), name) == entries_in(t, name).push(e),
        forall|n: Name| n != name ==> entries_in(t.push((name, e)), n) == entries_in(t, n),
{
    assert(t.push((name, e)).drop_last() =~= t);
}

/// Appending a binding that is overloadable, or whose name was unbound,
/// keeps the own-table invariant.
proof fn lemma_own_table_wf_push(pre: ScopeData, post: ScopeData, name: Name, e: SpannedDef)
    requires
        pre.own_table_wf(),
        post.defs@ == pre.defs@.push((name, e)),
        e.def.spec_overloadable() || entries_in(pre.defs@, name).len() == 0,
    ensures
        post.own_table_wf(),
{
    lemma_entries_in_push(pre.defs@, name, e);
    assert forall|n: Name, i: int| 0 < i < post.own_entries(n).len() implies (#[trigger] post
        .own_entries(n)[i]).def.spec_overloadable() by {
        if n == name {
            assert(post.own_entries(n) == pre.own_entries(n).push(e));
            if i < pre.own_entries(n).len() {
                assert(post.own_entries(n)[i] == pre.own_entries(n)[i]);
                assert(pre.own_entries(n)[i].def.spec_overloadable());
            } else {
                assert(post.own_entries(n)[i] == e);
                if !e.def.spec_overloadable() {
                    assert(pre.own_entries(n).len() == 0);
                    assert(false);
                }
            }
        } else {
            assert(post.own_entries(n) == pre.own_entries(n));
            assert(pre.own_entries(n)[i].def.spec_overloadable());
        }
    }
}

/// A scope whose own table is untouched keeps the own-table invariant.
proof fn lemma_own_table_wf_unchanged(pre: ScopeData, post: ScopeData)
    requires
        pre.own_table_wf(),
        post.defs == pre.defs,
    ensures
        post.own_table_wf(),
{
    assert forall|n: Name, i: int| 0 < i < post.own_entries(n).len() implies (#[trigger] post
        .own_entries(n)[i]).def.spec_overloadable() by {
        assert(post.own_entries(n) == pre.own_entries(n));
        assert(pre.own_entries(n)[i].def.spec_overloadable());
    }
}

/// A scope: a node in the scope tree. The parent link is fixed at creation;
/// the tables are populated incrementally through [`ScopeData::define`],
/// [`ScopeData::import_def`] and [`ScopeData::import_scope`].
#[derive(Debug, Clone)]
pub struct ScopeData {
    /// This scope's identity.
    pub id: ScopeId,
    /// The parent scope; `None` for the root.
    pub parent: Option<ScopeId>,
    /// The definitions made in this scope, in declaration order.
    pub defs: Vec<(Name, SpannedDef)>,
    /// The definitions imported from other scopes, in import order.
    pub imported_defs: Vec<(Name, SpannedDef)>,
    /// The explicitly imported scopes, by identity, without duplicates.
    pub imported_scopes: Vec<ScopeId>,
}

impl ScopeData {
    /// The entries this scope itself binds to `name`, in declaration order.
    pub open spec fn own_entries(&self, name: Name) -> Seq<SpannedDef> {
        entries_in(self.defs@, name)
    }

    /// The entries imported under `name`, in import order.
    pub open spec fn imported_entries(&self, name: Name) -> Seq<SpannedDef> {
        entries_in(self.imported_defs@, name)
    }

    /// The imported scopes, as a set of identities.
    pub open spec fn imported_scope_set(&self) -> Set<ScopeId> {
        self.imported_scopes@.to_set()
    }

    /// The imported-scope list holds each identity at most once, so its
    /// length is the size of the imported-scope set.
    pub open spec fn scopes_unique(&self) -> bool {
        self.imported_scopes@.no_duplicates()
    }

    /// The own table never holds more than one entry for a unique-kind
    /// name: past the first entry of a name, only overloadable definitions
    /// accumulate.
    pub open spec fn own_table_wf(&self) -> bool {
        forall|n: Name, i: int|
            0 < i < self.own_entries(n).len() ==> (#[trigger] self.own_entries(
                n,
            )[i]).def.spec_overloadable()
    }

    /// Create a new root scope with empty tables.
    pub fn root(id: ScopeId) -> (s: ScopeData)
        ensures
            s.id == id,
            s.parent is None,
            s.defs@ == Seq::<(Name, SpannedDef)>::empty(),
            s.imported_defs@ == Seq::<(Name, SpannedDef)>::empty(),
            s.imported_scopes@ == Seq::<ScopeId>::empty(),
            s.scopes_unique(),
            s.own_table_wf(),
    {
        ScopeData {
            id,
            parent: None,
            defs: Vec::new(),
            imported_defs: Vec::new(),
            imported_scopes: Vec::new(),
        }
    }

    /// Create a new scope with empty tables below `parent`.
    pub fn new(id: ScopeId, parent: ScopeId) -> (s: ScopeData)
        ensures
            s.id == id,
            s.parent == Some(parent),
            s.defs@ == Seq::<(Name, SpannedDef)>::empty(),
            s.imported_defs@ == Seq::<(Name, SpannedDef)>::empty(),
            s.imported_scopes@ == Seq::<ScopeId>::empty(),
            s.scopes_unique(),
            s.own_table_wf(),
    {
        ScopeData {
            id,
            parent: Some(parent),
            defs: Vec::new(),
            imported_defs: Vec::new(),
            imported_scopes: Vec::new(),
        }
    }

    /// The last definition this scope itself already binds to `name`.
    fn find_last_own(&self, name: Name) -> (r: Option<SpannedDef>)
        ensures
            r is Some ==> self.own_entries(name).len() > 0 && r == Some(
                self.own_entries(name).last(),
            ),
            r is None ==> self.own_entries(name).len() == 0,
    {
        let ghost t = self.defs@;
        let mut found: Option<SpannedDef> = None;
        proof {
            assert(t.take(0) =~= Seq::<(Name, SpannedDef)>::empty());
        }
        let mut i: usize = 0;
        while i < self.defs.len()
            invariant
                i <= self.defs.len(),
                t == self.defs@,
                found is Some ==> entries_in(t.take(i as int), name).len() > 0 && found == Some(
                    entries_in(t.take(i as int), name).last(),
                ),
                found is None ==> entries_in(t.take(i as int), name).len() == 0,
            decreases self.defs.len() - i,
        {
            let e = self.defs[i];
            proof {
                assert(t.take(i as int + 1).drop_last() =~= t.take(i as int));
                assert(t.take(i as int + 1).last() == t[i as int]);
            }
            if e.0 == name {
                found = Some(e.1);
            }
            i += 1;
        }
        proof {
            assert(t.take(t.len() as int) =~= t);
        }
        found
    }

    /// Define a new name in the scope.
    ///
    /// An overloadable definition always appends to the name's entry list.
    /// A unique definition succeeds only where the name is still unbound in
    /// this scope; otherwise an error naming both spans is emitted and the
    /// table is left unchanged. At elevated verbosity an informational note
    /// describing the new binding is emitted first.
    pub fn define(&mut self, name: SpannedName, def: Def2, ctx: &mut Context) -> (r: Result<
        (),
        (),
    >)
        ensures
            final(self).id == old(self).id,
            final(self).parent == old(self).parent,
            final(self).imported_defs == old(self).imported_defs,
            final(self).imported_scopes == old(self).imported_scopes,
            final(ctx).modules == old(ctx).modules,
            final(ctx).params == old(ctx).params,
            final(ctx).envs == old(ctx).envs,
            final(ctx).verbose_names == old(ctx).verbose_names,
            old(ctx).wf() ==> final(ctx).wf(),
            old(self).own_table_wf() ==> final(self).own_table_wf(),
            r is Ok <==> def.spec_overloadable() || old(self).own_entries(name.name).len() == 0,
            r is Ok ==> final(self).defs@ == old(self).defs@.push(
                (name.name, SpannedDef { def, span: name.span }),
            ) && final(self).own_entries(name.name) == old(self).own_entries(name.name).push(
                SpannedDef { def, span: name.span },
            ) && (forall|n: Name|
                n != name.name ==> final(self).own_entries(n) == old(self).own_entries(n))
                && final(ctx).diag_views() == old(ctx).diag_views() + note_seq(
                old(ctx).verbose_names,
                name,
                def,
            ),
            r is Err ==> final(self).defs == old(self).defs && final(ctx).diag_views() == old(
                ctx,
            ).diag_views() + note_seq(old(ctx).verbose_names, name, def) + seq![
                (DiagV::AlreadyDeclared {
                    name: name.name,
                    span: name.span,
                    prev_span: old(self).own_entries(name.name).last().span,
                }),
            ],
    {
        let ghost d0 = ctx.diag_views();
        if ctx.has_name_verbosity() {
            ctx.emit(Diagnostic::DefineNote { name: name.name, span: name.span, def });
        }
        proof {
            assert(ctx.diag_views() =~= d0 + note_seq(old(ctx).verbose_names, name, def));
            if old(ctx).wf() {
                lemma_wf_unchanged(*old(ctx), *ctx);
            }
        }
        let entry = SpannedDef { def, span: name.span };
        if def.overloadable() {
            proof {
                lemma_entries_in_push(self.defs@, name.name, entry);
            }
            self.defs.push((name.name, entry));
            proof {
                if old(self).own_table_wf() {
                    lemma_own_table_wf_push(*old(self), *self, name.name, entry);
                }
            }
            Ok(())
        } else {
            let prev = self.find_last_own(name.name);
            match prev {
                None => {
                    proof {
                        lemma_entries_in_push(self.defs@, name.name, entry);
                    }
                    self.defs.push((name.name, entry));
                    proof {
                        if old(self).own_table_wf() {
                            lemma_own_table_wf_push(*old(self), *self, name.name, entry);
                        }
                    }
                    Ok(())
                },
                Some(e) => {
                    ctx.emit(
                        Diagnostic::AlreadyDeclared {
                            name: name.name,
                            span: name.span,
                            prev_span: e.span,
                        },
                    );
                    proof {
                        assert(ctx.diag_views() =~= d0 + note_seq(
                            old(ctx).verbose_names,
                            name,
                            def,
                        ) + seq![
                            (DiagV::AlreadyDeclared {
                                name: name.name,
                                span: name.span,
                                prev_span: old(self).own_entries(name.name).last().span,
                            }),
                        ]);
                        if old(ctx).wf() {
                            lemma_wf_unchanged(*old(ctx), *ctx);
                        }
                        if old(self).own_table_wf() {
                            lemma_own_table_wf_unchanged(*old(self), *self);
                        }
                    }
                    Err(())
                },
            }
        }
    }

    /// Import a definition into the scope: appends to the imported-table
    /// entry for the name and always succeeds, whatever is already there.
    pub fn import_def(&mut self, name: SpannedName, def: Def2) -> (r: Result<(), ()>)
        ensures
            r is Ok,
            final(self).id == old(self).id,
            final(self).parent == old(self).parent,
            final(self).defs == old(self).defs,
            final(self).imported_scopes == old(self).imported_scopes,
            final(self).imported_defs@ == old(self).imported_defs@.push(
                (name.name, SpannedDef { def, span: name.span }),
            ),
            final(self).imported_entries(name.name) == old(self).imported_entries(name.name).push(
                SpannedDef { def, span: name.span },
            ),
            forall|n: Name|
                n != name.name ==> final(self).imported_entries(n) == old(self).imported_entries(
                    n,
                ),
    {
        let entry = SpannedDef { def, span: name.span };
        proof {
            lemma_entries_in_push(self.imported_defs@, name.name, entry);
        }
        self.imported_defs.push((name.name, entry));
        Ok(())
    }

    /// Import an entire scope into the scope, by identity: the imported-scope
    /// set gains the identity, and re-importing an already imported scope
    /// object is a no-op.
    pub fn import_scope(&mut self, scope: ScopeId) -> (r: Result<(), ()>)
        requires
            old(self).scopes_unique(),
        ensures
            r is Ok,
            import_scope_post(*old(self), *final(self), scope),
    {
        let mut i: usize = 0;
        while i < self.imported_scopes.len()
            invariant
                i <= self.imported_scopes.len(),
                *self == *old(self),
                old(self).scopes_unique(),
                forall|q: int| 0 <= q < i ==> self.imported_scopes@[q] != scope,
            decreases self.imported_scopes.len() - i,
        {
            if self.imported_scopes[i] == scope {
                proof {
                    assert(self.imported_scopes@.contains(scope));
                    assert(self.imported_scope_set() =~= old(self).imported_scope_set().insert(
                        scope,
                    ));
                }
                return Ok(());
            }
            i += 1;
        }
        proof {
            if self.imported_scopes@.contains(scope) {
                let q = choose|q: int|
                    0 <= q < self.imported_scopes@.len() && self.imported_scopes@[q] == scope;
                assert(false);
            }
        }
        let ghost pre = self.imported_scopes@;
        self.imported_scopes.push(scope);
        proof {
            assert forall|a: int, b: int|
                0 <= a < b < self.imported_scopes@.len() implies self.imported_scopes@[a] != self
                .imported_scopes@[b] by {
                if b < pre.len() {
                    assert(pre[a] != pre[b]);
                } else {
                    assert(self.imported_scopes@[b] == scope);
                    assert(self.imported_scopes@[a] == pre[a]);
                    assert(!pre.contains(scope));
                }
            }
            assert forall|x: ScopeId|
                self.imported_scopes@.to_set().contains(x) == old(self).imported_scope_set().insert(
                    scope,
                ).contains(x) by {
                if self.imported_scopes@.contains(x) {
                    let q = choose|q: int|
                        0 <= q < self.imported_scopes@.len() && self.imported_scopes@[q] == x;
                    if q < pre.len() {
                        assert(pre[q] == x);
                        assert(pre.contains(x));
                    } else {
                        assert(x == scope);
                    }
                }
                if pre.contains(x) {
                    let q = choose|q: int| 0 <= q < pre.len() && pre[q] == x;
                    assert(self.imported_scopes@[q] == x);
                    assert(self.imported_scopes@.contains(x));
                }
                if x == scope {
                    assert(self.imported_scopes@.last() == scope);
                    assert(self.imported_scopes@.contains(x));
                }
            }
            assert(self.imported_scope_set() =~= old(self).imported_scope_set().insert(scope));
        }
        Ok(())
    }
}

/// The informational note `define` emits at elevated verbosity, and nothing
/// otherwise.
pub open spec fn note_seq(verbose: bool, name: SpannedName, def: Def2) -> Seq<DiagV> {
    if verbose {
        seq![(DiagV::DefineNote { name: name.name, span: name.span, def })]
    } else {
        Seq::empty()
    }
}

/// How `import_scope` relates the new scope state (`post`) to the old
/// (`pre`): the imported-scope set gains exactly `scope`'s identity, the
/// list stays duplicate-free, and everything else is untouched.
pub open spec fn import_scope_post(pre: ScopeData, post: ScopeData, scope: ScopeId) -> bool {
    &&& post.id == pre.id
    &&& post.parent == pre.parent
    &&& post.defs == pre.defs
    &&& post.imported_defs == pre.imported_defs
    &&& post.scopes_unique()
    &&& post.imported_scope_set() == pre.imported_scope_set().insert(scope)
    &&& pre.imported_scopes@.contains(scope) ==> post.imported_scopes == pre.imported_scopes
    &&& !pre.imported_scopes@.contains(scope) ==> post.imported_scopes@
        == pre.imported_scopes@.push(scope)
}

/// Importing the same scope object twice leaves the imported-scope set as
/// after one import: the second import is a no-op, whatever the scope holds.
pub proof fn lemma_import_scope_dedup(s0: ScopeData, s1: ScopeData, s2: ScopeData, a: ScopeId)
    requires
        import_scope_post(s0, s1, a),
        import_scope_post(s1, s2, a),
    ensures
        s2.imported_scopes == s1.imported_scopes,
        s2.imported_scope_set() == s1.imported_scope_set(),
{
    assert(s1.imported_scope_set().contains(a));
    assert(s1.imported_scopes@.contains(a));
    assert(s2.imported_scope_set() =~= s1.imported_scope_set());
}

/// Importing two scope objects with distinct identities keeps both in the
/// set, however alike their contents: identity, not content, keys the
/// imported-scope set.
pub proof fn lemma_import_scope_distinct(
    s0: ScopeData,
    s1: ScopeData,
    s2: ScopeData,
    a: ScopeId,
    b: ScopeId,
)
    requires
        import_scope_post(s0, s1, a),
        import_scope_post(s1, s2, b),
        a != b,
        !s0.imported_scope_set().contains(a),
        !s0.imported_scope_set().contains(b),
    ensures
        s2.imported_scopes@.len() == s0.imported_scopes@.len() + 2,
        s2.imported_scope_set().contains(a),
        s2.imported_scope_set().contains(b),
{
    assert(!s0.imported_scopes@.contains(a));
    assert(!s1.imported_scope_set().contains(b));
    assert(!s1.imported_scopes@.contains(b));
    assert(s1.imported_scopes@ == s0.imported_scopes@.push(a));
    assert(s2.imported_scopes@ == s1.imported_scopes@.push(b));
}

} // verus!
