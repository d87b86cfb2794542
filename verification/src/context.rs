//! The compilation context: the node store consulted during elaboration,
//! the diagnostic sink, and the intern table for parameter environments.

use vstd::prelude::*;

use crate::param_env::ParamEnv;
use crate::param_env::ParamEnvData;
use crate::param_env::ParamEnvDataV;
use crate::scope::Def2;

verus! {

/// An opaque key referencing a syntax/HIR node owned by the context.
#[derive(Debug, Clone, Copy, PartialEq, Eq, PartialOrd, Ord, Hash, Structural)]
pub struct NodeId(pub u32);

/// An interned identifier; equality is by key.
#[derive(Debug, Clone, Copy, PartialEq, Eq, PartialOrd, Ord, Hash, Structural)]
pub struct Name(pub u32);

/// A source location attached to arguments, declarations and diagnostics.
#[derive(Debug, Clone, Copy, PartialEq, Eq, Hash, Structural)]
pub struct Span {
    pub lo: u32,
    pub hi: u32,
}

/// Whether a module parameter is a type parameter or a value parameter.
#[derive(Debug, Clone, Copy, PartialEq, Eq, Hash, Structural)]
pub enum ParamKind {
    Type,
    Value,
}

/// What the context knows about one declared module parameter.
#[derive(Debug, Clone, Copy, PartialEq, Eq, Hash, Structural)]
pub struct ParamDecl {
    pub name: Name,
    pub kind: ParamKind,
}

/// A structured compiler message, attributed to source spans.
#[derive(Debug, Clone, PartialEq, Eq)]
pub enum Diagnostic {
    /// Error: a positional argument falls outside the module's parameter list.
    ExcessPositional { span: Span, param_count: usize },
    /// Error: a named argument names no declared parameter; carries the list
    /// of declared parameter names as a note.
    UnknownNamed { span: Span, name: Name, declared: Vec<Name> },
    /// Error: a unique definition clashes with an earlier one of the same name.
    AlreadyDeclared { name: Name, span: Span, prev_span: Span },
    /// Informational note, emitted only at elevated verbosity, describing a
    /// new binding made in a scope.
    DefineNote { name: Name, span: Span, def: Def2 },
}

/// The mathematical content of a `Diagnostic`.
#[verifier::ext_equal]
pub enum DiagV {
    ExcessPositional { span: Span, param_count: int },
    UnknownNamed { span: Span, name: Name, declared: Seq<Name> },
    AlreadyDeclared { name: Name, span: Span, prev_span: Span },
    DefineNote { name: Name, span: Span, def: Def2 },
}

impl View for Diagnostic {
    type V = DiagV;

    open spec fn view(&self) -> DiagV {
        match self {
            Diagnostic::ExcessPositional { span, param_count } => DiagV::ExcessPositional {
                span: *span,
                param_count: *param_count as int,
            },
            Diagnostic::UnknownNamed { span, name, declared } => DiagV::UnknownNamed {
                span: *span,
                name: *name,
                declared: declared@,
            },
            Diagnostic::AlreadyDeclared { name, span, prev_span } => DiagV::AlreadyDeclared {
                name: *name,
                span: *span,
                prev_span: *prev_span,
            },
            Diagnostic::DefineNote { name, span, def } => DiagV::DefineNote {
                name: *name,
                span: *span,
                def: *def,
            },
        }
    }
}

/// First entry for `id` in the module table: the module's declared parameter
/// ids, in declaration order.
pub open spec fn assoc_module(t: Seq<(NodeId, Vec<NodeId>)>, id: NodeId) -> Option<Seq<NodeId>>
    decreases t.len(),
{
    if t.len() == 0 {
        None
    } else if t[0].0 == id {
        Some(t[0].1@)
    } else {
        assoc_module(t.drop_first(), id)
    }
}

/// First entry for `id` in the parameter table.
pub open spec fn assoc_param(t: Seq<(NodeId, ParamDecl)>, id: NodeId) -> Option<ParamDecl>
    decreases t.len(),
{
    if t.len() == 0 {
        None
    } else if t[0].0 == id {
        Some(t[0].1)
    } else {
        assoc_param(t.drop_first(), id)
    }
}

/// Appending an entry leaves every already-resolving id unchanged and makes
/// the new id resolve if it did not before.
pub proof fn lemma_assoc_module_push(t: Seq<(NodeId, Vec<NodeId>)>, p: (NodeId, Vec<NodeId>), id: NodeId)
    ensures
        assoc_module(t, id) is Some ==> assoc_module(t.push(p), id) == assoc_module(t, id),
        assoc_module(t, id) is None && p.0 == id ==> assoc_module(t.push(p), id) == Some(p.1@),
        assoc_module(t, id) is None && p.0 != id ==> assoc_module(t.push(p), id) is None,
    decreases t.len(),
{
    if t.len() == 0 {
        assert(t.push(p)[0] == p);
        assert(t.push(p).drop_first() =~= Seq::<(NodeId, Vec<NodeId>)>::empty());
        if p.0 == id {
            assert(assoc_module(t.push(p), id) == Some(t.push(p)[0].1@));
            assert(t.push(p)[0].1 == p.1);
        } else {
            assert(assoc_module(t.push(p).drop_first(), id) is None);
        }
    } else {
        assert(t.push(p)[0] == t[0]);
        assert(t.push(p).drop_first() =~= t.drop_first().push(p));
        lemma_assoc_module_push(t.drop_first(), p, id);
        if t[0].0 == id {
            assert(assoc_module(t.push(p), id) == Some(t.push(p)[0].1@));
            assert(t.push(p)[0].1 == t[0].1);
            assert(assoc_module(t, id) == Some(t[0].1@));
        } else {
            assert(assoc_module(t.push(p).drop_first(), id) == assoc_module(
                t.drop_first().push(p),
                id,
            ));
        }
    }
}

/// Appending an entry leaves every already-resolving id unchanged and makes
/// the new id resolve if it did not before.
pub proof fn lemma_assoc_param_push(t: Seq<(NodeId, ParamDecl)>, p: (NodeId, ParamDecl), id: NodeId)
    ensures
        assoc_param(t, id) is Some ==> assoc_param(t.push(p), id) == assoc_param(t, id),
        assoc_param(t, id) is None && p.0 == id ==> assoc_param(t.push(p), id) == Some(p.1),
        assoc_param(t, id) is None && p.0 != id ==> assoc_param(t.push(p), id) is None,
    decreases t.len(),
{
    if t.len() == 0 {
        assert(t.push(p)[0] == p);
        assert(t.push(p).drop_first() =~= Seq::<(NodeId, ParamDecl)>::empty());
        if p.0 != id {
            assert(assoc_param(t.push(p).drop_first(), id) is None);
        }
    } else {
        assert(t.push(p)[0] == t[0]);
        assert(t.push(p).drop_first() =~= t.drop_first().push(p));
        lemma_assoc_param_push(t.drop_first(), p, id);
        if t[0].0 != id {
            assert(assoc_param(t.push(p).drop_first(), id) == assoc_param(
                t.drop_first().push(p),
                id,
            ));
        }
    }
}

/// Two contexts with the same intern table have the same canonicalization
/// invariant.
pub proof fn lemma_envs_unique_unchanged(a: Context, b: Context)
    requires
        a.envs_unique(),
        b.envs == a.envs,
    ensures
        b.envs_unique(),
        b.env_views() == a.env_views(),
{
    assert(b.env_views() =~= a.env_views());
    assert forall|i: int, j: int| 0 <= i < j < b.env_views().len() implies b.env_views()[i] != b
        .env_views()[j] by {
        assert(a.env_views()[i] != a.env_views()[j]);
    }
}

/// Two contexts with the same node store resolve modules and parameters
/// alike.
pub proof fn lemma_modules_wf_unchanged(a: Context, b: Context)
    requires
        a.modules_wf(),
        b.modules == a.modules,
        b.params == a.params,
    ensures
        b.modules_wf(),
{
    assert forall|id: NodeId| (#[trigger] b.module_params(id)) is Some implies b.params_resolved(
        b.module_params(id).unwrap(),
    ) by {
        assert(b.module_params(id) == a.module_params(id));
        let l = b.module_params(id).unwrap();
        assert(a.params_resolved(l));
        assert forall|k: int| 0 <= k < l.len() implies (#[trigger] b.param_info(l[k])) is Some by {
            assert(b.param_info(l[k]) == a.param_info(l[k]));
            assert(a.param_info(l[k]) is Some);
        }
    }
}

/// Two contexts with the same node store and intern table agree on the
/// invariant and on everything elaboration reads.
pub proof fn lemma_wf_unchanged(a: Context, b: Context)
    requires
        a.wf(),
        b.modules == a.modules,
        b.params == a.params,
        b.envs == a.envs,
    ensures
        b.wf(),
        b.env_views() == a.env_views(),
{
    lemma_envs_unique_unchanged(a, b);
    lemma_modules_wf_unchanged(a, b);
}

/// The process-wide store that elaboration consults: which nodes are modules
/// and parameters, the diagnostics emitted so far, the interned parameter
/// environments, and the verbosity flag gating informational notes.
#[derive(Debug)]
pub struct Context {
    /// Module declarations: node id, and the declared parameter ids in order.
    pub modules: Vec<(NodeId, Vec<NodeId>)>,
    /// Parameter declarations: node id, name and kind.
    pub params: Vec<(NodeId, ParamDecl)>,
    /// Every diagnostic emitted so far, in emission order.
    pub diags: Vec<Diagnostic>,
    /// The intern table of canonical parameter-environment contents.
    pub envs: Vec<ParamEnvData>,
    /// Whether informational notes about new bindings are emitted.
    pub verbose_names: bool,
}

impl Context {
    /// The parameter ids a module declares, if `id` denotes a module.
    pub open spec fn module_params(&self, id: NodeId) -> Option<Seq<NodeId>> {
        assoc_module(self.modules@, id)
    }

    /// The declaration behind a parameter id, if `id` denotes a parameter.
    pub open spec fn param_info(&self, id: NodeId) -> Option<ParamDecl> {
        assoc_param(self.params@, id)
    }

    /// The emitted diagnostics, as mathematical values.
    pub open spec fn diag_views(&self) -> Seq<DiagV> {
        self.diags@.map_values(|d: Diagnostic| d@)
    }

    /// The intern table, as mathematical values.
    pub open spec fn env_views(&self) -> Seq<ParamEnvDataV> {
        self.envs@.map_values(|d: ParamEnvData| d@)
    }

    /// Every id in `params` denotes a parameter.
    pub open spec fn params_resolved(&self, params: Seq<NodeId>) -> bool {
        forall|k: int|
            0 <= k < params.len() ==> (#[trigger] self.param_info(params[k])) is Some
    }

    /// Every module's declared parameter list resolves to parameter
    /// declarations.
    pub open spec fn modules_wf(&self) -> bool {
        forall|id: NodeId|
            (#[trigger] self.module_params(id)) is Some ==> self.params_resolved(
                self.module_params(id).unwrap(),
            )
    }

    /// No two handles share structurally equal content: the canonicalization
    /// invariant of the intern table.
    pub open spec fn envs_unique(&self) -> bool {
        forall|i: int, j: int|
            0 <= i < j < self.env_views().len() ==> self.env_views()[i] != self.env_views()[j]
    }

    /// The context invariant assumed by elaboration.
    pub open spec fn wf(&self) -> bool {
        &&& self.modules_wf()
        &&& self.envs_unique()
    }

    /// A context with an empty node store, no diagnostics, an empty intern
    /// table and informational notes switched off.
    pub fn new() -> (cx: Context)
        ensures
            cx.wf(),
            cx.modules@ == Seq::<(NodeId, Vec<NodeId>)>::empty(),
            cx.params@ == Seq::<(NodeId, ParamDecl)>::empty(),
            cx.diags@ == Seq::<Diagnostic>::empty(),
            cx.envs@ == Seq::<ParamEnvData>::empty(),
            !cx.verbose_names,
    {
        Context {
            modules: Vec::new(),
            params: Vec::new(),
            diags: Vec::new(),
            envs: Vec::new(),
            verbose_names: false,
        }
    }

    /// Record a parameter declaration under a fresh node id.
    pub fn add_param(&mut self, id: NodeId, name: Name, kind: ParamKind)
        requires
            old(self).wf(),
            old(self).param_info(id) is None,
        ensures
            final(self).wf(),
            final(self).param_info(id) == Some(ParamDecl { name, kind }),
            forall|other: NodeId|
                other != id ==> final(self).param_info(other) == old(self).param_info(other),
            final(self).modules == old(self).modules,
            final(self).diags == old(self).diags,
            final(self).envs == old(self).envs,
            final(self).verbose_names == old(self).verbose_names,
    {
        let ghost t = self.params@;
        let decl = ParamDecl { name, kind };
        self.params.push((id, decl));
        proof {
            lemma_envs_unique_unchanged(*old(self), *self);
            assert(self.params@ =~= t.push((id, decl)));
            lemma_assoc_param_push(t, (id, decl), id);
            assert forall|other: NodeId| other != id implies self.param_info(other) == old(
                self,
            ).param_info(other) by {
                lemma_assoc_param_push(t, (id, decl), other);
            }
            assert forall|mid: NodeId| (#[trigger] self.module_params(mid)) is Some implies self
                .params_resolved(self.module_params(mid).unwrap()) by {
                let ps = self.module_params(mid).unwrap();
                assert(old(self).module_params(mid) == self.module_params(mid));
                assert(old(self).params_resolved(ps));
                assert forall|k: int| 0 <= k < ps.len() implies (#[trigger] self.param_info(
                    ps[k],
                )) is Some by {
                    assert(old(self).param_info(ps[k]) is Some);
                    lemma_assoc_param_push(t, (id, decl), ps[k]);
                }
            }
        }
    }

    /// Record a module declaration under a fresh node id; every declared
    /// parameter id must already resolve.
    pub fn add_module(&mut self, id: NodeId, params: Vec<NodeId>)
        requires
            old(self).wf(),
            old(self).module_params(id) is None,
            old(self).params_resolved(params@),
        ensures
            final(self).wf(),
            final(self).module_params(id) == Some(params@),
            forall|other: NodeId|
                other != id ==> final(self).module_params(other) == old(self).module_params(other),
            final(self).params == old(self).params,
            final(self).diags == old(self).diags,
            final(self).envs == old(self).envs,
            final(self).verbose_names == old(self).verbose_names,
    {
        let ghost t = self.modules@;
        let ghost ps = params@;
        self.modules.push((id, params));
        proof {
            lemma_envs_unique_unchanged(*old(self), *self);
            let p = self.modules@.last();
            assert(self.modules@ == t.push(p));
            assert(p.0 == id && p.1@ == ps);
            lemma_assoc_module_push(t, p, id);
            assert(self.module_params(id) == Some(ps));
            assert forall|other: NodeId| other != id implies self.module_params(other) == old(
                self,
            ).module_params(other) by {
                lemma_assoc_module_push(t, p, other);
            }
            assert forall|mid: NodeId| (#[trigger] self.module_params(mid)) is Some implies self
                .params_resolved(self.module_params(mid).unwrap()) by {
                lemma_assoc_module_push(t, p, mid);
                if old(self).module_params(mid) is Some {
                    let l = old(self).module_params(mid).unwrap();
                    assert(old(self).params_resolved(l));
                    assert(self.module_params(mid).unwrap() == l);
                    assert forall|k: int| 0 <= k < l.len() implies (#[trigger] self.param_info(
                        l[k],
                    )) is Some by {
                        assert(old(self).param_info(l[k]) is Some);
                    }
                } else {
                    assert(mid == id);
                    assert(self.module_params(mid).unwrap() == ps);
                    assert forall|k: int| 0 <= k < ps.len() implies (#[trigger] self.param_info(
                        ps[k],
                    )) is Some by {
                        assert(old(self).param_info(ps[k]) is Some);
                    }
                }
            }
        }
    }

    /// Fetch a parameter's declaration through the node store.
    pub fn param_info_at(&self, id: NodeId) -> (r: ParamDecl)
        requires
            self.param_info(id) is Some,
        ensures
            Some(r) == self.param_info(id),
    {
        proof {
            assert(self.params@.skip(0) =~= self.params@);
        }
        let mut i: usize = 0;
        while i < self.params.len()
            invariant
                i <= self.params.len(),
                self.param_info(id) is Some,
                assoc_param(self.params@, id) == assoc_param(self.params@.skip(i as int), id),
            decreases self.params.len() - i,
        {
            let e = self.params[i];
            if e.0 == id {
                proof {
                    assert(self.params@.skip(i as int)[0] == e);
                }
                return e.1;
            }
            proof {
                assert(self.params@.skip(i as int)[0] == e);
                assert(self.params@.skip(i as int).drop_first() =~= self.params@.skip(i as int + 1));
            }
            i += 1;
        }
        proof {
            assert(self.params@.skip(self.params@.len() as int) =~= Seq::<(
                NodeId,
                ParamDecl,
            )>::empty());
            assert(false);
        }
        ParamDecl { name: Name(0), kind: ParamKind::Value }
    }

    /// Fetch a module's declared parameter list through the node store.
    pub fn module_params_at(&self, id: NodeId) -> (r: Vec<NodeId>)
        requires
            self.module_params(id) is Some,
        ensures
            r@ == self.module_params(id).unwrap(),
    {
        proof {
            assert(self.modules@.skip(0) =~= self.modules@);
        }
        let mut i: usize = 0;
        while i < self.modules.len()
            invariant
                i <= self.modules.len(),
                self.module_params(id) is Some,
                assoc_module(self.modules@, id) == assoc_module(self.modules@.skip(i as int), id),
            decreases self.modules.len() - i,
        {
            let e = &self.modules[i];
            if e.0 == id {
                proof {
                    assert(self.modules@.skip(i as int)[0] == self.modules@[i as int]);
                }
                let mut out: Vec<NodeId> = Vec::new();
                let mut k: usize = 0;
                while k < e.1.len()
                    invariant
                        k <= e.1.len(),
                        out@ == e.1@.take(k as int),
                    decreases e.1.len() - k,
                {
                    out.push(e.1[k]);
                    proof {
                        assert(e.1@.take(k + 1 as int) =~= e.1@.take(k as int).push(e.1@[k as int]));
                    }
                    k += 1;
                }
                proof {
                    assert(e.1@.take(e.1@.len() as int) =~= e.1@);
                }
                return out;
            }
            proof {
                assert(self.modules@.skip(i as int)[0] == self.modules@[i as int]);
                assert(self.modules@.skip(i as int).drop_first() =~= self.modules@.skip(
                    i as int + 1,
                ));
            }
            i += 1;
        }
        proof {
            assert(self.modules@.skip(self.modules@.len() as int) =~= Seq::<(
                NodeId,
                Vec<NodeId>,
            )>::empty());
            assert(false);
        }
        Vec::new()
    }

    /// Resolve a parameter-environment handle to its canonical content:
    /// the type-kind and value-kind binding sequences.
    pub fn param_env_data(&self, env: ParamEnv) -> (r: &ParamEnvData)
        requires
            env.0 < self.envs@.len(),
        ensures
            r@ == self.env_views()[env.0 as int],
    {
        proof {
            assert(self.env_views()[env.0 as int] == self.envs@[env.0 as int]@);
        }
        &self.envs[env.0]
    }

    /// Whether informational notes about new bindings are to be emitted.
    pub fn has_name_verbosity(&self) -> (r: bool)
        ensures
            r == self.verbose_names,
    {
        self.verbose_names
    }

    /// Record a diagnostic; never aborts.
    pub fn emit(&mut self, d: Diagnostic)
        ensures
            final(self).modules == old(self).modules,
            final(self).params == old(self).params,
            final(self).envs == old(self).envs,
            final(self).verbose_names == old(self).verbose_names,
            final(self).diags@ == old(self).diags@.push(d),
            final(self).diag_views() == old(self).diag_views().push(d@),
    {
        self.diags.push(d);
        proof {
            assert(self.diag_views() =~= old(self).diag_views().push(d@));
        }
    }
}

} // verus!
