//! Parameter environments: binding instantiation-site arguments to a
//! module's declared parameters and interning the canonical result.

use vstd::prelude::*;

use crate::context::assoc_param;
use crate::context::Context;
use crate::context::DiagV;
use crate::context::Diagnostic;
use crate::context::lemma_wf_unchanged;
use crate::context::Name;
use crate::context::NodeId;
use crate::context::ParamDecl;
use crate::context::ParamKind;
use crate::context::Span;

verus! {

/// A parameter environment.
///
/// This is merely a handle that is cheap to copy and pass around; the
/// [`Context`] resolves it to the actual [`ParamEnvData`]. Canonicalization
/// guarantees that structurally equal contents share one handle.
#[derive(Debug, Clone, Copy, PartialEq, Eq, PartialOrd, Ord, Hash, Structural)]
#[verifier::ext_equal]
pub struct ParamEnv(pub usize);

/// The canonical content of a parameter environment: the resolved
/// (parameter id, argument id) pairs, split into type-kind and value-kind
/// bindings. Within each sequence the pairs keep the order in which their
/// originating arguments were listed.
#[derive(Debug, Default, Clone, PartialEq, Eq, Hash)]
pub struct ParamEnvData {
    pub types: Vec<(NodeId, NodeId)>,
    pub values: Vec<(NodeId, NodeId)>,
}

/// The mathematical content of a `ParamEnvData`.
#[verifier::ext_equal]
pub struct ParamEnvDataV {
    pub types: Seq<(NodeId, NodeId)>,
    pub values: Seq<(NodeId, NodeId)>,
}

impl View for ParamEnvData {
    type V = ParamEnvDataV;

    open spec fn view(&self) -> ParamEnvDataV {
        ParamEnvDataV { types: self.types@, values: self.values@ }
    }
}

/// A positional argument at an instantiation site.
#[derive(Debug, Clone, Copy, PartialEq, Eq, Hash, Structural)]
pub struct PosArg {
    pub span: Span,
    pub value: NodeId,
}

/// A named argument at an instantiation site; `span` covers the name.
#[derive(Debug, Clone, Copy, PartialEq, Eq, Hash, Structural)]
pub struct NamedArg {
    pub span: Span,
    pub name: Name,
    pub value: NodeId,
}

/// A location that implies a parameter environment.
#[derive(Debug, Clone, PartialEq, Eq)]
pub enum ParamEnvSource {
    ModuleInst { module: NodeId, pos: Vec<PosArg>, named: Vec<NamedArg> },
}

impl ParamEnvSource {
    /// The module being instantiated.
    pub open spec fn module_id(&self) -> NodeId {
        match self {
            ParamEnvSource::ModuleInst { module, .. } => *module,
        }
    }

    /// The positional arguments, in position order.
    pub open spec fn pos_args(&self) -> Seq<PosArg> {
        match self {
            ParamEnvSource::ModuleInst { pos, .. } => pos@,
        }
    }

    /// The named arguments, in the order given.
    pub open spec fn named_args(&self) -> Seq<NamedArg> {
        match self {
            ParamEnvSource::ModuleInst { named, .. } => named@,
        }
    }
}

/// The declaration behind a parameter id; meaningful where the id resolves.
pub open spec fn decl_of(ps: Seq<(NodeId, ParamDecl)>, id: NodeId) -> ParamDecl {
    assoc_param(ps, id).unwrap()
}

/// The first declared parameter whose name is `name`.
pub open spec fn find_named(ps: Seq<(NodeId, ParamDecl)>, params: Seq<NodeId>, name: Name) -> Option<
    NodeId,
>
    decreases params.len(),
{
    if params.len() == 0 {
        None
    } else if decl_of(ps, params[0]).name == name {
        Some(params[0])
    } else {
        find_named(ps, params.drop_first(), name)
    }
}

/// A found parameter is one of the declared parameters.
pub proof fn lemma_find_named_in(ps: Seq<(NodeId, ParamDecl)>, params: Seq<NodeId>, name: Name)
    ensures
        find_named(ps, params, name) matches Some(id) ==> exists|k: int|
            0 <= k < params.len() && params[k] == id,
    decreases params.len(),
{
    if params.len() == 0 {
    } else if decl_of(ps, params[0]).name == name {
        assert(0 <= 0 < params.len() && params[0] == params[0]);
    } else {
        lemma_find_named_in(ps, params.drop_first(), name);
        if find_named(ps, params.drop_first(), name) is Some {
            let id = find_named(ps, params.drop_first(), name).unwrap();
            let k = choose|k: int|
                0 <= k < params.drop_first().len() && params.drop_first()[k] == id;
            assert(0 <= k + 1 < params.len() && params[k + 1] == id);
        }
    }
}

/// The names of the declared parameters, in declaration order.
pub open spec fn declared_names(ps: Seq<(NodeId, ParamDecl)>, params: Seq<NodeId>) -> Seq<Name> {
    Seq::new(params.len(), |k: int| decl_of(ps, params[k]).name)
}

/// The request's module id denotes a module. A request breaking this is a
/// contract violation of an earlier compilation phase, not a user error, so
/// callers owe it.
pub open spec fn src_resolves(cx: Context, src: ParamEnvSource) -> bool {
    cx.module_params(src.module_id()) is Some
}

/// Every positional argument falls within the module's parameter list, and
/// every named argument names a declared parameter.
pub open spec fn all_match(cx: Context, src: ParamEnvSource) -> bool {
    let params = cx.module_params(src.module_id()).unwrap();
    &&& src.pos_args().len() <= params.len()
    &&& forall|j: int|
        0 <= j < src.named_args().len() ==> find_named(
            cx.params@,
            params,
            (#[trigger] src.named_args()[j]).name,
        ) is Some
}

/// The (parameter id, argument id) pair resolved for each positional
/// argument: the parameter at the argument's position.
pub open spec fn pos_pairs(params: Seq<NodeId>, pos: Seq<PosArg>) -> Seq<(NodeId, NodeId)> {
    Seq::new(pos.len(), |i: int| (params[i], pos[i].value))
}

/// The pair resolved for each named argument: the first parameter of that
/// name.
pub open spec fn named_pairs(
    ps: Seq<(NodeId, ParamDecl)>,
    params: Seq<NodeId>,
    named: Seq<NamedArg>,
) -> Seq<(NodeId, NodeId)> {
    Seq::new(
        named.len(),
        |j: int| (find_named(ps, params, named[j].name).unwrap(), named[j].value),
    )
}

/// All resolved pairs: positional arguments in position order, then named
/// arguments in the order given.
pub open spec fn resolved_pairs(cx: Context, src: ParamEnvSource) -> Seq<(NodeId, NodeId)> {
    let params = cx.module_params(src.module_id()).unwrap();
    pos_pairs(params, src.pos_args()) + named_pairs(cx.params@, params, src.named_args())
}

/// The pairs whose parameter is of `kind`, keeping their relative order.
pub open spec fn kind_filter(
    ps: Seq<(NodeId, ParamDecl)>,
    pairs: Seq<(NodeId, NodeId)>,
    kind: ParamKind,
) -> Seq<(NodeId, NodeId)>
    decreases pairs.len(),
{
    if pairs.len() == 0 {
        Seq::empty()
    } else {
        let rest = kind_filter(ps, pairs.drop_last(), kind);
        if decl_of(ps, pairs.last().0).kind == kind {
            rest.push(pairs.last())
        } else {
            rest
        }
    }
}

/// The canonical content a fully matched request resolves to: the pairs,
/// split into type-kind and value-kind bindings, order preserved.
pub open spec fn env_data_of(cx: Context, src: ParamEnvSource) -> ParamEnvDataV {
    let pairs = resolved_pairs(cx, src);
    ParamEnvDataV {
        types: kind_filter(cx.params@, pairs, ParamKind::Type),
        values: kind_filter(cx.params@, pairs, ParamKind::Value),
    }
}

/// The error diagnostics owed to out-of-range positional arguments, in
/// argument order.
pub open spec fn pos_diags(param_count: int, pos: Seq<PosArg>) -> Seq<DiagV>
    decreases pos.len(),
{
    if pos.len() == 0 {
        Seq::empty()
    } else {
        pos_diags(param_count, pos.drop_last()) + (if pos.len() - 1 < param_count {
            Seq::empty()
        } else {
            seq![(DiagV::ExcessPositional { span: pos.last().span, param_count })]
        })
    }
}

/// The error diagnostics owed to unknown named arguments, in argument
/// order; each lists the declared parameter names.
pub open spec fn named_diags(
    ps: Seq<(NodeId, ParamDecl)>,
    params: Seq<NodeId>,
    named: Seq<NamedArg>,
) -> Seq<DiagV>
    decreases named.len(),
{
    if named.len() == 0 {
        Seq::empty()
    } else {
        named_diags(ps, params, named.drop_last()) + (if find_named(
            ps,
            params,
            named.last().name,
        ) is Some {
            Seq::empty()
        } else {
            seq![
                (DiagV::UnknownNamed {
                    span: named.last().span,
                    name: named.last().name,
                    declared: declared_names(ps, params),
                }),
            ]
        })
    }
}

/// Every diagnostic one `compute` call emits, in emission order: one per
/// unmatched argument, positional arguments first.
pub open spec fn compute_diags(cx: Context, src: ParamEnvSource) -> Seq<DiagV> {
    let params = cx.module_params(src.module_id()).unwrap();
    pos_diags(params.len() as int, src.pos_args()) + named_diags(
        cx.params@,
        params,
        src.named_args(),
    )
}

/// How a successful `compute` call relates the context after (`cx1`) to the
/// context before (`cx0`): the node store is untouched, the resolved content
/// is interned, and the returned handle is its canonical index.
pub open spec fn compute_ok_post(
    cx0: Context,
    cx1: Context,
    src: ParamEnvSource,
    env: ParamEnv,
) -> bool {
    &&& cx1.modules == cx0.modules
    &&& cx1.params == cx0.params
    &&& cx1.verbose_names == cx0.verbose_names
    &&& cx1.env_views() == intern_insert(cx0.env_views(), env_data_of(cx0, src))
    &&& env.0 == intern_index(cx0.env_views(), env_data_of(cx0, src))
}

/// The first index holding `d`, or `t.len()` if `d` is absent.
pub open spec fn intern_index(t: Seq<ParamEnvDataV>, d: ParamEnvDataV) -> int
    decreases t.len(),
{
    if t.len() == 0 {
        0
    } else if t[0] == d {
        0
    } else {
        1 + intern_index(t.drop_first(), d)
    }
}

/// The intern table after interning `d`: unchanged if `d` is present,
/// extended by `d` otherwise.
pub open spec fn intern_insert(t: Seq<ParamEnvDataV>, d: ParamEnvDataV) -> Seq<ParamEnvDataV> {
    if intern_index(t, d) < t.len() {
        t
    } else {
        t.push(d)
    }
}

/// `intern_index` points at the first occurrence of `d`, or past the end.
pub proof fn lemma_intern_index(t: Seq<ParamEnvDataV>, d: ParamEnvDataV)
    ensures
        0 <= intern_index(t, d) <= t.len(),
        intern_index(t, d) < t.len() ==> t[intern_index(t, d)] == d,
        forall|j: int| 0 <= j < intern_index(t, d) ==> t[j] != d,
    decreases t.len(),
{
    if t.len() == 0 {
    } else if t[0] == d {
    } else {
        lemma_intern_index(t.drop_first(), d);
        assert forall|j: int| 0 <= j < intern_index(t, d) implies t[j] != d by {
            if j > 0 {
                assert(t.drop_first()[j - 1] == t[j]);
            }
        }
    }
}

/// `intern_index` is determined by any position that is the first match.
pub proof fn lemma_intern_index_at(t: Seq<ParamEnvDataV>, d: ParamEnvDataV, i: int)
    requires
        0 <= i <= t.len(),
        forall|j: int| 0 <= j < i ==> t[j] != d,
        i < t.len() ==> t[i] == d,
    ensures
        intern_index(t, d) == i,
    decreases t.len(),
{
    if i == 0 {
    } else {
        assert(t[0] != d);
        assert forall|j: int| 0 <= j < i - 1 implies t.drop_first()[j] != d by {
            assert(t.drop_first()[j] == t[j + 1]);
        }
        assert(i - 1 < t.drop_first().len() ==> t.drop_first()[i - 1] == t[i]);
        lemma_intern_index_at(t.drop_first(), d, i - 1);
    }
}

/// Canonicalization: in a well-formed context, two handles resolving to
/// structurally equal contents are one handle.
pub proof fn lemma_handle_equality(cx: Context, e1: ParamEnv, e2: ParamEnv)
    requires
        cx.wf(),
        e1.0 < cx.env_views().len(),
        e2.0 < cx.env_views().len(),
        cx.env_views()[e1.0 as int] == cx.env_views()[e2.0 as int],
    ensures
        e1 == e2,
{
    if e1.0 < e2.0 {
        assert(cx.env_views()[e1.0 as int] != cx.env_views()[e2.0 as int]);
    }
    if e2.0 < e1.0 {
        assert(cx.env_views()[e2.0 as int] != cx.env_views()[e1.0 as int]);
    }
    assert(e1 =~= e2);
}

/// Interning into a table that already canonicalizes `d` is stable: the
/// handle stays put and the table stops growing.
pub proof fn lemma_intern_stable(t: Seq<ParamEnvDataV>, d: ParamEnvDataV)
    ensures
        intern_index(intern_insert(t, d), d) == intern_index(t, d),
        intern_insert(intern_insert(t, d), d) == intern_insert(t, d),
{
    lemma_intern_index(t, d);
    if intern_index(t, d) >= t.len() {
        lemma_intern_index_at(t.push(d), d, t.len() as int);
    }
}

/// The content a request resolves to, and whether it fully matches, depend
/// only on the node store, not on diagnostics or the intern table.
pub proof fn lemma_env_data_store_only(a: Context, b: Context, src: ParamEnvSource)
    requires
        b.modules == a.modules,
        b.params == a.params,
    ensures
        env_data_of(b, src) == env_data_of(a, src),
        all_match(b, src) == all_match(a, src),
        src_resolves(b, src) == src_resolves(a, src),
{
    assert(b.module_params(src.module_id()) == a.module_params(src.module_id()));
    assert(b.params@ == a.params@);
    assert(resolved_pairs(b, src) == resolved_pairs(a, src));
    assert(env_data_of(b, src) == env_data_of(a, src));
    if all_match(a, src) {
        assert forall|j: int| 0 <= j < src.named_args().len() implies find_named(
            b.params@,
            b.module_params(src.module_id()).unwrap(),
            (#[trigger] src.named_args()[j]).name,
        ) is Some by {
            assert(find_named(
                a.params@,
                a.module_params(src.module_id()).unwrap(),
                src.named_args()[j].name,
            ) is Some);
        }
    }
    if all_match(b, src) {
        assert forall|j: int| 0 <= j < src.named_args().len() implies find_named(
            a.params@,
            a.module_params(src.module_id()).unwrap(),
            (#[trigger] src.named_args()[j]).name,
        ) is Some by {
            assert(find_named(
                b.params@,
                b.module_params(src.module_id()).unwrap(),
                src.named_args()[j].name,
            ) is Some);
        }
    }
}

/// Interning idempotence: two successive `compute` calls with the same
/// module and identical positional and named argument lists return the same
/// handle both times.
pub proof fn lemma_interning_idempotent(
    cx0: Context,
    cx1: Context,
    cx2: Context,
    src: ParamEnvSource,
    e1: ParamEnv,
    e2: ParamEnv,
)
    requires
        cx0.wf(),
        compute_ok_post(cx0, cx1, src, e1),
        compute_ok_post(cx1, cx2, src, e2),
    ensures
        e1 == e2,
{
    lemma_env_data_store_only(cx0, cx1, src);
    let d = env_data_of(cx0, src);
    lemma_intern_stable(cx0.env_views(), d);
    assert(e2.0 == intern_index(cx1.env_views(), d));
    assert(e2.0 == e1.0);
    assert(e1 =~= e2);
}

/// Interning distinctness: two successive `compute` calls whose requests
/// resolve to different contents return different handles.
pub proof fn lemma_interning_distinct(
    cx0: Context,
    cx1: Context,
    cx2: Context,
    src1: ParamEnvSource,
    src2: ParamEnvSource,
    e1: ParamEnv,
    e2: ParamEnv,
)
    requires
        cx0.wf(),
        compute_ok_post(cx0, cx1, src1, e1),
        compute_ok_post(cx1, cx2, src2, e2),
        env_data_of(cx0, src1) != env_data_of(cx0, src2),
    ensures
        e1 != e2,
{
    lemma_env_data_store_only(cx0, cx1, src2);
    let d1 = env_data_of(cx0, src1);
    let d2 = env_data_of(cx0, src2);
    let t0 = cx0.env_views();
    let t1 = cx1.env_views();
    lemma_intern_index(t0, d1);
    lemma_intern_index(t1, d2);
    if intern_index(t0, d1) < t0.len() {
        assert(t1 == t0);
        assert(t1[e1.0 as int] == d1);
    } else {
        assert(t1 == t0.push(d1));
        assert(t1[e1.0 as int] == d1);
    }
    if intern_index(t1, d2) < t1.len() {
        assert(t1[e2.0 as int] == d2);
        if e1.0 == e2.0 {
            assert(d1 == d2);
            assert(false);
        }
    } else {
        assert(e2.0 == t1.len());
        assert(e1.0 < t1.len());
    }
}

/// Two pair sequences over the same parameters that differ in one bound
/// argument still differ after partitioning by parameter kind.
pub proof fn lemma_kind_filter_diff(
    ps: Seq<(NodeId, ParamDecl)>,
    p1: Seq<(NodeId, NodeId)>,
    p2: Seq<(NodeId, NodeId)>,
    j: int,
)
    requires
        p1.len() == p2.len(),
        0 <= j < p1.len(),
        forall|i: int| 0 <= i < p1.len() && i != j ==> p1[i] == p2[i],
        p1[j].0 == p2[j].0,
        p1[j] != p2[j],
    ensures
        kind_filter(ps, p1, ParamKind::Type) != kind_filter(ps, p2, ParamKind::Type)
            || kind_filter(ps, p1, ParamKind::Value) != kind_filter(ps, p2, ParamKind::Value),
    decreases p1.len(),
{
    let n = p1.len() as int;
    if j == n - 1 {
        assert(p1.drop_last() =~= p2.drop_last());
        let k = decl_of(ps, p1[j].0).kind;
        if k == ParamKind::Type {
            let f1 = kind_filter(ps, p1, ParamKind::Type);
            let f2 = kind_filter(ps, p2, ParamKind::Type);
            assert(f1.last() == p1[j]);
            assert(f2.last() == p2[j]);
            assert(f1.len() == f2.len());
            assert(f1 != f2);
        } else {
            let f1 = kind_filter(ps, p1, ParamKind::Value);
            let f2 = kind_filter(ps, p2, ParamKind::Value);
            assert(f1.last() == p1[j]);
            assert(f2.last() == p2[j]);
            assert(f1.len() == f2.len());
            assert(f1 != f2);
        }
    } else {
        assert forall|i: int|
            0 <= i < p1.drop_last().len() && i != j implies p1.drop_last()[i]
            == p2.drop_last()[i] by {
            assert(p1.drop_last()[i] == p1[i]);
            assert(p2.drop_last()[i] == p2[i]);
        }
        assert(p1.drop_last()[j] == p1[j]);
        assert(p2.drop_last()[j] == p2[j]);
        lemma_kind_filter_diff(ps, p1.drop_last(), p2.drop_last(), j);
        assert(p1.last() == p2.last());
        let x = p1.last();
        let xk = decl_of(ps, x.0).kind;
        if kind_filter(ps, p1.drop_last(), ParamKind::Type) != kind_filter(
            ps,
            p2.drop_last(),
            ParamKind::Type,
        ) {
            let f1 = kind_filter(ps, p1.drop_last(), ParamKind::Type);
            let f2 = kind_filter(ps, p2.drop_last(), ParamKind::Type);
            if xk == ParamKind::Type {
                if f1.push(x) == f2.push(x) {
                    assert(f1.push(x).len() == f1.len() + 1);
                    assert(f2.push(x).len() == f2.len() + 1);
                    assert(f1.len() == f2.len());
                    assert forall|i: int| 0 <= i < f1.len() implies f1[i] == f2[i] by {
                        assert(f1.push(x)[i] == f1[i]);
                        assert(f2.push(x)[i] == f2[i]);
                    }
                    assert(f1 =~= f2);
                    assert(false);
                }
                assert(kind_filter(ps, p1, ParamKind::Type) != kind_filter(
                    ps,
                    p2,
                    ParamKind::Type,
                ));
            } else {
                assert(kind_filter(ps, p1, ParamKind::Type) != kind_filter(
                    ps,
                    p2,
                    ParamKind::Type,
                ));
            }
        } else {
            let f1 = kind_filter(ps, p1.drop_last(), ParamKind::Value);
            let f2 = kind_filter(ps, p2.drop_last(), ParamKind::Value);
            assert(f1 != f2);
            if xk == ParamKind::Value {
                if f1.push(x) == f2.push(x) {
                    assert(f1.push(x).len() == f1.len() + 1);
                    assert(f2.push(x).len() == f2.len() + 1);
                    assert(f1.len() == f2.len());
                    assert forall|i: int| 0 <= i < f1.len() implies f1[i] == f2[i] by {
                        assert(f1.push(x)[i] == f1[i]);
                        assert(f2.push(x)[i] == f2[i]);
                    }
                    assert(f1 =~= f2);
                    assert(false);
                }
                assert(kind_filter(ps, p1, ParamKind::Value) != kind_filter(
                    ps,
                    p2,
                    ParamKind::Value,
                ));
            } else {
                assert(kind_filter(ps, p1, ParamKind::Value) != kind_filter(
                    ps,
                    p2,
                    ParamKind::Value,
                ));
            }
        }
    }
}

/// Changing the node bound by one positional argument changes the resolved
/// content.
pub proof fn lemma_positional_change_distinct(
    cx: Context,
    src1: ParamEnvSource,
    src2: ParamEnvSource,
    k: int,
)
    requires
        cx.wf(),
        src_resolves(cx, src1),
        all_match(cx, src1),
        all_match(cx, src2),
        src2.module_id() == src1.module_id(),
        src2.named_args() == src1.named_args(),
        src2.pos_args().len() == src1.pos_args().len(),
        0 <= k < src1.pos_args().len(),
        forall|i: int|
            0 <= i < src1.pos_args().len() && i != k ==> src1.pos_args()[i] == src2.pos_args()[i],
        src1.pos_args()[k].value != src2.pos_args()[k].value,
    ensures
        env_data_of(cx, src1) != env_data_of(cx, src2),
{
    let params = cx.module_params(src1.module_id()).unwrap();
    let ps = cx.params@;
    let p1 = resolved_pairs(cx, src1);
    let p2 = resolved_pairs(cx, src2);
    let np = src1.pos_args().len() as int;
    assert(p1.len() == p2.len());
    assert forall|i: int| 0 <= i < p1.len() && i != k implies p1[i] == p2[i] by {
        if i < np {
            assert(src1.pos_args()[i] == src2.pos_args()[i]);
        } else {
            assert(src1.named_args()[i - np] == src2.named_args()[i - np]);
        }
    }
    assert(p1[k].0 == params[k] && p2[k].0 == params[k]);
    assert(p1[k].1 != p2[k].1);
    assert(p1[k] != p2[k]);
    lemma_kind_filter_diff(ps, p1, p2, k);
}

/// Changing the node bound by one named argument changes the resolved
/// content.
pub proof fn lemma_named_change_distinct(
    cx: Context,
    src1: ParamEnvSource,
    src2: ParamEnvSource,
    k: int,
)
    requires
        cx.wf(),
        src_resolves(cx, src1),
        all_match(cx, src1),
        all_match(cx, src2),
        src2.module_id() == src1.module_id(),
        src2.pos_args() == src1.pos_args(),
        src2.named_args().len() == src1.named_args().len(),
        0 <= k < src1.named_args().len(),
        forall|i: int|
            0 <= i < src1.named_args().len() && i != k ==> src1.named_args()[i]
                == src2.named_args()[i],
        src1.named_args()[k].name == src2.named_args()[k].name,
        src1.named_args()[k].value != src2.named_args()[k].value,
    ensures
        env_data_of(cx, src1) != env_data_of(cx, src2),
{
    let params = cx.module_params(src1.module_id()).unwrap();
    let ps = cx.params@;
    let p1 = resolved_pairs(cx, src1);
    let p2 = resolved_pairs(cx, src2);
    let np = src1.pos_args().len() as int;
    assert(p1.len() == p2.len());
    assert forall|i: int| 0 <= i < p1.len() && i != np + k implies p1[i] == p2[i] by {
        if i >= np {
            assert(src1.named_args()[i - np] == src2.named_args()[i - np]);
        }
    }
    assert(p1[np + k].0 == find_named(ps, params, src1.named_args()[k].name).unwrap());
    assert(p2[np + k].0 == find_named(ps, params, src1.named_args()[k].name).unwrap());
    assert(p1[np + k].1 != p2[np + k].1);
    assert(p1[np + k] != p2[np + k]);
    lemma_kind_filter_diff(ps, p1, p2, np + k);
}

impl Context {
    /// Return the canonical handle for `data`, deduplicating: structurally
    /// equal contents always share one handle.
    pub fn intern_param_env(&mut self, data: ParamEnvData) -> (r: ParamEnv)
        requires
            old(self).envs_unique(),
        ensures
            final(self).envs_unique(),
            final(self).modules == old(self).modules,
            final(self).params == old(self).params,
            final(self).diags == old(self).diags,
            final(self).verbose_names == old(self).verbose_names,
            final(self).env_views() == intern_insert(old(self).env_views(), data@),
            r.0 == intern_index(old(self).env_views(), data@),
            r.0 < final(self).env_views().len(),
            final(self).env_views()[r.0 as int] == data@,
    {
        let ghost t = self.env_views();
        let mut i: usize = 0;
        while i < self.envs.len()
            invariant
                i <= self.envs.len(),
                *self == *old(self),
                self.envs_unique(),
                t == self.env_views(),
                forall|j: int| 0 <= j < i ==> self.env_views()[j] != data@,
            decreases self.envs.len() - i,
        {
            if data_eq(&self.envs[i], &data) {
                proof {
                    assert(self.env_views()[i as int] == data@);
                    lemma_intern_index_at(t, data@, i as int);
                }
                return ParamEnv(i);
            }
            proof {
                assert(self.env_views()[i as int] != data@);
            }
            i += 1;
        }
        proof {
            lemma_intern_index_at(t, data@, t.len() as int);
        }
        let n = self.envs.len();
        self.envs.push(data);
        proof {
            assert(self.env_views() =~= t.push(self.envs@.last()@));
            assert(self.env_views() == intern_insert(t, self.env_views()[n as int]));
        }
        ParamEnv(n)
    }
}

/// Scan the module's parameters for the first one named `name`.
fn find_param_named(cx: &Context, params: &Vec<NodeId>, name: Name) -> (r: Option<NodeId>)
    requires
        cx.params_resolved(params@),
    ensures
        r == find_named(cx.params@, params@, name),
{
    proof {
        assert(params@.skip(0) =~= params@);
    }
    let mut k: usize = 0;
    while k < params.len()
        invariant
            k <= params.len(),
            cx.params_resolved(params@),
            find_named(cx.params@, params@, name) == find_named(
                cx.params@,
                params@.skip(k as int),
                name,
            ),
        decreases params.len() - k,
    {
        proof {
            assert(cx.param_info(params@[k as int]) is Some);
        }
        let d = cx.param_info_at(params[k]);
        proof {
            assert(params@.skip(k as int)[0] == params@[k as int]);
            assert(decl_of(cx.params@, params@[k as int]) == d);
        }
        if d.name == name {
            return Some(params[k]);
        }
        proof {
            assert(params@.skip(k as int).drop_first() =~= params@.skip(k as int + 1));
        }
        k += 1;
    }
    proof {
        assert(params@.skip(params@.len() as int) =~= Seq::<NodeId>::empty());
    }
    None
}

/// Collect the declared parameter names for the unknown-argument note.
fn declared_names_vec(cx: &Context, params: &Vec<NodeId>) -> (r: Vec<Name>)
    requires
        cx.params_resolved(params@),
    ensures
        r@ == declared_names(cx.params@, params@),
{
    let mut out: Vec<Name> = Vec::new();
    let mut k: usize = 0;
    while k < params.len()
        invariant
            k <= params.len(),
            cx.params_resolved(params@),
            out@.len() == k,
            forall|i: int| 0 <= i < k ==> out@[i] == decl_of(cx.params@, params@[i]).name,
        decreases params.len() - k,
    {
        proof {
            assert(cx.param_info(params@[k as int]) is Some);
        }
        let d = cx.param_info_at(params[k]);
        out.push(d.name);
        k += 1;
    }
    proof {
        assert(out@ =~= declared_names(cx.params@, params@));
    }
    out
}

/// Resolve an instantiation request to a canonical parameter environment.
///
/// Each positional argument binds the parameter at its position; each named
/// argument binds the first declared parameter of its name. Every argument
/// that binds no parameter gets its own error diagnostic, and only after all
/// arguments are examined does the computation fail, so one pass reports
/// every bad argument. On full success the resolved pairs, split into type
/// and value bindings, are interned through the context and the canonical
/// handle is returned.
pub fn compute(cx: &mut Context, src: &ParamEnvSource) -> (r: Result<ParamEnv, ()>)
    requires
        old(cx).wf(),
        src_resolves(*old(cx), *src),
    ensures
        final(cx).wf(),
        final(cx).diag_views() == old(cx).diag_views() + compute_diags(*old(cx), *src),
        r is Ok <==> all_match(*old(cx), *src),
        r matches Ok(env) ==> compute_ok_post(*old(cx), *final(cx), *src, env),
        r is Err ==> final(cx).envs == old(cx).envs && final(cx).modules == old(cx).modules
            && final(cx).params == old(cx).params && final(cx).verbose_names == old(
            cx,
        ).verbose_names,
{
    let ghost cx0 = *cx;
    match src {
        ParamEnvSource::ModuleInst { module, pos, named } => {
            proof {
                assert(src.module_id() == *module);
                assert(src.pos_args() == pos@);
                assert(src.named_args() == named@);
            }
            let params = cx.module_params_at(*module);
            let ghost params_s = params@;
            let ghost ps = cx0.params@;
            proof {
                assert(cx0.module_params(src.module_id()) == Some(params_s));
                assert(cx0.params_resolved(params_s));
            }
            let mut pairs: Vec<(NodeId, NodeId)> = Vec::new();
            let mut ok: bool = true;
            proof {
                assert(src.pos_args().take(0) =~= Seq::<PosArg>::empty());
                assert(pos_diags(params_s.len() as int, src.pos_args().take(0))
                    =~= Seq::<DiagV>::empty());
                assert(cx.diag_views() =~= cx0.diag_views() + Seq::<DiagV>::empty());
                assert(pos_pairs(params_s, src.pos_args().take(0)) =~= Seq::<(
                    NodeId,
                    NodeId,
                )>::empty());
            }
            let mut i: usize = 0;
            while i < pos.len()
                invariant
                    i <= pos.len(),
                    cx.wf(),
                    cx0.wf(),
                    cx.modules == cx0.modules,
                    cx.params == cx0.params,
                    cx.envs == cx0.envs,
                    cx.verbose_names == cx0.verbose_names,
                    pos@ == src.pos_args(),
                    params@ == params_s,
                    ps == cx0.params@,
                    cx0.module_params(src.module_id()) == Some(params_s),
                    cx.diag_views() == cx0.diag_views() + pos_diags(
                        params_s.len() as int,
                        src.pos_args().take(i as int),
                    ),
                    ok <==> i as int <= params_s.len(),
                    ok ==> pairs@ == pos_pairs(params_s, src.pos_args().take(i as int)),
                decreases pos.len() - i,
            {
                let a = pos[i];
                let ghost t = src.pos_args().take(i as int);
                let ghost t1 = src.pos_args().take(i as int + 1);
                proof {
                    assert(t1.drop_last() =~= t);
                    assert(t1.last() == src.pos_args()[i as int]);
                }
                if i < params.len() {
                    pairs.push((params[i], a.value));
                    proof {
                        assert(pos_diags(params_s.len() as int, t1) == pos_diags(
                            params_s.len() as int,
                            t,
                        ) + Seq::<DiagV>::empty());
                        assert(cx0.diag_views() + pos_diags(params_s.len() as int, t1)
                            =~= cx0.diag_views() + pos_diags(params_s.len() as int, t));
                        if ok {
                            assert(pos_pairs(params_s, t1) =~= pos_pairs(params_s, t).push(
                                (params_s[i as int], src.pos_args()[i as int].value),
                            ));
                        }
                    }
                } else {
                    cx.emit(
                        Diagnostic::ExcessPositional { span: a.span, param_count: params.len() },
                    );
                    ok = false;
                    proof {
                        lemma_wf_unchanged(cx0, *cx);
                        let dv = DiagV::ExcessPositional {
                            span: src.pos_args()[i as int].span,
                            param_count: params_s.len() as int,
                        };
                        assert(pos_diags(params_s.len() as int, t1) == pos_diags(
                            params_s.len() as int,
                            t,
                        ) + seq![dv]);
                        assert(cx.diag_views() =~= cx0.diag_views() + pos_diags(
                            params_s.len() as int,
                            t1,
                        ));
                    }
                }
                i += 1;
            }
            proof {
                assert(src.pos_args().take(pos@.len() as int) =~= src.pos_args());
            }
            let ghost pos_full = pos_diags(params_s.len() as int, src.pos_args());
            proof {
                assert(src.named_args().take(0) =~= Seq::<NamedArg>::empty());
                assert(named_diags(ps, params_s, src.named_args().take(0))
                    =~= Seq::<DiagV>::empty());
                assert(cx0.diag_views() + pos_full + named_diags(
                    ps,
                    params_s,
                    src.named_args().take(0),
                ) =~= cx0.diag_views() + pos_full);
                assert(named_pairs(ps, params_s, src.named_args().take(0)) =~= Seq::<(
                    NodeId,
                    NodeId,
                )>::empty());
                if ok {
                    assert(pairs@ =~= pos_pairs(params_s, src.pos_args()) + named_pairs(
                        ps,
                        params_s,
                        src.named_args().take(0),
                    ));
                }
            }
            let mut j: usize = 0;
            while j < named.len()
                invariant
                    j <= named.len(),
                    cx.wf(),
                    cx0.wf(),
                    cx.modules == cx0.modules,
                    cx.params == cx0.params,
                    cx.envs == cx0.envs,
                    cx.verbose_names == cx0.verbose_names,
                    named@ == src.named_args(),
                    pos@ == src.pos_args(),
                    params@ == params_s,
                    ps == cx0.params@,
                    cx0.module_params(src.module_id()) == Some(params_s),
                    cx0.params_resolved(params_s),
                    pos_full == pos_diags(params_s.len() as int, src.pos_args()),
                    cx.diag_views() == cx0.diag_views() + pos_full + named_diags(
                        ps,
                        params_s,
                        src.named_args().take(j as int),
                    ),
                    ok <==> (src.pos_args().len() <= params_s.len() && forall|q: int|
                        0 <= q < j ==> find_named(
                            ps,
                            params_s,
                            (#[trigger] src.named_args()[q]).name,
                        ) is Some),
                    ok ==> pairs@ == pos_pairs(params_s, src.pos_args()) + named_pairs(
                        ps,
                        params_s,
                        src.named_args().take(j as int),
                    ),
                decreases named.len() - j,
            {
                let na = named[j];
                let ghost t = src.named_args().take(j as int);
                let ghost t1 = src.named_args().take(j as int + 1);
                proof {
                    assert(t1.drop_last() =~= t);
                    assert(t1.last() == src.named_args()[j as int]);
                    assert forall|q: int| 0 <= q < params@.len() implies (#[trigger] cx.param_info(
                        params@[q],
                    )) is Some by {
                        assert(cx0.param_info(params_s[q]) is Some);
                    }
                }
                let found = find_param_named(cx, &params, na.name);
                match found {
                    Some(pid) => {
                        pairs.push((pid, na.value));
                        proof {
                            assert(find_named(ps, params_s, src.named_args()[j as int].name)
                                == Some(pid));
                            assert(named_diags(ps, params_s, t1) == named_diags(ps, params_s, t)
                                + Seq::<DiagV>::empty());
                            assert(cx0.diag_views() + pos_full + named_diags(ps, params_s, t1)
                                =~= cx0.diag_views() + pos_full + named_diags(ps, params_s, t));
                            if ok {
                                assert(named_pairs(ps, params_s, t1) =~= named_pairs(
                                    ps,
                                    params_s,
                                    t,
                                ).push((pid, src.named_args()[j as int].value)));
                                assert(pairs@ =~= pos_pairs(params_s, src.pos_args())
                                    + named_pairs(ps, params_s, t1));
                            }
                        }
                    },
                    None => {
                        let decl_names = declared_names_vec(cx, &params);
                        cx.emit(
                            Diagnostic::UnknownNamed {
                                span: na.span,
                                name: na.name,
                                declared: decl_names,
                            },
                        );
                        ok = false;
                        proof {
                            lemma_wf_unchanged(cx0, *cx);
                            let dv = DiagV::UnknownNamed {
                                span: src.named_args()[j as int].span,
                                name: src.named_args()[j as int].name,
                                declared: declared_names(ps, params_s),
                            };
                            assert(find_named(ps, params_s, src.named_args()[j as int].name)
                                is None);
                            assert(named_diags(ps, params_s, t1) == named_diags(ps, params_s, t)
                                + seq![dv]);
                            assert(cx.diag_views() =~= cx0.diag_views() + pos_full + named_diags(
                                ps,
                                params_s,
                                t1,
                            ));
                        }
                    },
                }
                j += 1;
            }
            proof {
                assert(src.named_args().take(named@.len() as int) =~= src.named_args());
                assert(cx.diag_views() =~= cx0.diag_views() + compute_diags(cx0, *src));
            }
            if !ok {
                proof {
                    if all_match(cx0, *src) {
                        assert(src.pos_args().len() <= params_s.len());
                        assert forall|q: int| 0 <= q < src.named_args().len() implies find_named(
                            ps,
                            params_s,
                            (#[trigger] src.named_args()[q]).name,
                        ) is Some by {
                            assert(find_named(
                                cx0.params@,
                                cx0.module_params(src.module_id()).unwrap(),
                                src.named_args()[q].name,
                            ) is Some);
                        }
                        assert(false);
                    }
                }
                return Err(());
            }
            proof {
                assert(all_match(cx0, *src));
                assert(pairs@ == resolved_pairs(cx0, *src));
            }
            let ghost pairs_s = pairs@;
            proof {
                assert forall|q: int| 0 <= q < pairs_s.len() implies (#[trigger] assoc_param(
                    ps,
                    pairs_s[q].0,
                )) is Some by {
                    let np = src.pos_args().len() as int;
                    if q < np {
                        assert(pairs_s[q].0 == params_s[q]);
                        assert(cx0.param_info(params_s[q]) is Some);
                    } else {
                        let name = src.named_args()[q - np].name;
                        assert(find_named(ps, params_s, name) is Some);
                        assert(pairs_s[q].0 == find_named(ps, params_s, name).unwrap());
                        lemma_find_named_in(ps, params_s, name);
                        let k = choose|k: int|
                            0 <= k < params_s.len() && params_s[k] == pairs_s[q].0;
                        assert(cx0.param_info(params_s[k]) is Some);
                    }
                }
                assert(pairs_s.take(0) =~= Seq::<(NodeId, NodeId)>::empty());
                assert(kind_filter(ps, pairs_s.take(0), ParamKind::Type) =~= Seq::<(
                    NodeId,
                    NodeId,
                )>::empty());
                assert(kind_filter(ps, pairs_s.take(0), ParamKind::Value) =~= Seq::<(
                    NodeId,
                    NodeId,
                )>::empty());
            }
            let mut types: Vec<(NodeId, NodeId)> = Vec::new();
            let mut values: Vec<(NodeId, NodeId)> = Vec::new();
            let mut k: usize = 0;
            while k < pairs.len()
                invariant
                    k <= pairs.len(),
                    cx.wf(),
                    cx.modules == cx0.modules,
                    cx.params == cx0.params,
                    cx.envs == cx0.envs,
                    cx.verbose_names == cx0.verbose_names,
                    ps == cx0.params@,
                    pairs@ == pairs_s,
                    forall|q: int|
                        0 <= q < pairs_s.len() ==> (#[trigger] assoc_param(ps, pairs_s[q].0))
                            is Some,
                    types@ == kind_filter(ps, pairs_s.take(k as int), ParamKind::Type),
                    values@ == kind_filter(ps, pairs_s.take(k as int), ParamKind::Value),
                decreases pairs.len() - k,
            {
                let p = pairs[k];
                proof {
                    assert(assoc_param(ps, pairs_s[k as int].0) is Some);
                    assert(cx.param_info(p.0) is Some);
                }
                let d = cx.param_info_at(p.0);
                let ghost t = pairs_s.take(k as int);
                let ghost t1 = pairs_s.take(k as int + 1);
                proof {
                    assert(t1.drop_last() =~= t);
                    assert(t1.last() == pairs_s[k as int]);
                    assert(decl_of(ps, pairs_s[k as int].0) == d);
                }
                match d.kind {
                    ParamKind::Type => {
                        types.push(p);
                        proof {
                            assert(kind_filter(ps, t1, ParamKind::Type) == kind_filter(
                                ps,
                                t,
                                ParamKind::Type,
                            ).push(pairs_s[k as int]));
                            assert(kind_filter(ps, t1, ParamKind::Value) == kind_filter(
                                ps,
                                t,
                                ParamKind::Value,
                            ));
                        }
                    },
                    ParamKind::Value => {
                        values.push(p);
                        proof {
                            assert(kind_filter(ps, t1, ParamKind::Value) == kind_filter(
                                ps,
                                t,
                                ParamKind::Value,
                            ).push(pairs_s[k as int]));
                            assert(kind_filter(ps, t1, ParamKind::Type) == kind_filter(
                                ps,
                                t,
                                ParamKind::Type,
                            ));
                        }
                    },
                }
                k += 1;
            }
            proof {
                assert(pairs_s.take(pairs_s.len() as int) =~= pairs_s);
            }
            let data = ParamEnvData { types, values };
            proof {
                assert(data@ =~= env_data_of(cx0, *src));
            }
            let ghost dv_before = cx.diag_views();
            let env = cx.intern_param_env(data);
            proof {
                crate::context::lemma_modules_wf_unchanged(cx0, *cx);
                assert(cx.diag_views() =~= dv_before);
            }
            Ok(env)
        },
    }
}

/// Structural equality of two binding lists.
fn pair_vec_eq(a: &Vec<(NodeId, NodeId)>, b: &Vec<(NodeId, NodeId)>) -> (r: bool)
    ensures
        r <==> a@ == b@,
{
    if a.len() != b.len() {
        return false;
    }
    let mut i: usize = 0;
    while i < a.len()
        invariant
            i <= a.len(),
            a@.len() == b@.len(),
            forall|j: int| 0 <= j < i ==> a@[j] == b@[j],
        decreases a.len() - i,
    {
        let x = a[i];
        let y = b[i];
        if x.0 != y.0 || x.1 != y.1 {
            return false;
        }
        i += 1;
    }
    proof {
        assert(a@ =~= b@);
    }
    true
}

/// Structural equality of two environment contents.
fn data_eq(a: &ParamEnvData, b: &ParamEnvData) -> (r: bool)
    ensures
        r <==> a@ == b@,
{
    let same_types = pair_vec_eq(&a.types, &b.types);
    let same_values = pair_vec_eq(&a.values, &b.values);
    proof {
        if same_types && same_values {
            assert(a@ =~= b@);
        }
    }
    same_types && same_values
}

} // verus!
