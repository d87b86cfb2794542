use hdl_elab::context::{Context, Diagnostic, Name, NodeId, Span};
use hdl_elab::scope::{Def2, ScopeData, ScopeIdGen, SpannedName};

fn sp(lo: u32, hi: u32) -> Span {
    Span { lo, hi }
}

fn named(n: u32, lo: u32, hi: u32) -> SpannedName {
    SpannedName { name: Name(n), span: sp(lo, hi) }
}

#[test]
fn duplicate_unique_definition() {
    let mut gen = ScopeIdGen::new();
    let mut scope = ScopeData::root(gen.fresh());
    let mut cx = Context::new();

    assert!(scope.define(named(7, 0, 3), Def2::Type(NodeId(1)), &mut cx).is_ok());
    assert!(scope.define(named(7, 10, 13), Def2::Pkg(NodeId(2)), &mut cx).is_err());

    assert_eq!(cx.diags.len(), 1);
    match &cx.diags[0] {
        Diagnostic::AlreadyDeclared { name, span, prev_span } => {
            assert_eq!(*name, Name(7));
            assert_eq!(*span, sp(10, 13));
            assert_eq!(*prev_span, sp(0, 3));
        }
        other => panic!("expected an already-declared error, got {:?}", other),
    }
    // the first definition remains the sole entry
    assert_eq!(scope.defs.len(), 1);
    assert_eq!(scope.defs[0].0, Name(7));
    assert_eq!(scope.defs[0].1.def, Def2::Type(NodeId(1)));
    assert_eq!(scope.defs[0].1.span, sp(0, 3));
}

#[test]
fn overload_accumulation() {
    let mut gen = ScopeIdGen::new();
    let mut scope = ScopeData::root(gen.fresh());
    let mut cx = Context::new();

    assert!(scope.define(named(7, 0, 3), Def2::Enum(NodeId(1)), &mut cx).is_ok());
    assert!(scope.define(named(7, 10, 13), Def2::Enum(NodeId(2)), &mut cx).is_ok());

    assert!(cx.diags.is_empty());
    // both entries are retained, in declaration order
    assert_eq!(scope.defs.len(), 2);
    assert_eq!(scope.defs[0].1.def, Def2::Enum(NodeId(1)));
    assert_eq!(scope.defs[1].1.def, Def2::Enum(NodeId(2)));
}

#[test]
fn overloadable_appends_after_unique() {
    // an enumeration variant appends even where a unique definition of the
    // same name already stands; the converse order conflicts
    let mut gen = ScopeIdGen::new();
    let mut scope = ScopeData::root(gen.fresh());
    let mut cx = Context::new();

    assert!(scope.define(named(7, 0, 3), Def2::Type(NodeId(1)), &mut cx).is_ok());
    assert!(scope.define(named(7, 4, 6), Def2::Enum(NodeId(2)), &mut cx).is_ok());
    assert_eq!(scope.defs.len(), 2);

    assert!(scope.define(named(7, 8, 9), Def2::Pkg(NodeId(3)), &mut cx).is_err());
    match &cx.diags[0] {
        Diagnostic::AlreadyDeclared { prev_span, .. } => assert_eq!(*prev_span, sp(4, 6)),
        other => panic!("expected an already-declared error, got {:?}", other),
    }
}

#[test]
fn import_never_conflicts() {
    let mut gen = ScopeIdGen::new();
    let mut scope = ScopeData::root(gen.fresh());
    let mut cx = Context::new();

    assert!(scope.define(named(7, 0, 3), Def2::Type(NodeId(1)), &mut cx).is_ok());
    // the name is already bound in the scope's own table, and then already
    // present among the imports: both imports still succeed
    assert!(scope.import_def(named(7, 10, 13), Def2::Pkg(NodeId(2))).is_ok());
    assert!(scope.import_def(named(7, 20, 23), Def2::Pkg(NodeId(3))).is_ok());

    assert!(cx.diags.is_empty());
    assert_eq!(scope.defs.len(), 1);
    assert_eq!(scope.imported_defs.len(), 2);
    assert_eq!(scope.imported_defs[0].1.def, Def2::Pkg(NodeId(2)));
    assert_eq!(scope.imported_defs[1].1.def, Def2::Pkg(NodeId(3)));
}

#[test]
fn import_scope_identity_dedup() {
    let mut gen = ScopeIdGen::new();
    let root_id = gen.fresh();
    let mut target = ScopeData::root(root_id);

    // two content-identical scope objects with distinct identities
    let first = ScopeData::new(gen.fresh(), root_id);
    let second = ScopeData::new(gen.fresh(), root_id);
    assert_eq!(first.parent, second.parent);
    assert_ne!(first.id, second.id);

    assert!(target.import_scope(first.id).is_ok());
    assert!(target.import_scope(first.id).is_ok());
    // re-importing the same scope object is a no-op on the set
    assert_eq!(target.imported_scopes.len(), 1);

    assert!(target.import_scope(second.id).is_ok());
    // a distinct identity is kept, however alike the contents
    assert_eq!(target.imported_scopes.len(), 2);
    assert_eq!(target.imported_scopes, vec![first.id, second.id]);
}

#[test]
fn define_note_at_elevated_verbosity() {
    let mut gen = ScopeIdGen::new();
    let mut scope = ScopeData::root(gen.fresh());
    let mut cx = Context::new();
    cx.verbose_names = true;

    assert!(scope.define(named(7, 0, 3), Def2::Pkg(NodeId(1)), &mut cx).is_ok());
    assert_eq!(cx.diags.len(), 1);
    match &cx.diags[0] {
        Diagnostic::DefineNote { name, span, def } => {
            assert_eq!(*name, Name(7));
            assert_eq!(*span, sp(0, 3));
            assert_eq!(*def, Def2::Pkg(NodeId(1)));
        }
        other => panic!("expected a define note, got {:?}", other),
    }

    cx.verbose_names = false;
    assert!(scope.define(named(8, 4, 5), Def2::Pkg(NodeId(2)), &mut cx).is_ok());
    // no note without the verbosity flag
    assert_eq!(cx.diags.len(), 1);
}

#[test]
fn scope_tree_links() {
    let mut gen = ScopeIdGen::new();
    let root_id = gen.fresh();
    let root = ScopeData::root(root_id);
    assert_eq!(root.id, root_id);
    assert_eq!(root.parent, None);
    assert!(root.defs.is_empty());
    assert!(root.imported_defs.is_empty());
    assert!(root.imported_scopes.is_empty());

    let child = ScopeData::new(gen.fresh(), root_id);
    assert_eq!(child.parent, Some(root_id));
    assert_ne!(child.id, root.id);
}
