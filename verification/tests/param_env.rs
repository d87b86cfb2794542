use hdl_elab::context::{Context, Diagnostic, Name, NodeId, ParamKind, Span};
use hdl_elab::param_env::{compute, NamedArg, ParamEnvSource, PosArg};

fn sp(lo: u32, hi: u32) -> Span {
    Span { lo, hi }
}

/// A context with one module (id 100) declaring parameters
/// `[T: type, N: value, M: value]` (ids 1, 2, 3; names 10, 11, 12).
fn three_param_context() -> Context {
    let mut cx = Context::new();
    cx.add_param(NodeId(1), Name(10), ParamKind::Type);
    cx.add_param(NodeId(2), Name(11), ParamKind::Value);
    cx.add_param(NodeId(3), Name(12), ParamKind::Value);
    cx.add_module(NodeId(100), vec![NodeId(1), NodeId(2), NodeId(3)]);
    cx
}

#[test]
fn order_preservation() {
    let mut cx = three_param_context();
    let src = ParamEnvSource::ModuleInst {
        module: NodeId(100),
        pos: vec![
            PosArg { span: sp(0, 1), value: NodeId(201) },
            PosArg { span: sp(2, 3), value: NodeId(202) },
            PosArg { span: sp(4, 5), value: NodeId(203) },
        ],
        named: vec![],
    };
    let env = compute(&mut cx, &src).expect("all arguments bind");
    let data = cx.param_env_data(env);
    assert_eq!(data.types, vec![(NodeId(1), NodeId(201))]);
    assert_eq!(
        data.values,
        vec![(NodeId(2), NodeId(202)), (NodeId(3), NodeId(203))]
    );
    assert!(cx.diags.is_empty());
}

#[test]
fn named_arguments_bind_by_name() {
    let mut cx = three_param_context();
    let src = ParamEnvSource::ModuleInst {
        module: NodeId(100),
        pos: vec![PosArg { span: sp(0, 1), value: NodeId(201) }],
        named: vec![
            NamedArg { span: sp(2, 3), name: Name(12), value: NodeId(203) },
            NamedArg { span: sp(4, 5), name: Name(11), value: NodeId(202) },
        ],
    };
    let env = compute(&mut cx, &src).expect("all arguments bind");
    let data = cx.param_env_data(env);
    assert_eq!(data.types, vec![(NodeId(1), NodeId(201))]);
    // named pairs keep the order the arguments were listed, after positional
    assert_eq!(
        data.values,
        vec![(NodeId(3), NodeId(203)), (NodeId(2), NodeId(202))]
    );
}

#[test]
fn interning_idempotent() {
    let mut cx = three_param_context();
    let src = ParamEnvSource::ModuleInst {
        module: NodeId(100),
        pos: vec![
            PosArg { span: sp(0, 1), value: NodeId(201) },
            PosArg { span: sp(2, 3), value: NodeId(202) },
            PosArg { span: sp(4, 5), value: NodeId(203) },
        ],
        named: vec![],
    };
    let e1 = compute(&mut cx, &src).expect("first resolution");
    let e2 = compute(&mut cx, &src.clone()).expect("second resolution");
    assert_eq!(e1, e2);
    assert_eq!(cx.envs.len(), 1);
}

#[test]
fn interning_distinct_positional() {
    let mut cx = three_param_context();
    let src1 = ParamEnvSource::ModuleInst {
        module: NodeId(100),
        pos: vec![
            PosArg { span: sp(0, 1), value: NodeId(201) },
            PosArg { span: sp(2, 3), value: NodeId(202) },
            PosArg { span: sp(4, 5), value: NodeId(203) },
        ],
        named: vec![],
    };
    let src2 = ParamEnvSource::ModuleInst {
        module: NodeId(100),
        pos: vec![
            PosArg { span: sp(0, 1), value: NodeId(201) },
            PosArg { span: sp(2, 3), value: NodeId(299) },
            PosArg { span: sp(4, 5), value: NodeId(203) },
        ],
        named: vec![],
    };
    let e1 = compute(&mut cx, &src1).expect("first resolution");
    let e2 = compute(&mut cx, &src2).expect("second resolution");
    assert_ne!(e1, e2);
    assert_eq!(cx.envs.len(), 2);
}

#[test]
fn interning_distinct_named() {
    let mut cx = three_param_context();
    let base = vec![
        PosArg { span: sp(0, 1), value: NodeId(201) },
        PosArg { span: sp(2, 3), value: NodeId(202) },
    ];
    let src1 = ParamEnvSource::ModuleInst {
        module: NodeId(100),
        pos: base.clone(),
        named: vec![NamedArg { span: sp(4, 5), name: Name(12), value: NodeId(203) }],
    };
    let src2 = ParamEnvSource::ModuleInst {
        module: NodeId(100),
        pos: base,
        named: vec![NamedArg { span: sp(4, 5), name: Name(12), value: NodeId(204) }],
    };
    let e1 = compute(&mut cx, &src1).expect("first resolution");
    let e2 = compute(&mut cx, &src2).expect("second resolution");
    assert_ne!(e1, e2);
}

#[test]
fn canonicalization_across_argument_shapes() {
    // the same binding reached positionally and by name shares one handle
    let mut cx = three_param_context();
    let positional = ParamEnvSource::ModuleInst {
        module: NodeId(100),
        pos: vec![
            PosArg { span: sp(0, 1), value: NodeId(201) },
            PosArg { span: sp(2, 3), value: NodeId(202) },
            PosArg { span: sp(4, 5), value: NodeId(203) },
        ],
        named: vec![],
    };
    let named = ParamEnvSource::ModuleInst {
        module: NodeId(100),
        pos: vec![
            PosArg { span: sp(6, 7), value: NodeId(201) },
            PosArg { span: sp(8, 9), value: NodeId(202) },
        ],
        named: vec![NamedArg { span: sp(10, 11), name: Name(12), value: NodeId(203) }],
    };
    let e1 = compute(&mut cx, &positional).expect("positional resolution");
    let e2 = compute(&mut cx, &named).expect("named resolution");
    assert_eq!(e1, e2);
    assert_eq!(cx.envs.len(), 1);
}

#[test]
fn excess_positional_arguments() {
    let mut cx = Context::new();
    cx.add_param(NodeId(1), Name(10), ParamKind::Value);
    cx.add_param(NodeId(2), Name(11), ParamKind::Value);
    cx.add_module(NodeId(100), vec![NodeId(1), NodeId(2)]);
    let src = ParamEnvSource::ModuleInst {
        module: NodeId(100),
        pos: vec![
            PosArg { span: sp(0, 1), value: NodeId(201) },
            PosArg { span: sp(2, 3), value: NodeId(202) },
            PosArg { span: sp(4, 5), value: NodeId(203) },
        ],
        named: vec![],
    };
    assert!(compute(&mut cx, &src).is_err());
    assert_eq!(cx.diags.len(), 1);
    match &cx.diags[0] {
        Diagnostic::ExcessPositional { span, param_count } => {
            assert_eq!(*span, sp(4, 5));
            assert_eq!(*param_count, 2);
        }
        other => panic!("expected an excess-positional error, got {:?}", other),
    }
    assert!(cx.envs.is_empty());
}

#[test]
fn unknown_named_argument() {
    let mut cx = three_param_context();
    let src = ParamEnvSource::ModuleInst {
        module: NodeId(100),
        pos: vec![],
        named: vec![NamedArg { span: sp(7, 12), name: Name(99), value: NodeId(201) }],
    };
    assert!(compute(&mut cx, &src).is_err());
    assert_eq!(cx.diags.len(), 1);
    match &cx.diags[0] {
        Diagnostic::UnknownNamed { span, name, declared } => {
            assert_eq!(*span, sp(7, 12));
            assert_eq!(*name, Name(99));
            assert_eq!(*declared, vec![Name(10), Name(11), Name(12)]);
        }
        other => panic!("expected an unknown-named error, got {:?}", other),
    }
    assert!(cx.envs.is_empty());
}

#[test]
fn all_bad_arguments_are_reported() {
    // resolution collects every failure before failing, never stopping at
    // the first bad argument
    let mut cx = Context::new();
    cx.add_param(NodeId(1), Name(10), ParamKind::Value);
    cx.add_module(NodeId(100), vec![NodeId(1)]);
    let src = ParamEnvSource::ModuleInst {
        module: NodeId(100),
        pos: vec![
            PosArg { span: sp(0, 1), value: NodeId(201) },
            PosArg { span: sp(2, 3), value: NodeId(202) },
            PosArg { span: sp(4, 5), value: NodeId(203) },
        ],
        named: vec![NamedArg { span: sp(6, 7), name: Name(50), value: NodeId(204) }],
    };
    assert!(compute(&mut cx, &src).is_err());
    assert_eq!(cx.diags.len(), 3);
    assert!(matches!(cx.diags[0], Diagnostic::ExcessPositional { span: Span { lo: 2, hi: 3 }, .. }));
    assert!(matches!(cx.diags[1], Diagnostic::ExcessPositional { span: Span { lo: 4, hi: 5 }, .. }));
    assert!(matches!(cx.diags[2], Diagnostic::UnknownNamed { name: Name(50), .. }));
}

#[test]
fn instantiation_without_arguments() {
    let mut cx = three_param_context();
    let src = ParamEnvSource::ModuleInst { module: NodeId(100), pos: vec![], named: vec![] };
    let env = compute(&mut cx, &src).expect("nothing to bind");
    let data = cx.param_env_data(env);
    assert!(data.types.is_empty());
    assert!(data.values.is_empty());
    assert!(cx.diags.is_empty());
}
