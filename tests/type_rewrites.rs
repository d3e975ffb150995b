use c2rust_analyze::apply::apply_rewrites;
use c2rust_analyze::hir::{deconstruct_hir_ty, GenericArg, HirPath, HirTy, HirTyKind, Res};
use c2rust_analyze::rewrite::{Mutability, Rewrite, Span};
use c2rust_analyze::ty::{
    gen_ty_rewrites, handle_ty, relabel_rewrites, rewritten_local_tys, AdtMetadata, AdtMetadataTable,
    FieldDef, FnDecl, FnSig, GenericParam, Generics, LetStmt, LocalDecl, OriginTree, StructItem,
};
use c2rust_analyze::types::{
    print_ty, AdtDef, IntTy, LTy, OriginArg, OriginParam, Ownership, PrimTy, Quantity, TyKind, UintTy,
};

fn span(lo: usize, hi: usize) -> Span {
    Span { file: 0, lo, hi }
}

fn chars(s: &str) -> Vec<char> {
    s.chars().collect()
}

fn text(v: &[char]) -> String {
    v.iter().collect()
}

fn prim_lty(p: PrimTy) -> LTy {
    LTy { kind: TyKind::Prim(p), args: vec![], label: None }
}

fn ptr_lty(m: Mutability, pointee: LTy, id: usize) -> LTy {
    LTy { kind: TyKind::RawPtr(m), args: vec![pointee], label: Some(id) }
}

fn unit_lty() -> LTy {
    LTy { kind: TyKind::Tuple, args: vec![], label: None }
}

fn prim_hir(p: PrimTy, s: Span) -> HirTy {
    HirTy { kind: HirTyKind::Path(HirPath { res: Res::PrimTy(p), args: None }), span: s }
}

fn no_adts() -> AdtMetadataTable {
    AdtMetadataTable { table: vec![] }
}

fn u8_ty() -> PrimTy {
    PrimTy::Uint(UintTy::U8)
}

/// `fn f(x: *mut u8) {}` with the parameter's pointer decided as the given descriptor.
fn rewrite_param(desc: (Ownership, Quantity)) -> Result<Vec<(Span, Rewrite)>, Ownership> {
    let decl = FnDecl {
        inputs: vec![HirTy {
            kind: HirTyKind::Ptr(Box::new(prim_hir(u8_ty(), span(13, 15))), Mutability::Mut),
            span: span(8, 15),
        }],
        output: None,
    };
    let sig = FnSig { inputs: vec![ptr_lty(Mutability::Mut, prim_lty(u8_ty()), 0)], output: unit_lty() };
    gen_ty_rewrites(&decl, &sig, &vec![], &vec![], &vec![], &vec![desc], &no_adts())
}

#[test]
fn mut_slice_parameter_end_to_end() {
    let edits = rewrite_param((Ownership::Mut, Quantity::Slice)).unwrap();
    assert_eq!(edits.len(), 1);
    assert_eq!(edits[0].0, span(8, 15));
    assert_eq!(edits[0].1.to_string(), "&mut [$0]");
    let out = apply_rewrites(&chars("fn f(x: *mut u8) {}"), 0, &edits).unwrap();
    assert_eq!(text(&out), "fn f(x: &mut [u8]) {}");
}

#[test]
fn cell_and_offset_parameters() {
    let edits = rewrite_param((Ownership::Cell, Quantity::Single)).unwrap();
    assert_eq!(edits[0].1.to_string(), "&core::cell::Cell<$0>");
    let out = apply_rewrites(&chars("fn f(x: *mut u8) {}"), 0, &edits).unwrap();
    assert_eq!(text(&out), "fn f(x: &core::cell::Cell<u8>) {}");
    let edits = rewrite_param((Ownership::Imm, Quantity::OffsetPtr)).unwrap();
    assert_eq!(edits[0].1.to_string(), "&[$0]");
    let edits = rewrite_param((Ownership::RawMut, Quantity::Single)).unwrap();
    assert_eq!(edits[0].1.to_string(), "*mut $0");
}

#[test]
fn unsupported_ownership_is_an_error() {
    assert_eq!(rewrite_param((Ownership::Rc, Quantity::Single)).err(), Some(Ownership::Rc));
    assert_eq!(rewrite_param((Ownership::Box, Quantity::Single)).err(), Some(Ownership::Box));
}

#[test]
fn alias_is_replaced_whole() {
    // `fn f(x: MyPtr) {}` where `type MyPtr = *mut u8;`
    let decl = FnDecl {
        inputs: vec![HirTy { kind: HirTyKind::Path(HirPath { res: Res::Def, args: None }), span: span(8, 13) }],
        output: None,
    };
    let sig = FnSig { inputs: vec![ptr_lty(Mutability::Mut, prim_lty(u8_ty()), 0)], output: unit_lty() };
    let descs = vec![(Ownership::Mut, Quantity::Single)];
    let edits = gen_ty_rewrites(&decl, &sig, &vec![], &vec![], &vec![], &descs, &no_adts()).unwrap();
    assert_eq!(edits.len(), 1);
    assert_eq!(edits[0].0, span(8, 13));
    assert!(matches!(&edits[0].1, Rewrite::PrintTy(s) if s == "&mut u8"));
    let out = apply_rewrites(&chars("fn f(x: MyPtr) {}"), 0, &edits).unwrap();
    assert_eq!(text(&out), "fn f(x: &mut u8) {}");
}

#[test]
fn untouched_types_get_no_edit() {
    // `fn f(n: i32) -> *const u8` with the return pointer kept raw and immutable.
    let decl = FnDecl {
        inputs: vec![prim_hir(PrimTy::Int(IntTy::I32), span(8, 11))],
        output: Some(HirTy {
            kind: HirTyKind::Ptr(Box::new(prim_hir(u8_ty(), span(23, 25))), Mutability::Not),
            span: span(16, 25),
        }),
    };
    let sig = FnSig {
        inputs: vec![prim_lty(PrimTy::Int(IntTy::I32))],
        output: ptr_lty(Mutability::Not, prim_lty(u8_ty()), 0),
    };
    let descs = vec![(Ownership::Imm, Quantity::Single)];
    let edits = gen_ty_rewrites(&decl, &sig, &vec![], &vec![], &vec![], &descs, &no_adts()).unwrap();
    assert_eq!(edits.len(), 1);
    assert_eq!(edits[0].0, span(16, 25));
    assert_eq!(edits[0].1.to_string(), "&$0");
}

#[test]
fn let_annotation_uses_its_local() {
    // `let p: *mut i32 = q;` inside the body; the local's pattern is at 4..5.
    let decl = FnDecl { inputs: vec![], output: None };
    let sig = FnSig { inputs: vec![], output: unit_lty() };
    let i32_ty = PrimTy::Int(IntTy::I32);
    let locals = vec![
        LocalDecl { span: span(100, 101), lty: unit_lty() },
        LocalDecl { span: span(4, 5), lty: ptr_lty(Mutability::Mut, prim_lty(i32_ty), 0) },
    ];
    let stmts = vec![
        LetStmt {
            pat_span: span(4, 5),
            ty: Some(HirTy {
                kind: HirTyKind::Ptr(Box::new(prim_hir(i32_ty, span(12, 15))), Mutability::Mut),
                span: span(7, 15),
            }),
        },
        LetStmt { pat_span: span(30, 31), ty: None },
    ];
    let descs = vec![(Ownership::Mut, Quantity::Single)];
    let edits = gen_ty_rewrites(&decl, &sig, &locals, &stmts, &vec![], &descs, &no_adts()).unwrap();
    assert_eq!(edits.len(), 1);
    assert_eq!(edits[0].0, span(7, 15));
    assert_eq!(edits[0].1.to_string(), "&mut $0");
    let out = apply_rewrites(&chars("let p: *mut i32 = q;"), 0, &edits).unwrap();
    assert_eq!(text(&out), "let p: &mut i32 = q;");
}

#[test]
fn struct_gains_lifetime_parameters() {
    // `struct S<T> { p: *mut u8, t: T }` with two new lifetimes `'h0` and `'h1`.
    let metadata = AdtMetadataTable {
        table: vec![AdtMetadata {
            lifetime_params: vec![OriginParam::Hypothetical(0), OriginParam::Hypothetical(1)],
        }],
    };
    let generics = Generics {
        params: vec![GenericParam { name: "T".to_owned(), is_lifetime: false }],
        span: span(8, 11),
    };
    let field = FieldDef {
        ty: HirTy {
            kind: HirTyKind::Ptr(Box::new(prim_hir(u8_ty(), span(22, 24))), Mutability::Mut),
            span: span(17, 24),
        },
        lty: ptr_lty(Mutability::Mut, prim_lty(u8_ty()), 0),
        origin_args: OriginTree {
            label: vec![OriginArg::Hypothetical(0)],
            args: vec![OriginTree { label: vec![], args: vec![] }],
        },
    };
    let item = StructItem { adt: 0, generics, fields: vec![field] };
    let decl = FnDecl { inputs: vec![], output: None };
    let sig = FnSig { inputs: vec![], output: unit_lty() };
    let descs = vec![(Ownership::Imm, Quantity::Single)];
    let edits = gen_ty_rewrites(&decl, &sig, &vec![], &vec![], &vec![item], &descs, &metadata).unwrap();
    assert_eq!(edits.len(), 2);
    assert_eq!(edits[0].0, span(8, 11));
    match &edits[0].1 {
        Rewrite::TyParams(ps) => assert_eq!(ps.len(), 3),
        _ => panic!("expected a generic parameter list"),
    }
    assert_eq!(edits[0].1.to_string(), "<'h0, 'h1, T>");
    assert_eq!(edits[1].0, span(17, 24));
    assert_eq!(edits[1].1.to_string(), "&'h0 $0");
    let out = apply_rewrites(&chars("struct S<T> { p: *mut u8, t: T }"), 0, &edits).unwrap();
    assert_eq!(text(&out), "struct S<'h0, 'h1, T> { p: &'h0 u8, t: T }");
}

#[test]
fn aggregate_uses_are_reprinted_with_lifetimes() {
    // A parameter `s: S<i32>` of a struct of the program with one new lifetime.
    let metadata = AdtMetadataTable { table: vec![AdtMetadata { lifetime_params: vec![OriginParam::Hypothetical(0)] }] };
    let i32_ty = PrimTy::Int(IntTy::I32);
    let lty = LTy {
        kind: TyKind::Adt(AdtDef { path: "S".to_owned(), local: Some(0) }),
        args: vec![prim_lty(i32_ty)],
        label: None,
    };
    let hir = HirTy {
        kind: HirTyKind::Path(HirPath {
            res: Res::Def,
            args: Some(vec![GenericArg::Lifetime, GenericArg::Type(prim_hir(i32_ty, span(10, 13)))]),
        }),
        span: span(8, 14),
    };
    let rw = relabel_rewrites(&vec![], &lty, &metadata);
    let mut out = Vec::new();
    handle_ty(&rw, &hir, &metadata, &mut out).unwrap();
    assert_eq!(out.len(), 1);
    assert_eq!(out[0].0, span(8, 14));
    assert_eq!(out[0].1.to_string(), "S<'h0, $0>");
}

#[test]
fn written_shapes_are_matched() {
    let i32_ty = PrimTy::Int(IntTy::I32);
    let tup = HirTy {
        kind: HirTyKind::Tup(vec![prim_hir(i32_ty, span(1, 4)), prim_hir(u8_ty(), span(6, 8))]),
        span: span(0, 9),
    };
    assert_eq!(deconstruct_hir_ty(&TyKind::Tuple, 2, &tup).unwrap().len(), 2);
    assert!(deconstruct_hir_ty(&TyKind::Tuple, 3, &tup).is_none());
    let p = prim_hir(i32_ty, span(0, 3));
    assert_eq!(deconstruct_hir_ty(&TyKind::Prim(i32_ty), 0, &p).unwrap().len(), 0);
    assert!(deconstruct_hir_ty(&TyKind::Prim(u8_ty()), 0, &p).is_none());
    let ptr = HirTy { kind: HirTyKind::Ptr(Box::new(prim_hir(i32_ty, span(5, 8))), Mutability::Not), span: span(0, 8) };
    assert!(deconstruct_hir_ty(&TyKind::RawPtr(Mutability::Mut), 1, &ptr).is_none());
    let found = deconstruct_hir_ty(&TyKind::RawPtr(Mutability::Not), 1, &ptr).unwrap();
    assert_eq!(found[0].span, span(5, 8));
    let infer = HirTy { kind: HirTyKind::Infer, span: span(0, 1) };
    assert!(deconstruct_hir_ty(&TyKind::Slice, 1, &infer).is_none());
}

#[test]
fn local_types_are_printed_rewritten() {
    let i32_ty = PrimTy::Int(IntTy::I32);
    let locals = vec![
        LocalDecl { span: span(0, 1), lty: ptr_lty(Mutability::Not, prim_lty(i32_ty), 0) },
        LocalDecl {
            span: span(2, 3),
            lty: LTy {
                kind: TyKind::Tuple,
                args: vec![ptr_lty(Mutability::Mut, prim_lty(u8_ty()), 1), prim_lty(PrimTy::Bool)],
                label: None,
            },
        },
        LocalDecl { span: span(4, 5), lty: LTy { kind: TyKind::Array(4), args: vec![prim_lty(PrimTy::Char)], label: None } },
    ];
    let descs = vec![(Ownership::Imm, Quantity::Single), (Ownership::Cell, Quantity::Slice)];
    let tys = rewritten_local_tys(&locals, &descs, &no_adts()).unwrap();
    assert_eq!(tys, vec!["&i32", "(&[std::cell::Cell<u8>], bool)", "[char; 4]"]);
    let boxed = vec![LocalDecl { span: span(0, 1), lty: ptr_lty(Mutability::Mut, prim_lty(i32_ty), 0) }];
    let tys = rewritten_local_tys(&boxed, &vec![(Ownership::Box, Quantity::Single)], &no_adts()).unwrap();
    assert_eq!(tys, vec!["std::boxed::Box<i32>"]);
    let rw = relabel_rewrites(&descs, &locals[1].lty, &no_adts());
    assert_eq!(print_ty(&rw, false).unwrap(), "(*mut u8, bool)");
}

#[test]
fn struct_without_generics_gets_a_list() {
    // `struct S { p: *mut u8 }`: the empty generic list lies right after the name.
    let metadata = AdtMetadataTable { table: vec![AdtMetadata { lifetime_params: vec![OriginParam::Hypothetical(0)] }] };
    let field = FieldDef {
        ty: HirTy {
            kind: HirTyKind::Ptr(Box::new(prim_hir(u8_ty(), span(19, 21))), Mutability::Mut),
            span: span(14, 21),
        },
        lty: ptr_lty(Mutability::Mut, prim_lty(u8_ty()), 0),
        origin_args: OriginTree { label: vec![OriginArg::Hypothetical(0)], args: vec![] },
    };
    let item = StructItem { adt: 0, generics: Generics { params: vec![], span: span(8, 8) }, fields: vec![field] };
    let decl = FnDecl { inputs: vec![], output: None };
    let sig = FnSig { inputs: vec![], output: unit_lty() };
    let descs = vec![(Ownership::Mut, Quantity::Single)];
    let edits = gen_ty_rewrites(&decl, &sig, &vec![], &vec![], &vec![item], &descs, &metadata).unwrap();
    let out = apply_rewrites(&chars("struct S { p: *mut u8 }"), 0, &edits).unwrap();
    assert_eq!(text(&out), "struct S<'h0> { p: &'h0 mut u8 }");
}

#[test]
fn pointer_inside_aggregate_arguments_is_kept() {
    // `fn f(x: Foo<*mut u8>) {}` where `Foo` gains a lifetime and the pointer becomes `&mut`.
    let metadata = AdtMetadataTable { table: vec![AdtMetadata { lifetime_params: vec![OriginParam::Hypothetical(0)] }] };
    let decl = FnDecl {
        inputs: vec![HirTy {
            kind: HirTyKind::Path(HirPath {
                res: Res::Def,
                args: Some(vec![GenericArg::Type(HirTy {
                    kind: HirTyKind::Ptr(Box::new(prim_hir(u8_ty(), span(17, 19))), Mutability::Mut),
                    span: span(12, 19),
                })]),
            }),
            span: span(8, 20),
        }],
        output: None,
    };
    let foo = LTy {
        kind: TyKind::Adt(AdtDef { path: "Foo".to_owned(), local: Some(0) }),
        args: vec![ptr_lty(Mutability::Mut, prim_lty(u8_ty()), 0)],
        label: None,
    };
    let sig = FnSig { inputs: vec![foo], output: unit_lty() };
    let descs = vec![(Ownership::Mut, Quantity::Single)];
    let edits = gen_ty_rewrites(&decl, &sig, &vec![], &vec![], &vec![], &descs, &metadata).unwrap();
    assert_eq!(edits.len(), 2);
    assert_eq!(edits[0].1.to_string(), "Foo<'h0, $0>");
    let out = apply_rewrites(&chars("fn f(x: Foo<*mut u8>) {}"), 0, &edits).unwrap();
    assert_eq!(text(&out), "fn f(x: Foo<'h0, &mut u8>) {}");
}
