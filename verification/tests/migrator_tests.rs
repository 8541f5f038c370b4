use swc_common::DUMMY_SP;
use swc_ecma_ast::{
    Expr, Lit, Module, Pat, TsArrayType, TsKeywordType, TsKeywordTypeKind, TsType, TsTypeAnn,
    VarDeclarator,
};
use swc_ecma_visit::{Visit, VisitMut, VisitMutWith, VisitWith};

use js2ts_migrator::error::MigrateError;
use js2ts_migrator::migrator::{
    annotation_for, count_var_decls, infer_type, infer_var_types, parse_js_source, print_module,
    ts_type_from_name, Declarator, InitKind, TsTypeKind,
};
use js2ts_migrator::type_map::TypeMap;

fn init_kind(expr: &Expr) -> InitKind {
    match expr {
        Expr::Lit(Lit::Str(_)) => InitKind::Str,
        Expr::Lit(Lit::Num(_)) => InitKind::Num,
        Expr::Lit(Lit::Bool(_)) => InitKind::Bool,
        Expr::Tpl(_) => InitKind::Template,
        Expr::Array(_) => InitKind::Array,
        Expr::Object(_) => InitKind::Object,
        _ => InitKind::Other,
    }
}

fn declarator_of(decl: &VarDeclarator) -> Declarator {
    let (name, annotated) = match &decl.name {
        Pat::Ident(ident) => (Some(ident.id.sym.to_string()), ident.type_ann.is_some()),
        _ => (None, false),
    };
    Declarator { name, annotated, init: decl.init.as_deref().map(init_kind) }
}

struct Collector {
    decls: Vec<Declarator>,
}

impl Visit for Collector {
    fn visit_var_declarator(&mut self, decl: &VarDeclarator) {
        self.decls.push(declarator_of(decl));
        decl.visit_children_with(self);
    }
}

fn declarators(module: &Module) -> Vec<Declarator> {
    let mut collector = Collector { decls: Vec::new() };
    module.visit_with(&mut collector);
    collector.decls
}

fn ts_type(kind: TsTypeKind) -> TsType {
    let keyword = |kind| TsType::TsKeywordType(TsKeywordType { span: DUMMY_SP, kind });
    match kind {
        TsTypeKind::StringKeyword => keyword(TsKeywordTypeKind::TsStringKeyword),
        TsTypeKind::NumberKeyword => keyword(TsKeywordTypeKind::TsNumberKeyword),
        TsTypeKind::BooleanKeyword => keyword(TsKeywordTypeKind::TsBooleanKeyword),
        TsTypeKind::ObjectKeyword => keyword(TsKeywordTypeKind::TsObjectKeyword),
        TsTypeKind::AnyArray => TsType::TsArrayType(TsArrayType {
            span: DUMMY_SP,
            elem_type: Box::new(keyword(TsKeywordTypeKind::TsAnyKeyword)),
        }),
        TsTypeKind::AnyKeyword => keyword(TsKeywordTypeKind::TsAnyKeyword),
    }
}

struct Annotator<'a> {
    types: &'a TypeMap,
}

impl VisitMut for Annotator<'_> {
    fn visit_mut_var_declarator(&mut self, decl: &mut VarDeclarator) {
        decl.visit_mut_children_with(self);
        let info = declarator_of(decl);
        if let Some(kind) = annotation_for(&info, self.types) {
            if let Pat::Ident(ident) = &mut decl.name {
                ident.type_ann = Some(Box::new(TsTypeAnn { span: DUMMY_SP, type_ann: Box::new(ts_type(kind)) }));
            }
        }
    }
}

fn generate_ts(mut module: Module, types: &TypeMap) -> String {
    module.visit_mut_with(&mut Annotator { types });
    print_module(&module)
}

fn types_of(source: &str) -> TypeMap {
    let module = parse_js_source(source, "test.js").expect("parse");
    infer_var_types(&declarators(&module))
}

fn named(name: &str, init: Option<InitKind>) -> Declarator {
    Declarator { name: Some(name.to_string()), annotated: false, init }
}

#[test]
fn infer_types_and_count_vars() {
    let source = "const a = 1; let b = 'x'; var c = true; const {d} = obj;";
    let module = parse_js_source(source, "test.js").expect("parse");
    let decls = declarators(&module);
    let types = infer_var_types(&decls);
    assert_eq!(types.get("a").map(String::as_str), Some("number"));
    assert_eq!(types.get("b").map(String::as_str), Some("string"));
    assert_eq!(types.get("c").map(String::as_str), Some("boolean"));
    assert_eq!(count_var_decls(&decls), 3);
}

#[test]
fn generate_ts_adds_type_annotations() {
    let source = "let a = 1; const b = 'x';";
    let module = parse_js_source(source, "test.js").expect("parse");
    let types = infer_var_types(&declarators(&module));
    let output = generate_ts(module, &types);
    assert!(output.contains("let a: number = 1"));
    assert!(output.contains("const b: string ="));
}

#[test]
fn generate_ts_annotates_every_kind() {
    let source = "let s = `t`; let n = [1]; let o = {}; let u = f(); let w;";
    let module = parse_js_source(source, "test.jsx").expect("parse");
    let types = infer_var_types(&declarators(&module));
    let output = generate_ts(module, &types);
    assert!(output.contains("let s: string ="), "{}", output);
    assert!(output.contains("let n: any[] ="), "{}", output);
    assert!(output.contains("let o: object ="), "{}", output);
    assert!(output.contains("let u: any ="), "{}", output);
    assert!(output.contains("let w: any;"), "{}", output);
}

#[test]
fn nested_declarations_are_annotated() {
    let source = "function f() { let inner = true; return inner; }";
    let module = parse_js_source(source, "test.js").expect("parse");
    let types = infer_var_types(&declarators(&module));
    assert_eq!(types.get("inner").map(String::as_str), Some("boolean"));
    let output = generate_ts(module, &types);
    assert!(output.contains("let inner: boolean = true"), "{}", output);
}

#[test]
fn later_declaration_of_a_name_wins() {
    let types = types_of("var a = 1; var a = 'x';");
    assert_eq!(types.get("a").map(String::as_str), Some("string"));
    assert_eq!(types.len(), 1);
    let types = types_of("var a = 1; var a = g();");
    assert_eq!(types.get("a").map(String::as_str), Some("number"));
}

#[test]
fn parse_errors_are_reported() {
    match parse_js_source("let = ;", "bad.js") {
        Err(e) => assert_eq!(e, MigrateError::ParseFailed),
        Ok(_) => panic!("expected a parse error"),
    }
    assert_eq!(MigrateError::ParseFailed.message(), "failed to parse JavaScript source");
}

#[test]
fn infers_from_initializer_kinds() {
    assert_eq!(infer_type(InitKind::Str), Some("string"));
    assert_eq!(infer_type(InitKind::Num), Some("number"));
    assert_eq!(infer_type(InitKind::Bool), Some("boolean"));
    assert_eq!(infer_type(InitKind::Template), Some("string"));
    assert_eq!(infer_type(InitKind::Array), Some("array"));
    assert_eq!(infer_type(InitKind::Object), Some("object"));
    assert_eq!(infer_type(InitKind::Other), None);
}

#[test]
fn maps_type_names_to_typescript() {
    assert_eq!(ts_type_from_name("string"), TsTypeKind::StringKeyword);
    assert_eq!(ts_type_from_name("number"), TsTypeKind::NumberKeyword);
    assert_eq!(ts_type_from_name("boolean"), TsTypeKind::BooleanKeyword);
    assert_eq!(ts_type_from_name("object"), TsTypeKind::ObjectKeyword);
    assert_eq!(ts_type_from_name("array"), TsTypeKind::AnyArray);
    assert_eq!(ts_type_from_name("any"), TsTypeKind::AnyKeyword);
    assert_eq!(ts_type_from_name("String"), TsTypeKind::AnyKeyword);
    assert_eq!(ts_type_from_name(""), TsTypeKind::AnyKeyword);
}

#[test]
fn annotation_choices() {
    let decls = vec![
        named("a", Some(InitKind::Num)),
        named("b", Some(InitKind::Other)),
        named("c", None),
        Declarator { name: None, annotated: false, init: Some(InitKind::Str) },
        Declarator { name: Some("d".to_string()), annotated: true, init: Some(InitKind::Str) },
        named("a", Some(InitKind::Str)),
    ];
    let types = infer_var_types(&decls);
    assert_eq!(count_var_decls(&decls), 5);
    assert_eq!(types.len(), 2);
    assert_eq!(types.get("d").map(String::as_str), Some("string"));
    // the later declaration of `a` decides the type of both
    assert_eq!(annotation_for(&decls[0], &types), Some(TsTypeKind::StringKeyword));
    assert_eq!(annotation_for(&decls[5], &types), Some(TsTypeKind::StringKeyword));
    assert_eq!(annotation_for(&decls[1], &types), Some(TsTypeKind::AnyKeyword));
    assert_eq!(annotation_for(&decls[2], &types), Some(TsTypeKind::AnyKeyword));
    assert_eq!(annotation_for(&decls[3], &types), None);
    assert_eq!(annotation_for(&decls[4], &types), None);
    // a name missing from the map falls back to the declarator's own initializer
    let empty = TypeMap::new();
    assert_eq!(annotation_for(&named("z", Some(InitKind::Array)), &empty), Some(TsTypeKind::AnyArray));
}

#[test]
fn type_map_get_after_insert() {
    let mut m = TypeMap::new();
    assert_eq!(m.len(), 0);
    assert_eq!(m.get("k"), None);
    m.insert("k".to_string(), "number".to_string());
    m.insert("j".to_string(), "string".to_string());
    assert_eq!(m.get("k").map(String::as_str), Some("number"));
    m.insert("k".to_string(), "object".to_string());
    assert_eq!(m.get("k").map(String::as_str), Some("object"));
    assert_eq!(m.get("j").map(String::as_str), Some("string"));
    assert_eq!(m.len(), 2);
}

#[test]
fn map_entries_override_the_initializer() {
    let module = parse_js_source("let a = 1; let c; let e = f(); let n = -1;", "t.js").expect("parse");
    let mut types = TypeMap::new();
    types.insert("a".to_string(), "string".to_string());
    let output = generate_ts(module, &types);
    assert!(output.contains("let a: string = 1"), "{}", output);
    assert!(output.contains("c: any"), "{}", output);
    assert!(output.contains("e: any = f()"), "{}", output);
    assert!(output.contains("n: any = -1"), "{}", output);
}

#[test]
fn printing_is_deterministic() {
    let source = "const q = {a: 1}; let r = [];";
    let m1 = parse_js_source(source, "a.js").expect("parse");
    let m2 = parse_js_source(source, "b.js").expect("parse");
    assert_eq!(print_module(&m1), print_module(&m2));
}

#[test]
fn default_export_from_is_not_parsed() {
    // the emitter cannot print `export v from "m"`, and the parser refuses it
    assert!(parse_js_source("export v from \"m\";", "t.js").is_err());
    let module = parse_js_source("export { v } from \"m\";", "t.js").expect("parse");
    assert!(print_module(&module).contains("export { v } from \"m\""));
}
