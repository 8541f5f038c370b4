//! JavaScript to TypeScript migration: parsing a module, inferring the types
//! of variables from their initializers, choosing the annotation of each
//! declarator, and printing the module back as code.
//!
//! The syntax tree is the `swc` one and stays opaque here; the migrator reads
//! each variable declarator through a [`Declarator`], which holds what the
//! inference looks at.
use vstd::prelude::*;

use swc_common::sync::Lrc;
use swc_common::{FileName, SourceMap};
use swc_ecma_ast::Module;
use swc_ecma_codegen::text_writer::JsWriter;
use swc_ecma_codegen::{Config, Emitter};
use swc_ecma_parser::{EsSyntax, Parser, StringInput, Syntax};
use vstd::utf8::{decode_utf8, valid_utf8};

use crate::error::MigrateError;
use crate::text::same_text;
use crate::type_map::TypeMap;

verus! {

#[verifier::external_type_specification]
#[verifier::external_body]
pub struct ExModule(swc_ecma_ast::Module);

#[verifier::external_type_specification]
#[verifier::external_body]
pub struct ExParseError(swc_ecma_parser::error::Error);

/// What kind of expression initializes a variable, as far as inference reads it.
#[derive(Debug, Clone, Copy, PartialEq, Eq, Structural)]
pub enum InitKind {
    /// A string literal.
    Str,
    /// A number literal.
    Num,
    /// A boolean literal.
    Bool,
    /// A template literal.
    Template,
    /// An array literal.
    Array,
    /// An object literal.
    Object,
    /// Any other expression.
    Other,
}

/// A variable declarator, as the migrator reads it.
#[derive(Debug)]
pub struct Declarator {
    /// The declared name, when the declarator binds a plain identifier (not a
    /// destructuring pattern).
    pub name: Option<String>,
    /// The identifier already carries a type annotation.
    pub annotated: bool,
    /// The kind of the initializer, when there is one.
    pub init: Option<InitKind>,
}

/// A TypeScript type that the migrator writes as an annotation.
#[derive(Debug, Clone, Copy, PartialEq, Eq, Structural)]
pub enum TsTypeKind {
    /// `string`
    StringKeyword,
    /// `number`
    NumberKeyword,
    /// `boolean`
    BooleanKeyword,
    /// `object`
    ObjectKeyword,
    /// `any[]`
    AnyArray,
    /// `any`
    AnyKeyword,
}

/// The type name inferred from an initializer kind, if any.
pub open spec fn inferred_type_name(kind: InitKind) -> Option<Seq<char>> {
    match kind {
        InitKind::Str => Some("string"@),
        InitKind::Num => Some("number"@),
        InitKind::Bool => Some("boolean"@),
        InitKind::Template => Some("string"@),
        InitKind::Array => Some("array"@),
        InitKind::Object => Some("object"@),
        InitKind::Other => None,
    }
}

/// The type name inferred for a declarator from its initializer, if any.
pub open spec fn declarator_type_name(d: Declarator) -> Option<Seq<char>> {
    match d.init {
        Some(k) => inferred_type_name(k),
        None => None,
    }
}

/// The type names inferred from a sequence of declarators, in order: each
/// named declarator with an inferable initializer sets the type of its name,
/// so a later declarator of the same name overrides an earlier one.
pub open spec fn inferred_types(ds: Seq<Declarator>) -> Map<Seq<char>, Seq<char>>
    decreases ds.len(),
{
    if ds.len() == 0 {
        Map::empty()
    } else {
        let m = inferred_types(ds.drop_last());
        let d = ds.last();
        match (d.name, declarator_type_name(d)) {
            (Some(n), Some(t)) => m.insert(n@, t),
            _ => m,
        }
    }
}

/// The number of declarators that bind a plain identifier.
pub open spec fn named_count(ds: Seq<Declarator>) -> nat
    decreases ds.len(),
{
    if ds.len() == 0 {
        0
    } else {
        named_count(ds.drop_last()) + if ds.last().name is Some {
            1nat
        } else {
            0nat
        }
    }
}

/// Counting is by name alone: a declarator that binds a plain identifier adds
/// exactly one to the count, whatever its initializer or annotation, and any
/// other declarator adds nothing.
pub proof fn lemma_named_count_push(ds: Seq<Declarator>, d: Declarator)
    ensures
        named_count(ds.push(d)) == named_count(ds) + if d.name is Some {
            1int
        } else {
            0int
        },
{
    assert(ds.push(d).drop_last() =~= ds);
}

/// The count is the number of declarators that bind a plain identifier.
pub proof fn lemma_named_count_is_identifier_count(ds: Seq<Declarator>)
    ensures
        named_count(ds) == ds.filter(|x: Declarator| x.name is Some).len(),
    decreases ds.len(),
{
    reveal(Seq::filter);
    let pred = |x: Declarator| x.name is Some;
    if ds.len() > 0 {
        lemma_named_count_is_identifier_count(ds.drop_last());
        assert(ds.filter(pred) == if pred(ds.last()) {
            ds.drop_last().filter(pred).push(ds.last())
        } else {
            ds.drop_last().filter(pred)
        });
    } else {
        assert(ds.filter(pred) == ds);
    }
}

/// The TypeScript type written for a type name; unknown names give `any`.
pub open spec fn ts_type_of(name: Seq<char>) -> TsTypeKind {
    if name == "string"@ {
        TsTypeKind::StringKeyword
    } else if name == "number"@ {
        TsTypeKind::NumberKeyword
    } else if name == "boolean"@ {
        TsTypeKind::BooleanKeyword
    } else if name == "object"@ {
        TsTypeKind::ObjectKeyword
    } else if name == "array"@ {
        TsTypeKind::AnyArray
    } else {
        TsTypeKind::AnyKeyword
    }
}

/// The type name chosen for a named declarator: the one in `types` for its
/// name, else the one inferred from its own initializer, else `any`.
pub open spec fn chosen_type_name(d: Declarator, types: Map<Seq<char>, Seq<char>>) -> Seq<char> {
    let n = d.name->0@;
    if types.contains_key(n) {
        types[n]
    } else {
        match declarator_type_name(d) {
            Some(t) => t,
            None => "any"@,
        }
    }
}

/// The annotation written on a declarator: none unless it binds a plain
/// identifier that has no annotation yet.
pub open spec fn planned_annotation(d: Declarator, types: Map<Seq<char>, Seq<char>>) -> Option<
    TsTypeKind,
> {
    match d.name {
        Some(_) => if d.annotated {
            None
        } else {
            Some(ts_type_of(chosen_type_name(d, types)))
        },
        None => None,
    }
}

/// The type name inferred from an initializer kind: string, number and boolean
/// literals, template literals (string), array and object literals.
pub fn infer_type(kind: InitKind) -> (r: Option<&'static str>)
    ensures
        match r {
            Some(t) => inferred_type_name(kind) == Some(t@),
            None => inferred_type_name(kind) is None,
        },
{
    match kind {
        InitKind::Str => Some("string"),
        InitKind::Num => Some("number"),
        InitKind::Bool => Some("boolean"),
        InitKind::Template => Some("string"),
        InitKind::Array => Some("array"),
        InitKind::Object => Some("object"),
        InitKind::Other => None,
    }
}

/// The TypeScript type for a type name; unknown names give `any`.
pub fn ts_type_from_name(name: &str) -> (r: TsTypeKind)
    ensures
        r == ts_type_of(name@),
{
    if same_text(name, "string") {
        TsTypeKind::StringKeyword
    } else if same_text(name, "number") {
        TsTypeKind::NumberKeyword
    } else if same_text(name, "boolean") {
        TsTypeKind::BooleanKeyword
    } else if same_text(name, "object") {
        TsTypeKind::ObjectKeyword
    } else if same_text(name, "array") {
        TsTypeKind::AnyArray
    } else {
        TsTypeKind::AnyKeyword
    }
}

/// The types of the variables declared by `decls` (in the order the module
/// declares them): for each name, the type inferred from the initializer of
/// its last declarator that has an inferable one.
pub fn infer_var_types(decls: &Vec<Declarator>) -> (types: TypeMap)
    ensures
        types@ == inferred_types(decls@),
{
    let mut types = TypeMap::new();
    let n = decls.len();
    let mut i: usize = 0;
    while i < n
        invariant
            n == decls@.len(),
            i <= n,
            types@ == inferred_types(decls@.take(i as int)),
        decreases n - i,
    {
        let d = &decls[i];
        proof {
            let t = decls@.take(i as int + 1);
            assert(t.drop_last() =~= decls@.take(i as int));
            assert(t.last() == decls@[i as int]);
        }
        match &d.name {
            Some(name) => match d.init {
                Some(kind) => match infer_type(kind) {
                    Some(ty) => {
                        types.insert(name.clone(), ty.to_owned());
                    },
                    None => {},
                },
                None => {},
            },
            None => {},
        }
        i = i + 1;
    }
    proof {
        assert(decls@.take(n as int) =~= decls@);
    }
    types
}

/// The number of declarators in `decls` that bind a plain identifier.
pub fn count_var_decls(decls: &Vec<Declarator>) -> (count: usize)
    ensures
        count == named_count(decls@),
{
    let n = decls.len();
    let mut count: usize = 0;
    let mut i: usize = 0;
    while i < n
        invariant
            n == decls@.len(),
            i <= n,
            count == named_count(decls@.take(i as int)),
            count <= i,
        decreases n - i,
    {
        proof {
            let t = decls@.take(i as int + 1);
            assert(t.drop_last() =~= decls@.take(i as int));
            assert(t.last() == decls@[i as int]);
        }
        if decls[i].name.is_some() {
            count = count + 1;
        }
        i = i + 1;
    }
    proof {
        assert(decls@.take(n as int) =~= decls@);
    }
    count
}

/// The annotation to write on `decl`: for an unannotated plain identifier, the
/// type that `types` holds for its name, else the one inferred from its own
/// initializer, else `any`; nothing otherwise.
pub fn annotation_for(decl: &Declarator, types: &TypeMap) -> (r: Option<TsTypeKind>)
    ensures
        r == planned_annotation(*decl, types@),
{
    match &decl.name {
        Some(name) => {
            if decl.annotated {
                None
            } else {
                let ty = match types.get(name.as_str()) {
                    Some(t) => ts_type_from_name(t.as_str()),
                    None => match decl.init {
                        Some(kind) => match infer_type(kind) {
                            Some(t) => ts_type_from_name(t),
                            None => ts_type_from_name("any"),
                        },
                        None => ts_type_from_name("any"),
                    },
                };
                Some(ty)
            }
        },
        None => None,
    }
}

/// Whether parsing `source` as an ECMAScript module (with JSX) succeeds.
pub uninterp spec fn module_parses(source: Seq<char>, file_name: Seq<char>) -> bool;

/// The syntax tree that parsing `source` as an ECMAScript module (with JSX) gives.
pub uninterp spec fn parsed_module(source: Seq<char>, file_name: Seq<char>) -> Module;

/// The tree holds no node whose printing swc's emitter leaves unimplemented:
/// no default export specifier (`export v from "m"`).
pub uninterp spec fn emittable(module: Module) -> bool;

/// Calls `swc_ecma_parser::Parser::parse_module` on `source` (registered
/// under `file_name` in a fresh source map, with JSX enabled and the
/// `export v from` proposal off). The contract claims that whether it succeeds
/// (named `module_parses`) and the tree it gives (named `parsed_module`) are
/// functions of the two texts, and that the tree is `emittable`: without that
/// proposal the parser never builds a default export specifier.
#[verifier::external_body]
fn parse_module(source: &str, file_name: &str) -> (r: Result<
    Module,
    swc_ecma_parser::error::Error,
>)
    ensures
        r is Ok == module_parses(source@, file_name@),
        r matches Ok(m) ==> m == parsed_module(source@, file_name@),
        r matches Ok(m) ==> emittable(m),
{
    let cm: Lrc<SourceMap> = Default::default();
    let fm = cm.new_source_file(Lrc::new(FileName::Custom(file_name.to_string())), source.to_string());
    let syntax = Syntax::Es(EsSyntax { jsx: true, ..Default::default() });
    let mut parser = Parser::new(syntax, StringInput::from(&*fm), None);
    parser.parse_module()
}

/// Parses `source` (named `file_name` in messages) as an ECMAScript module
/// with JSX; fails with `ParseFailed` exactly when the parser rejects it, and
/// otherwise gives the parser's tree, which the emitter can print.
pub fn parse_js_source(source: &str, file_name: &str) -> (r: Result<Module, MigrateError>)
    ensures
        r is Ok == module_parses(source@, file_name@),
        r matches Ok(m) ==> m == parsed_module(source@, file_name@),
        r matches Ok(m) ==> emittable(m),
        r is Err ==> r->Err_0 == MigrateError::ParseFailed,
{
    match parse_module(source, file_name) {
        Ok(module) => Ok(module),
        Err(_) => Err(MigrateError::ParseFailed),
    }
}

/// The bytes that the emitter writes for a module.
pub uninterp spec fn emitted_code(module: Module) -> Seq<u8>;

/// Calls `swc_ecma_codegen::Emitter::emit_module` with the default
/// configuration, `\n` line ends and an empty source map, into a byte buffer,
/// ignoring an emit error as the migrator does. The contract claims that the
/// bytes are a function of the syntax tree alone (named `emitted_code`):
/// the configuration is fixed and the writer is an in-memory buffer. It asks
/// for an `emittable` tree: on a default export specifier swc panics
/// (`unimplemented!`).
#[verifier::external_body]
fn emit_module_bytes(module: &Module) -> (r: Vec<u8>)
    requires
        emittable(*module),
    ensures
        r@ == emitted_code(*module),
{
    let cm: Lrc<SourceMap> = Default::default();
    let mut buf = Vec::new();
    {
        let mut emitter = Emitter {
            cfg: Config::default(),
            comments: None,
            cm: cm.clone(),
            wr: JsWriter::new(cm, "\n", &mut buf, None),
        };
        let _ = emitter.emit_module(module);
    }
    buf
}

/// Calls `String::from_utf8`. The contract claims what its documentation
/// says: it succeeds exactly on valid UTF-8, with the decoded text.
#[verifier::external_body]
pub(crate) fn string_from_utf8(bytes: Vec<u8>) -> (r: Option<String>)
    ensures
        match r {
            Some(s) => valid_utf8(bytes@) && s@ == decode_utf8(bytes@),
            None => !valid_utf8(bytes@),
        },
{
    String::from_utf8(bytes).ok()
}

/// The text of generated code: its bytes decoded as UTF-8, or the empty text
/// when they are not UTF-8.
pub open spec fn code_text_of(bytes: Seq<u8>) -> Seq<char> {
    if valid_utf8(bytes) {
        decode_utf8(bytes)
    } else {
        Seq::<char>::empty()
    }
}

/// Decodes generated code; bytes that are not UTF-8 give the empty text.
pub fn code_text(bytes: Vec<u8>) -> (r: String)
    ensures
        r@ == code_text_of(bytes@),
{
    match string_from_utf8(bytes) {
        Some(s) => s,
        None => String::new(),
    }
}

/// Prints `module` as code; the result is the UTF-8 text of what the emitter
/// writes for it, or empty if that were not UTF-8. The tree must be one the
/// emitter can print, as every tree from `parse_js_source` is.
pub fn print_module(module: &Module) -> (r: String)
    requires
        emittable(*module),
    ensures
        r@ == code_text_of(emitted_code(*module)),
{
    let bytes = emit_module_bytes(module);
    code_text(bytes)
}

/// The type inferred for the name `n` by the last declarator of that name
/// with an inferable initializer.
pub open spec fn last_inferred(ds: Seq<Declarator>, n: Seq<char>) -> Option<Seq<char>>
    decreases ds.len(),
{
    if ds.len() == 0 {
        None
    } else {
        let d = ds.last();
        match (d.name, declarator_type_name(d)) {
            (Some(m), Some(t)) => if m@ == n {
                Some(t)
            } else {
                last_inferred(ds.drop_last(), n)
            },
            _ => last_inferred(ds.drop_last(), n),
        }
    }
}

/// The inferred types hold, for each name, the type of its last declarator
/// that has an inferable initializer, and no other names.
pub proof fn lemma_inferred_types_last_wins(ds: Seq<Declarator>, n: Seq<char>)
    ensures
        inferred_types(ds).contains_key(n) == last_inferred(ds, n) is Some,
        last_inferred(ds, n) matches Some(t) ==> inferred_types(ds)[n] == t,
    decreases ds.len(),
{
    if ds.len() > 0 {
        lemma_inferred_types_last_wins(ds.drop_last(), n);
    }
}

/// A name declared only once, with an inferable initializer, gets the type
/// inferred from that initializer.
pub proof fn lemma_single_declaration_type(ds: Seq<Declarator>, j: int)
    requires
        0 <= j < ds.len(),
        ds[j].name is Some,
        declarator_type_name(ds[j]) is Some,
        forall|i: int|
            0 <= i < ds.len() && i != j ==> !((#[trigger] ds[i]).name matches Some(m) && m@
                == ds[j].name->0@),
    ensures
        last_inferred(ds, ds[j].name->0@) == declarator_type_name(ds[j]),
    decreases ds.len(),
{
    let n = ds[j].name->0@;
    if j < ds.len() - 1 {
        let d = ds.drop_last();
        assert forall|i: int|
            0 <= i < d.len() && i != j implies !((#[trigger] d[i]).name matches Some(m) && m@
                == d[j].name->0@) by {
            assert(d[i] == ds[i]);
            assert(d[j] == ds[j]);
        }
        lemma_single_declaration_type(d, j);
        assert(ds.last() == ds[ds.len() - 1]);
        assert(d[j] == ds[j]);
    } else {
        assert(ds.last() == ds[j]);
    }
}

/// The annotation written on an unannotated identifier of a module is the
/// type of the last declarator of its name that has an inferable initializer,
/// and falls back to its own initializer or `any` only when there is none.
pub proof fn lemma_annotation_follows_module_types(ds: Seq<Declarator>, d: Declarator)
    requires
        d.name is Some,
        !d.annotated,
    ensures
        planned_annotation(d, inferred_types(ds)) == Some(
            ts_type_of(
                match last_inferred(ds, d.name->0@) {
                    Some(t) => t,
                    None => match declarator_type_name(d) {
                        Some(t) => t,
                        None => "any"@,
                    },
                },
            ),
        ),
{
    lemma_inferred_types_last_wins(ds, d.name->0@);
}

/// An identifier declared once in a module, with an inferable initializer
/// and no annotation, is annotated with the type inferred from that
/// initializer.
pub proof fn lemma_single_declaration_annotation(ds: Seq<Declarator>, j: int)
    requires
        0 <= j < ds.len(),
        ds[j].name is Some,
        !ds[j].annotated,
        declarator_type_name(ds[j]) is Some,
        forall|i: int|
            0 <= i < ds.len() && i != j ==> !((#[trigger] ds[i]).name matches Some(m) && m@
                == ds[j].name->0@),
    ensures
        planned_annotation(ds[j], inferred_types(ds)) == Some(
            ts_type_of(declarator_type_name(ds[j])->0),
        ),
{
    lemma_single_declaration_type(ds, j);
    lemma_annotation_follows_module_types(ds, ds[j]);
}

/// An identifier that already has an annotation is never annotated again, so
/// annotating a module a second time changes nothing.
pub proof fn lemma_annotated_stays(d: Declarator, types: Map<Seq<char>, Seq<char>>)
    requires
        d.annotated,
    ensures
        planned_annotation(d, types) is None,
{
}

} // verus!
