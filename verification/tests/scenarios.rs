use semantic::diagnostics::{Diagnostic, ExtractError};
use semantic::entity::{CandidateEntity, Entity, EntityKind, Modifiers, RelationshipEdge, RelationshipKind};
use semantic::linker::link;
use semantic::pipeline::{extract, Extraction};
use semantic::span::Span;
use semantic::syntax::Language;

const SHAPES: &str = "// 结构体定义
struct Point {
    x: i32,
    y: i32,
}

// Trait 定义
trait Shape {
    fn area(&self) -> i32;
}

// Impl 块
impl Point {
    fn new(x: i32, y: i32) -> Self {
        Point { x, y }
    }
}

impl Shape for Point {
    fn area(&self) -> i32 {
        self.x * self.y
    }
}

// 函数定义
fn calculate_sum(a: i32, b: i32) -> i32 {
    a + b
}

// Module 定义
mod utils {
    pub fn helper() -> i32 {
        42
    }
}

fn main() {
    let p = Point::new(10, 20);
    println!(\"Area: {}\", p.area());
}
";

const ACCOUNTS: &str = "// Rust 测试文件 - 包含结构体、trait、impl、函数

struct User {
    id: u64,
    name: String,
    email: String,
}

impl User {
    fn new(id: u64, name: String, email: String) -> Self {
        Self { id, name, email }
    }

    fn authenticate(&self, password: &str) -> bool {
        self.check_password(password)
    }

    fn check_password(&self, password: &str) -> bool {
        !password.is_empty()
    }
}

trait UserService {
    fn get_user(&self, id: u64) -> Option<User>;
    fn create_user(&mut self, user: User) -> Result<(), Error>;
}

struct UserServiceImpl {
    users: Vec<User>,
}

impl UserService for UserServiceImpl {
    fn get_user(&self, id: u64) -> Option<User> {
        self.users.iter().find(|u| u.id == id).cloned()
    }

    fn create_user(&mut self, user: User) -> Result<(), Error> {
        self.users.push(user);
        Ok(())
    }
}

#[derive(Debug)]
enum Error {
    NotFound,
    InvalidInput,
}

pub async fn fetch_user(id: u64) -> Result<User, Error> {
    // 异步获取用户
    Err(Error::NotFound)
}

pub fn create_session(user: &User) -> Session {
    Session::new(user.id)
}

struct Session {
    user_id: u64,
    created_at: std::time::Instant,
}

impl Session {
    fn new(user_id: u64) -> Self {
        Self {
            user_id,
            created_at: std::time::Instant::now(),
        }
    }

    fn is_valid(&self) -> bool {
        self.created_at.elapsed() < std::time::Duration::from_secs(86400)
    }
}
";

fn run(source: &str) -> Extraction {
    match extract(source.as_bytes(), Language::Rust) {
        Ok(x) => x,
        Err(e) => panic!("extraction failed: {:?}", e),
    }
}

fn text(bytes: &[u8]) -> String {
    String::from_utf8_lossy(bytes).into_owned()
}

fn summary(e: &Entity) -> (EntityKind, String, usize) {
    (e.kind, text(&e.name), e.depth)
}

fn position(x: &Extraction, kind: EntityKind, name: &str) -> usize {
    let entities = x.table.entities();
    for i in 0..entities.len() {
        if entities[i].kind == kind && entities[i].name == name.as_bytes() {
            return i;
        }
    }
    panic!("no {:?} named {}", kind, name)
}

fn implements(from: usize, to: usize) -> RelationshipEdge {
    RelationshipEdge { kind: RelationshipKind::Implements, from, to }
}

fn contains(from: usize, to: usize) -> RelationshipEdge {
    RelationshipEdge { kind: RelationshipKind::Contains, from, to }
}

fn method(from: usize, to: usize) -> RelationshipEdge {
    RelationshipEdge { kind: RelationshipKind::DeclaresMethodOf, from, to }
}

#[test]
fn struct_trait_and_implementation_give_three_entities_and_two_edges() {
    let x = run(
        "struct Point { x: i32, y: i32 }\ntrait Shape { fn area(&self) -> i32; }\nimpl Shape for Point { ... }",
    );
    let entities = x.table.entities();
    assert_eq!(entities.len(), 3);
    assert_eq!(summary(&entities[0]), (EntityKind::Type, "Point".to_string(), 0));
    assert_eq!(summary(&entities[1]), (EntityKind::Trait, "Shape".to_string(), 0));
    assert_eq!(entities[2].kind, EntityKind::Implementation);
    assert!(!entities[2].unresolved_target);
    assert!(!entities[2].unresolved_interface);
    let edges = x.table.edges();
    assert_eq!(edges.len(), 2);
    assert_eq!(edges[0], implements(2, 0));
    assert_eq!(edges[1], implements(2, 1));
}

#[test]
fn implementation_with_empty_body_gives_the_same_edges_and_no_diagnostic() {
    let x = run("struct Point { x: i32, y: i32 }\ntrait Shape { fn area(&self) -> i32; }\nimpl Shape for Point {}");
    assert_eq!(x.table.entities().len(), 3);
    assert_eq!(x.table.edges().clone(), vec![implements(2, 0), implements(2, 1)]);
    assert!(x.diagnostics.is_empty());
}

#[test]
fn elided_body_is_reported_as_a_syntax_error_and_skipped() {
    let source = "impl Shape for Point { ... }";
    let x = run(source);
    assert_eq!(x.table.entities().len(), 1);
    assert_eq!(x.diagnostics[0], Diagnostic::SyntaxError { span: Span { start: 23, end: 26 } });
}

#[test]
fn async_function_is_tagged_and_otherwise_the_same() {
    let a = run("async fn fetch(id: u64) -> u64 { id }");
    let s = run("fn fetch(id: u64) -> u64 { id }");
    let a = &a.table.entities()[0];
    let s = &s.table.entities()[0];
    assert!(a.modifiers.is_async);
    assert!(!s.modifiers.is_async);
    assert_eq!(a.modifiers.public, s.modifiers.public);
    assert_eq!(a.modifiers.mutable_self, s.modifiers.mutable_self);
    assert_eq!(a.modifiers.is_static, s.modifiers.is_static);
    assert_eq!(a.kind, EntityKind::Function);
    assert_eq!(a.kind, s.kind);
    assert_eq!(a.name, s.name);
    assert_eq!(a.signature, s.signature);
    assert_eq!(a.qualified_path, s.qualified_path);
    assert_eq!(a.depth, s.depth);
    assert_eq!(a.identifier, s.identifier);
    assert_eq!(text(&a.identifier), "fetch#function#fn fetch(id:u64)->u64");
}

#[test]
fn implementation_of_an_undeclared_type_is_kept_and_marked() {
    let x = run("impl Display for Missing {}");
    let entities = x.table.entities();
    assert_eq!(entities.len(), 1);
    assert_eq!(entities[0].kind, EntityKind::Implementation);
    assert_eq!(text(&entities[0].name), "Missing");
    assert!(entities[0].unresolved_target);
    assert!(entities[0].unresolved_interface);
    assert!(x.table.edges().is_empty());
    let span = Span { start: 0, end: 27 };
    assert_eq!(
        x.diagnostics,
        vec![
            Diagnostic::UnresolvedRelationship { span, missing: EntityKind::Type },
            Diagnostic::UnresolvedRelationship { span, missing: EntityKind::Trait },
        ]
    );
}

#[test]
fn type_declared_in_another_scope_does_not_resolve() {
    let x = run("mod a { struct T; }\ntrait S {}\nimpl S for T {}");
    let i = position(&x, EntityKind::Implementation, "T");
    let entities = x.table.entities();
    assert!(entities[i].unresolved_target);
    assert!(!entities[i].unresolved_interface);
    let s = position(&x, EntityKind::Trait, "S");
    assert_eq!(x.table.edges_from(&entities[i].identifier), vec![implements(i, s)]);
}

#[test]
fn shapes_unit_is_extracted_in_full() {
    let x = run(SHAPES);
    let entities = x.table.entities();
    let got: Vec<(EntityKind, String, usize)> = entities.iter().map(summary).collect();
    let want = vec![
        (EntityKind::Type, "Point".to_string(), 0),
        (EntityKind::Trait, "Shape".to_string(), 0),
        (EntityKind::Implementation, "Point".to_string(), 0),
        (EntityKind::Function, "new".to_string(), 1),
        (EntityKind::Implementation, "Point".to_string(), 0),
        (EntityKind::Function, "area".to_string(), 1),
        (EntityKind::Function, "calculate_sum".to_string(), 0),
        (EntityKind::Module, "utils".to_string(), 0),
        (EntityKind::Function, "helper".to_string(), 1),
        (EntityKind::Function, "main".to_string(), 0),
    ];
    assert_eq!(got, want);
    assert_eq!(
        x.table.edges().clone(),
        vec![
            implements(2, 0),
            contains(2, 3),
            method(3, 2),
            implements(4, 0),
            implements(4, 1),
            contains(4, 5),
            method(5, 4),
            contains(7, 8),
        ]
    );
    assert!(x.diagnostics.is_empty());
    assert_eq!(text(&entities[5].identifier), "Point::area#function#fn area(&self)->i32");
    assert_eq!(text(&entities[8].identifier), "utils::helper#function#fn helper()->i32");
    assert_eq!(text(&entities[4].identifier), "Point#impl#impl Shape for Point");
    assert_eq!(text(&entities[0].identifier), "Point#type#struct Point");
    assert!(entities[8].modifiers.public);
    assert!(entities[3].modifiers.is_static);
    assert!(!entities[5].modifiers.is_static);
    assert!(!entities[9].modifiers.is_static);
}

#[test]
fn top_level_declarations_are_neither_lost_nor_duplicated() {
    let shapes = run(SHAPES);
    let top = shapes.table.entities().iter().filter(|e| e.depth == 0).count();
    assert_eq!(top, 7);
    let accounts = run(ACCOUNTS);
    let top = accounts.table.entities().iter().filter(|e| e.depth == 0).count();
    assert_eq!(top, 10);
    assert_eq!(accounts.table.entities().len(), 19);
}

#[test]
fn accounts_unit_is_extracted_in_full() {
    let x = run(ACCOUNTS);
    let entities = x.table.entities();
    let got: Vec<(EntityKind, String, usize)> = entities.iter().map(summary).collect();
    let want = vec![
        (EntityKind::Type, "User".to_string(), 0),
        (EntityKind::Implementation, "User".to_string(), 0),
        (EntityKind::Function, "new".to_string(), 1),
        (EntityKind::Function, "authenticate".to_string(), 1),
        (EntityKind::Function, "check_password".to_string(), 1),
        (EntityKind::Trait, "UserService".to_string(), 0),
        (EntityKind::Type, "UserServiceImpl".to_string(), 0),
        (EntityKind::Implementation, "UserServiceImpl".to_string(), 0),
        (EntityKind::Function, "get_user".to_string(), 1),
        (EntityKind::Function, "create_user".to_string(), 1),
        (EntityKind::Enum, "Error".to_string(), 0),
        (EntityKind::EnumVariant, "NotFound".to_string(), 1),
        (EntityKind::EnumVariant, "InvalidInput".to_string(), 1),
        (EntityKind::Function, "fetch_user".to_string(), 0),
        (EntityKind::Function, "create_session".to_string(), 0),
        (EntityKind::Type, "Session".to_string(), 0),
        (EntityKind::Implementation, "Session".to_string(), 0),
        (EntityKind::Function, "new".to_string(), 1),
        (EntityKind::Function, "is_valid".to_string(), 1),
    ];
    assert_eq!(got, want);
    assert!(x.diagnostics.is_empty());
    assert!(entities[13].modifiers.is_async);
    assert!(entities[13].modifiers.public);
    assert!(entities[14].modifiers.public);
    assert!(!entities[14].modifiers.is_async);
    assert!(entities[9].modifiers.mutable_self);
    assert!(!entities[8].modifiers.mutable_self);
    assert!(entities[2].modifiers.is_static);
    assert_eq!(text(&entities[11].identifier), "Error::NotFound#variant#NotFound");
    assert_eq!(
        text(&entities[9].identifier),
        "UserServiceImpl::create_user#function#fn create_user(&mut self,user:User)->Result<(),Error>"
    );
    let service = &entities[7];
    assert_eq!(
        x.table.edges_from(&service.identifier),
        vec![implements(7, 6), implements(7, 5), contains(7, 8), contains(7, 9)]
    );
    assert_eq!(
        x.table.edges_to(&entities[0].identifier),
        vec![implements(1, 0)]
    );
}

#[test]
fn contains_edges_go_from_earlier_to_later_entities() {
    let x = run(ACCOUNTS);
    let mut parents = vec![0usize; x.table.entities().len()];
    for edge in x.table.edges().iter() {
        if edge.kind == RelationshipKind::Contains {
            assert!(edge.from < edge.to);
            parents[edge.to] += 1;
        }
    }
    assert!(parents.iter().all(|n| *n <= 1));
}

#[test]
fn extraction_is_deterministic() {
    let a = run(ACCOUNTS);
    let b = run(ACCOUNTS);
    assert_eq!(a.table.serialize(), b.table.serialize());
    assert_eq!(a.diagnostics, b.diagnostics);
}

#[test]
fn editing_a_body_changes_no_identifier() {
    let before = run(SHAPES);
    let edited = SHAPES.replace("a + b", "let total = a + b;\n    total");
    assert_ne!(edited, SHAPES);
    let after = run(&edited);
    let ids = |x: &Extraction| -> Vec<Vec<u8>> {
        x.table.entities().iter().map(|e| e.identifier.clone()).collect()
    };
    assert_eq!(ids(&before), ids(&after));
    assert_ne!(before.table.entities()[7].span, after.table.entities()[7].span);
}

#[test]
fn editing_a_signature_changes_only_that_identifier() {
    let before = run(SHAPES);
    let edited = SHAPES.replace("fn calculate_sum(a: i32, b: i32) -> i32", "fn calculate_sum(a: i64, b: i64) -> i64");
    let after = run(&edited);
    let b = before.table.entities();
    let a = after.table.entities();
    assert_eq!(a.len(), b.len());
    for i in 0..a.len() {
        if i == 6 {
            assert_ne!(a[i].identifier, b[i].identifier);
        } else {
            assert_eq!(a[i].identifier, b[i].identifier);
        }
    }
}

#[test]
fn language_without_adapter_is_refused() {
    assert_eq!(extract(b"def f(): pass", Language::Python).err(), Some(ExtractError::UnsupportedLanguage));
    assert_eq!(extract(b"", Language::TypeScript).err(), Some(ExtractError::UnsupportedLanguage));
}

#[test]
fn buffer_without_any_declaration_is_unparseable() {
    let r = extract(b"@@@ ???", Language::Rust);
    assert_eq!(r.err(), Some(ExtractError::Unparseable { span: Span { start: 0, end: 7 } }));
}

#[test]
fn empty_and_comment_only_buffers_give_empty_tables() {
    let x = run("");
    assert_eq!(x.table.len(), 0);
    assert!(x.table.edges().is_empty());
    assert!(x.diagnostics.is_empty());
    assert!(x.table.serialize().is_empty());
    let x = run("// nothing here\n/* nor here */\n");
    assert_eq!(x.table.len(), 0);
    let x = run("use std::fmt;\nconst N: usize = 3;\n");
    assert_eq!(x.table.len(), 0);
    assert!(x.diagnostics.is_empty());
}

#[test]
fn stray_closer_is_skipped_and_extraction_goes_on() {
    let x = run("struct A {}\n}\nstruct B {}");
    let names: Vec<String> = x.table.entities().iter().map(|e| text(&e.name)).collect();
    assert_eq!(names, vec!["A".to_string(), "B".to_string()]);
    assert_eq!(x.diagnostics, vec![Diagnostic::SyntaxError { span: Span { start: 12, end: 13 } }]);
}

#[test]
fn unclosed_block_is_an_error_to_the_end() {
    let x = run("fn ok() {}\nfn broken() { let x = 1;");
    assert_eq!(x.table.len(), 1);
    assert_eq!(x.diagnostics, vec![Diagnostic::SyntaxError { span: Span { start: 11, end: 35 } }]);
}

#[test]
fn nested_modules_qualify_what_they_hold() {
    let x = run("mod a { mod b { fn f() {} } fn g() {} }");
    let f = position(&x, EntityKind::Function, "f");
    let g = position(&x, EntityKind::Function, "g");
    let entities = x.table.entities();
    assert_eq!(entities[f].depth, 2);
    assert_eq!(entities[f].qualified_path, vec![b"a".to_vec(), b"b".to_vec()]);
    assert_eq!(text(&entities[f].identifier), "a::b::f#function#fn f()");
    assert_eq!(entities[g].qualified_path, vec![b"a".to_vec()]);
    assert_eq!(x.table.edges().clone(), vec![contains(0, 1), contains(1, 2), contains(0, 3)]);
}

#[test]
fn overloads_get_distinct_identifiers() {
    let x = run("trait T { fn f(a: i32) {} fn f(a: i64) {} }");
    let entities = x.table.entities();
    assert_eq!(entities.len(), 3);
    assert_eq!(entities[1].name, entities[2].name);
    assert_eq!(entities[1].qualified_path, entities[2].qualified_path);
    assert_ne!(entities[1].identifier, entities[2].identifier);
}

#[test]
fn braces_in_strings_comments_and_characters_do_not_nest() {
    let x = run("fn a() { let s = \"}{\"; /* } */ let c = '{'; let d = '\\''; // }\n }\nfn b() {}");
    let names: Vec<String> = x.table.entities().iter().map(|e| text(&e.name)).collect();
    assert_eq!(names, vec!["a".to_string(), "b".to_string()]);
    assert!(x.diagnostics.is_empty());
}

#[test]
fn lifetimes_are_not_taken_for_characters() {
    let x = run("impl<'a> Reader<'a> for Buf<'a> { fn get(&'a mut self) -> &'a str { self.s } }\nstruct Buf<'a> { s: &'a str }");
    let entities = x.table.entities();
    assert_eq!(entities.len(), 3);
    assert_eq!(text(&entities[0].name), "Buf");
    assert!(entities[1].modifiers.mutable_self);
    assert!(!entities[0].unresolved_target);
    assert!(entities[0].unresolved_interface);
    assert_eq!(text(&entities[0].signature), "impl<'a>Reader<'a>for Buf<'a>");
}

#[test]
fn enum_variants_with_payloads_and_attributes() {
    let x = run("pub enum E { A, B(u8, [u8; 2]), #[default] C { x: i32, y: i32 }, D = 4 }");
    let got: Vec<(EntityKind, String, usize)> = x.table.entities().iter().map(summary).collect();
    assert_eq!(
        got,
        vec![
            (EntityKind::Enum, "E".to_string(), 0),
            (EntityKind::EnumVariant, "A".to_string(), 1),
            (EntityKind::EnumVariant, "B".to_string(), 1),
            (EntityKind::EnumVariant, "C".to_string(), 1),
            (EntityKind::EnumVariant, "D".to_string(), 1),
        ]
    );
    assert!(x.table.entities()[0].modifiers.public);
    assert_eq!(text(&x.table.entities()[2].signature), "B(u8,[u8;2])");
}

#[test]
fn function_in_a_type_body_is_its_method() {
    let none = Modifiers { public: false, is_async: false, mutable_self: false, is_static: false };
    let class = CandidateEntity {
        kind: EntityKind::Type,
        name: b"Shape".to_vec(),
        signature: b"class Shape".to_vec(),
        span: Span { start: 0, end: 40 },
        depth: 0,
        modifiers: none,
        target: Vec::new(),
        interface: None,
    };
    let field = CandidateEntity {
        kind: EntityKind::Field,
        name: b"sides".to_vec(),
        signature: b"sides: int".to_vec(),
        span: Span { start: 14, end: 24 },
        depth: 1,
        modifiers: none,
        target: Vec::new(),
        interface: None,
    };
    let area = CandidateEntity {
        kind: EntityKind::Function,
        name: b"area".to_vec(),
        signature: b"def area(self)".to_vec(),
        span: Span { start: 26, end: 40 },
        depth: 1,
        modifiers: none,
        target: Vec::new(),
        interface: None,
    };
    let linked = link(&vec![area, class, field]);
    let names: Vec<String> = linked.entities.iter().map(|e| text(&e.name)).collect();
    assert_eq!(names, vec!["Shape".to_string(), "sides".to_string(), "area".to_string()]);
    assert_eq!(linked.edges, vec![contains(0, 1), contains(0, 2), method(2, 0)]);
    assert_eq!(linked.entities[1].kind, EntityKind::Field);
    assert_eq!(linked.entities[2].qualified_path, vec![b"Shape".to_vec()]);
    assert!(linked.diagnostics.is_empty());
}

#[test]
fn realistic_unit_with_generics_macros_and_attributes() {
    let source = r#"//! Crate docs.
#![allow(dead_code)]
use std::collections::HashMap;

/// A cache.
#[derive(Debug, Clone)]
pub struct Cache<K, V> where K: Eq {
    map: HashMap<K, V>,
    hits: u64,
}

macro_rules! square {
    ($x:expr) => { $x * $x };
}

pub(crate) const LIMIT: usize = 16;
static NAME: &str = "cache {";

impl<K: Eq + std::hash::Hash, V> Cache<K, V> {
    pub const fn limit() -> usize { LIMIT }

    pub fn get<'a>(&'a mut self, key: &K) -> Option<&'a V> {
        self.hits += 1;
        let close = '}';
        let f = |x: u64| -> u64 { x + 1 };
        self.map.get(key)
    }

    pub unsafe extern "C" fn raw(p: *const u8) -> u8 { *p }
}

impl<K, V> Default for Cache<K, V> where K: Eq {
    fn default() -> Self { unimplemented!() }
}

pub trait Store: Send {
    type Key;
    const KIND: u8;
    fn put(&mut self, key: Self::Key);
    fn len(&self) -> usize { 0 }
}

#[cfg(test)]
mod tests {
    use super::*;

    #[test]
    fn works() { assert_eq!(square!(2), 4); }
}
"#;
    let x = run(source);
    let got: Vec<(EntityKind, String, usize)> = x.table.entities().iter().map(summary).collect();
    assert_eq!(
        got,
        vec![
            (EntityKind::Type, "Cache".to_string(), 0),
            (EntityKind::Implementation, "Cache".to_string(), 0),
            (EntityKind::Function, "limit".to_string(), 1),
            (EntityKind::Function, "get".to_string(), 1),
            (EntityKind::Function, "raw".to_string(), 1),
            (EntityKind::Implementation, "Cache".to_string(), 0),
            (EntityKind::Function, "default".to_string(), 1),
            (EntityKind::Trait, "Store".to_string(), 0),
            (EntityKind::Function, "len".to_string(), 1),
            (EntityKind::Module, "tests".to_string(), 0),
            (EntityKind::Function, "works".to_string(), 1),
        ]
    );
    let entities = x.table.entities();
    assert!(entities[0].modifiers.public);
    assert_eq!(text(&entities[0].signature), "struct Cache<K,V>where K:Eq");
    assert_eq!(text(&entities[1].signature), "impl<K:Eq+std::hash::Hash,V>Cache<K,V>");
    assert!(entities[2].modifiers.is_static && entities[2].modifiers.public);
    assert!(entities[3].modifiers.mutable_self && !entities[3].modifiers.is_static);
    assert!(entities[4].modifiers.is_static);
    assert!(!entities[5].unresolved_target);
    assert!(entities[5].unresolved_interface);
    assert!(!entities[8].modifiers.mutable_self && !entities[8].modifiers.is_static);
    assert_eq!(
        x.diagnostics,
        vec![Diagnostic::UnresolvedRelationship { span: entities[5].span, missing: EntityKind::Trait }]
    );
    let identifiers: Vec<&Vec<u8>> = entities.iter().map(|e| &e.identifier).collect();
    for i in 0..identifiers.len() {
        for j in 0..i {
            assert_ne!(identifiers[i], identifiers[j]);
        }
    }
    for i in 0..entities.len() {
        for j in 0..i {
            if entities[i].depth == entities[j].depth && entities[i].qualified_path == entities[j].qualified_path {
                assert!(entities[j].span.end <= entities[i].span.start);
            }
        }
    }
}

#[test]
fn repeated_declarations_share_an_identifier() {
    let x = run("impl Point {}\nimpl Point {}");
    let entities = x.table.entities();
    assert_eq!(entities.len(), 2);
    assert_eq!(entities[0].identifier, entities[1].identifier);
    assert_eq!(x.table.position(&entities[1].identifier), Some(0));
}
