use semantic::diagnostics::{Diagnostic, ExtractError};
use semantic::entity::{CandidateEntity, Entity, EntityKind, Modifiers, RelationshipEdge, RelationshipKind};
use semantic::identity::{assign, identify, normalize_signature};
use semantic::linker::link;
use semantic::linker::order::arrange;
use semantic::linker::nesting::nest;
use semantic::pipeline::{extract, extract_tree};
use semantic::reducer::reduce;
use semantic::span::Span;
use semantic::syntax::token::{tokenize, Keyword, TokenKind};
use semantic::syntax::tree::{NodeInfo, NodeKind, SyntaxNode, SyntaxTree};
use semantic::syntax::{parse, syntax_errors, Language};
use semantic::table::SymbolTable;

fn plain() -> Modifiers {
    Modifiers::none()
}

fn candidate(kind: EntityKind, name: &str, start: usize, end: usize) -> CandidateEntity {
    CandidateEntity {
        kind,
        name: name.as_bytes().to_vec(),
        signature: name.as_bytes().to_vec(),
        span: Span { start, end },
        depth: 0,
        modifiers: plain(),
        target: Vec::new(),
        interface: None,
    }
}

fn entity(kind: EntityKind, path: &[&str], name: &str, signature: &str) -> Entity {
    Entity {
        kind,
        name: name.as_bytes().to_vec(),
        qualified_path: path.iter().map(|s| s.as_bytes().to_vec()).collect(),
        signature: signature.as_bytes().to_vec(),
        span: Span { start: 0, end: 1 },
        modifiers: plain(),
        depth: path.len(),
        unresolved_target: false,
        unresolved_interface: false,
        identifier: Vec::new(),
    }
}

#[test]
fn span_is_made_only_when_not_empty() {
    assert_eq!(Span::new(2, 5), Some(Span { start: 2, end: 5 }));
    assert_eq!(Span::new(5, 5), None);
    assert_eq!(Span::new(6, 5), None);
    assert_eq!(Span { start: 2, end: 5 }.len(), 3);
}

#[test]
fn span_order_and_containment() {
    let outer = Span { start: 0, end: 10 };
    let inner = Span { start: 0, end: 4 };
    let later = Span { start: 4, end: 10 };
    assert!(outer.sorts_before(&inner));
    assert!(!inner.sorts_before(&outer));
    assert!(inner.sorts_before(&later));
    assert!(!outer.sorts_before(&outer));
    assert!(outer.encloses(&inner));
    assert!(outer.encloses(&outer));
    assert!(!inner.encloses(&outer));
    assert!(inner.ends_before(&later));
    assert!(!outer.ends_before(&later));
    assert!(outer.same(&Span { start: 0, end: 10 }));
    assert!(outer.is_well_formed());
    assert!(!Span { start: 3, end: 3 }.is_well_formed());
}

#[test]
fn signature_white_space_is_normalized() {
    assert_eq!(normalize_signature(b"fn  foo ( a : i32 )\n\t-> i32"), b"fn foo(a:i32)->i32".to_vec());
    assert_eq!(normalize_signature(b"  impl   Shape for\nPoint  "), b"impl Shape for Point".to_vec());
    assert_eq!(normalize_signature(b"a b"), b"a b".to_vec());
    assert_eq!(normalize_signature(b"a + b"), b"a+b".to_vec());
    assert_eq!(normalize_signature(b""), Vec::<u8>::new());
    assert_eq!(normalize_signature(b" \n "), Vec::<u8>::new());
}

#[test]
fn identifier_is_path_name_kind_and_signature() {
    let e = entity(EntityKind::Function, &["a", "Point"], "area", "fn area(&self)->i32");
    assert_eq!(identify(&e), b"a::Point::area#function#fn area(&self)->i32".to_vec());
    let e = entity(EntityKind::Module, &[], "utils", "mod utils");
    assert_eq!(identify(&e), b"utils#module#mod utils".to_vec());
    let e = entity(EntityKind::Field, &["S"], "x", "");
    assert_eq!(identify(&e), b"S::x#field#".to_vec());
    let tags: Vec<Vec<u8>> = [
        EntityKind::Type,
        EntityKind::Trait,
        EntityKind::Implementation,
        EntityKind::Enum,
        EntityKind::EnumVariant,
    ]
        .iter()
        .map(|k| identify(&entity(*k, &[], "", "")))
        .collect();
    assert_eq!(
        tags,
        vec![
            b"#type#".to_vec(),
            b"#trait#".to_vec(),
            b"#impl#".to_vec(),
            b"#enum#".to_vec(),
            b"#variant#".to_vec(),
        ]
    );
}

#[test]
fn assigning_identities_changes_nothing_else() {
    let mut moved = entity(EntityKind::Function, &["m"], "f", "fn f()");
    moved.span = Span { start: 40, end: 90 };
    moved.modifiers.public = true;
    let entities = vec![entity(EntityKind::Function, &["m"], "f", "fn f()"), moved];
    let out = assign(&entities);
    assert_eq!(out.len(), 2);
    assert_eq!(out[0].identifier, b"m::f#function#fn f()".to_vec());
    assert_eq!(out[0].identifier, out[1].identifier);
    assert_eq!(out[1].span, Span { start: 40, end: 90 });
    assert!(out[1].modifiers.public);
    assert_eq!(out[1].name, b"f".to_vec());
    assert_eq!(out[1].qualified_path, vec![b"m".to_vec()]);
    assert_eq!(out[1].signature, b"fn f()".to_vec());
    assert_eq!(out[1].depth, 1);
    assert_eq!(assign(&out)[0].identifier, out[0].identifier);
}

#[test]
fn candidates_are_swept_by_start_then_by_end_descending() {
    let c = vec![
        candidate(EntityKind::Function, "late", 30, 40),
        candidate(EntityKind::Function, "inner", 0, 5),
        candidate(EntityKind::Module, "outer", 0, 20),
        candidate(EntityKind::Function, "middle", 6, 9),
    ];
    let (order, dropped) = arrange(&c);
    assert_eq!(order, vec![2, 1, 3, 0]);
    assert!(dropped.is_empty());
    assert_eq!(nest(&c, &order), vec![None, Some(0), Some(0), None]);
}

#[test]
fn of_two_candidates_with_one_span_the_earlier_stays() {
    let c = vec![
        candidate(EntityKind::Function, "first", 3, 9),
        candidate(EntityKind::Type, "other", 0, 2),
        candidate(EntityKind::Function, "second", 3, 9),
        candidate(EntityKind::Function, "third", 3, 9),
    ];
    let linked = link(&c);
    assert_eq!(linked.entities.len(), 2);
    assert_eq!(linked.entities[0].name, b"other".to_vec());
    assert_eq!(linked.entities[1].name, b"first".to_vec());
    let conflict = Diagnostic::DuplicateSpanConflict { span: Span { start: 3, end: 9 } };
    assert_eq!(linked.diagnostics, vec![conflict, conflict]);
}

#[test]
fn functions_do_not_open_a_scope() {
    let c = vec![
        candidate(EntityKind::Module, "m", 0, 100),
        candidate(EntityKind::Function, "f", 10, 50),
        candidate(EntityKind::Function, "local", 20, 30),
    ];
    let linked = link(&c);
    assert_eq!(linked.entities[2].depth, 1);
    assert_eq!(linked.entities[2].qualified_path, vec![b"m".to_vec()]);
    assert_eq!(
        linked.edges,
        vec![
            RelationshipEdge { kind: RelationshipKind::Contains, from: 0, to: 1 },
            RelationshipEdge { kind: RelationshipKind::Contains, from: 0, to: 2 },
        ]
    );
}

#[test]
fn overlapping_scopes_take_the_nearest_that_covers() {
    let c = vec![
        candidate(EntityKind::Module, "a", 0, 10),
        candidate(EntityKind::Module, "b", 5, 15),
        candidate(EntityKind::Function, "f", 6, 8),
        candidate(EntityKind::Function, "g", 12, 14),
        candidate(EntityKind::Function, "h", 16, 18),
    ];
    let (order, _) = arrange(&c);
    assert_eq!(nest(&c, &order), vec![None, None, Some(1), Some(1), None]);
}

#[test]
fn implementation_resolves_the_first_declaration_in_its_scope() {
    let mut imp = candidate(EntityKind::Implementation, "T", 30, 40);
    imp.target = b"T".to_vec();
    imp.interface = Some(b"S".to_vec());
    let c = vec![
        imp,
        candidate(EntityKind::Type, "T", 0, 5),
        candidate(EntityKind::Trait, "S", 50, 60),
        candidate(EntityKind::Type, "T", 70, 80),
        candidate(EntityKind::Enum, "S", 10, 20),
    ];
    let linked = link(&c);
    assert_eq!(
        linked.edges,
        vec![
            RelationshipEdge { kind: RelationshipKind::Implements, from: 2, to: 0 },
            RelationshipEdge { kind: RelationshipKind::Implements, from: 2, to: 3 },
        ]
    );
    assert!(!linked.entities[2].unresolved_target);
    assert!(!linked.entities[2].unresolved_interface);
    assert!(linked.diagnostics.is_empty());
}

#[test]
fn linking_nothing_gives_nothing() {
    let linked = link(&Vec::new());
    assert!(linked.entities.is_empty());
    assert!(linked.edges.is_empty());
    assert!(linked.diagnostics.is_empty());
}

#[test]
fn tokens_leave_out_white_space_and_comments() {
    let tokens = tokenize(b"pub fn f() { /* x */ 1 } // end");
    let kinds: Vec<TokenKind> = tokens.iter().map(|t| t.kind).collect();
    assert_eq!(
        kinds,
        vec![
            TokenKind::Keyword(Keyword::Pub),
            TokenKind::Keyword(Keyword::Fn),
            TokenKind::Word,
            TokenKind::Punct(b'('),
            TokenKind::Punct(b')'),
            TokenKind::Punct(b'{'),
            TokenKind::Literal,
            TokenKind::Punct(b'}'),
        ]
    );
    assert_eq!(tokens[2].span, Span { start: 7, end: 8 });
    assert_eq!(tokens[6].span, Span { start: 21, end: 22 });
}

#[test]
fn every_keyword_is_recognized() {
    let tokens = tokenize(b"struct enum trait impl fn mod pub async unsafe const extern for where self mut selfish");
    let kinds: Vec<TokenKind> = tokens.iter().map(|t| t.kind).collect();
    assert_eq!(
        kinds,
        vec![
            TokenKind::Keyword(Keyword::Struct),
            TokenKind::Keyword(Keyword::Enum),
            TokenKind::Keyword(Keyword::Trait),
            TokenKind::Keyword(Keyword::Impl),
            TokenKind::Keyword(Keyword::Fn),
            TokenKind::Keyword(Keyword::Mod),
            TokenKind::Keyword(Keyword::Pub),
            TokenKind::Keyword(Keyword::Async),
            TokenKind::Keyword(Keyword::Unsafe),
            TokenKind::Keyword(Keyword::Const),
            TokenKind::Keyword(Keyword::Extern),
            TokenKind::Keyword(Keyword::For),
            TokenKind::Keyword(Keyword::Where),
            TokenKind::Keyword(Keyword::SelfValue),
            TokenKind::Keyword(Keyword::Mut),
            TokenKind::Word,
        ]
    );
}

#[test]
fn literals_end_where_they_close_or_where_the_text_ends() {
    let spans = |s: &[u8]| -> Vec<(TokenKind, usize, usize)> {
        tokenize(s).iter().map(|t| (t.kind, t.span.start, t.span.end)).collect()
    };
    assert_eq!(spans(b"\"a\\\"b\" x"), vec![(TokenKind::Literal, 0, 6), (TokenKind::Word, 7, 8)]);
    assert_eq!(spans(b"\"open"), vec![(TokenKind::Literal, 0, 5)]);
    assert_eq!(spans(b"\"end\\"), vec![(TokenKind::Literal, 0, 5)]);
    assert_eq!(spans(b"'x' '\\n' 'a"), vec![
        (TokenKind::Literal, 0, 3),
        (TokenKind::Literal, 4, 8),
        (TokenKind::Punct(b'\''), 9, 10),
        (TokenKind::Word, 10, 11),
    ]);
    assert_eq!(spans(b"'\\"), vec![(TokenKind::Literal, 0, 2)]);
    assert_eq!(spans(b"42u8"), vec![(TokenKind::Literal, 0, 4)]);
    assert_eq!(spans(b"/* open"), vec![]);
    assert_eq!(spans(b"a/b"), vec![
        (TokenKind::Word, 0, 1),
        (TokenKind::Punct(b'/'), 1, 2),
        (TokenKind::Word, 2, 3),
    ]);
}

#[test]
fn tree_nodes_say_where_names_and_headers_stand() {
    let source = b"#[derive(Debug)]\npub(crate) struct Pair<T>(T, T);\nunsafe impl<T> Send for Pair<T> {}";
    let tree = match parse(source, Language::Rust) {
        Ok(tree) => tree,
        Err(e) => panic!("{:?}", e),
    };
    assert_eq!(tree.source, source.to_vec());
    assert_eq!(tree.roots.len(), 2);
    let pair = &tree.roots[0].info;
    assert_eq!(pair.kind, NodeKind::Type);
    assert_eq!(pair.span, Span { start: 0, end: 49 });
    assert_eq!(&source[pair.name.start..pair.name.end], b"Pair");
    assert_eq!(&source[pair.header.start..pair.header.end], b"struct Pair<T>(T, T)");
    assert!(pair.modifiers.public);
    let imp = &tree.roots[1].info;
    assert_eq!(imp.kind, NodeKind::Implementation);
    assert_eq!(&source[imp.target.start..imp.target.end], b"Pair");
    let interface = imp.interface.unwrap();
    assert_eq!(&source[interface.start..interface.end], b"Send");
    assert_eq!(&source[imp.header.start..imp.header.end], b"impl<T> Send for Pair<T>");
    assert!(tree.roots[1].children.is_empty());
}

#[test]
fn prototypes_and_other_items_are_nodes_but_not_entities() {
    let source = b"trait T { type Item; const N: usize; fn need(&self); fn given(&self) {} }\nmod elsewhere;\nuse a::b;";
    let tree = parse(source, Language::Rust).unwrap();
    let kinds: Vec<NodeKind> = tree.roots.iter().map(|n| n.info.kind).collect();
    assert_eq!(kinds, vec![NodeKind::Trait, NodeKind::Other, NodeKind::Other]);
    let inside: Vec<NodeKind> = tree.roots[0].children.iter().map(|n| n.info.kind).collect();
    assert_eq!(inside, vec![NodeKind::Other, NodeKind::Other, NodeKind::Prototype, NodeKind::Function]);
    let candidates = reduce(&tree);
    let names: Vec<Vec<u8>> = candidates.iter().map(|c| c.name.clone()).collect();
    assert_eq!(names, vec![b"T".to_vec(), b"given".to_vec()]);
    assert_eq!(candidates[1].depth, 1);
    assert_eq!(candidates[1].signature, b"fn given(&self)".to_vec());
    assert!(syntax_errors(&tree).is_empty());
}

#[test]
fn declarations_without_a_name_are_errors() {
    let source = b"struct { x: i32 }\nfn ok() {}\nimpl {}\nenum E;";
    let tree = parse(source, Language::Rust).unwrap();
    let kinds: Vec<NodeKind> = tree.roots.iter().map(|n| n.info.kind).collect();
    assert_eq!(kinds, vec![NodeKind::Error, NodeKind::Function, NodeKind::Error, NodeKind::Error]);
    assert_eq!(
        syntax_errors(&tree),
        vec![
            Diagnostic::SyntaxError { span: Span { start: 0, end: 17 } },
            Diagnostic::SyntaxError { span: Span { start: 29, end: 36 } },
            Diagnostic::SyntaxError { span: Span { start: 37, end: 44 } },
        ]
    );
}

#[test]
fn parse_fails_only_for_missing_adapter_or_hopeless_buffer() {
    assert_eq!(parse(b"struct A;", Language::Python).err(), Some(ExtractError::UnsupportedLanguage));
    assert_eq!(
        parse(b"} struct", Language::Rust).err(),
        Some(ExtractError::Unparseable { span: Span { start: 0, end: 1 } })
    );
    assert!(parse(b"} struct A;", Language::Rust).is_ok());
    assert!(parse(b"", Language::Rust).is_ok());
    assert!(Language::Rust.is_supported());
    assert!(!Language::TypeScript.is_supported());
}

#[test]
fn reducer_walks_a_hand_built_tree_depth_first() {
    let node = |kind: NodeKind, start: usize, end: usize, name: (usize, usize), children: Vec<SyntaxNode>| SyntaxNode {
        info: NodeInfo {
            kind,
            span: Span { start, end },
            name: Span { start: name.0, end: name.1 },
            header: Span { start, end: name.1 },
            modifiers: plain(),
            target: Span { start: 0, end: 0 },
            interface: None,
        },
        children,
    };
    let source = b"class A { x; def m() {} } def f() {}".to_vec();
    let tree = SyntaxTree {
        source,
        roots: vec![
            node(
                NodeKind::Type,
                0,
                25,
                (6, 7),
                vec![
                    node(NodeKind::Field, 10, 12, (10, 11), vec![]),
                    node(NodeKind::Other, 12, 13, (12, 12), vec![node(NodeKind::Function, 13, 23, (17, 18), vec![])]),
                ],
            ),
            node(NodeKind::Function, 26, 36, (30, 31), vec![]),
        ],
    };
    let candidates = reduce(&tree);
    let got: Vec<(EntityKind, Vec<u8>, usize)> = candidates.iter().map(|c| (c.kind, c.name.clone(), c.depth)).collect();
    assert_eq!(
        got,
        vec![
            (EntityKind::Type, b"A".to_vec(), 0),
            (EntityKind::Field, b"x".to_vec(), 1),
            (EntityKind::Function, b"m".to_vec(), 2),
            (EntityKind::Function, b"f".to_vec(), 0),
        ]
    );
    assert_eq!(candidates[0].signature, b"class A".to_vec());
    let x = extract_tree(&tree);
    assert_eq!(x.table.len(), 4);
    assert_eq!(x.table.entities()[2].identifier, b"A::m#function#def m".to_vec());
    assert_eq!(x.table.entities()[2].depth, 1);
}

#[test]
fn table_is_built_only_from_edges_that_fit() {
    let entities = vec![entity(EntityKind::Module, &[], "m", "mod m")];
    let bad = vec![RelationshipEdge { kind: RelationshipKind::Contains, from: 0, to: 1 }];
    assert!(SymbolTable::build(entities, bad).is_none());
    let entities = vec![entity(EntityKind::Module, &[], "m", "mod m")];
    let table = SymbolTable::build(entities, Vec::new()).unwrap();
    assert_eq!(table.len(), 1);
}

#[test]
fn table_is_read_by_identifier_kind_and_range() {
    let x = extract(b"mod m { fn f() {} fn g() {} }\nfn h() {}", Language::Rust).unwrap();
    let t = &x.table;
    assert_eq!(t.position(b"m::g#function#fn g()"), Some(2));
    assert_eq!(t.position(b"m::g#function#fn g( )"), None);
    assert_eq!(t.by_identifier(b"h#function#fn h()").map(|e| e.span), Some(Span { start: 30, end: 39 }));
    assert!(t.by_identifier(b"nothing").is_none());
    assert_eq!(t.by_span(Span { start: 30, end: 39 }), Some(3));
    assert_eq!(t.by_span(Span { start: 0, end: 29 }), Some(0));
    assert_eq!(t.by_span(Span { start: 30, end: 38 }), None);
    assert_eq!(t.by_kind_in_range(EntityKind::Function, Span { start: 0, end: 39 }), vec![1, 2, 3]);
    assert_eq!(t.by_kind_in_range(EntityKind::Function, Span { start: 0, end: 29 }), vec![1, 2]);
    assert_eq!(t.by_kind_in_range(EntityKind::Function, Span { start: 9, end: 29 }), vec![2]);
    assert_eq!(t.by_kind_in_range(EntityKind::Module, Span { start: 0, end: 39 }), vec![0]);
    assert_eq!(t.by_kind_in_range(EntityKind::Trait, Span { start: 0, end: 39 }), Vec::<usize>::new());
    let contains = |from, to| RelationshipEdge { kind: RelationshipKind::Contains, from, to };
    assert_eq!(t.edges_from(b"m#module#mod m"), vec![contains(0, 1), contains(0, 2)]);
    assert_eq!(t.edges_to(b"m::f#function#fn f()"), vec![contains(0, 1)]);
    let (from, to) = t.endpoints(1).unwrap();
    assert_eq!(from.identifier, b"m#module#mod m".to_vec());
    assert_eq!(to.identifier, b"m::g#function#fn g()".to_vec());
    assert!(t.endpoints(2).is_none());
    assert!(t.edges_from(b"h#function#fn h()").is_empty());
    assert!(t.edges_to(b"m#module#mod m").is_empty());
}

#[test]
fn table_is_written_record_by_record() {
    let x = extract(b"pub mod m { async fn f(&mut self) {} }\nimpl A for B {}", Language::Rust).unwrap();
    let want = "E\tm#module#mod m\tmodule\tm\t0\t38\t0\tp---\t--\n\
                E\tm::f#function#fn f(&mut self)\tfunction\tf\t12\t36\t1\t-am-\t--\n\
                E\tB#impl#impl A for B\timpl\tB\t39\t54\t0\t----\tti\n\
                R\tcontains\tm#module#mod m\tm::f#function#fn f(&mut self)\n";
    assert_eq!(String::from_utf8(x.table.serialize()).unwrap(), want);
    let x = extract(b"struct B; trait A {} impl A for B { fn f() {} }", Language::Rust).unwrap();
    let written = String::from_utf8(x.table.serialize()).unwrap();
    let edges: Vec<&str> = written.lines().filter(|l| l.starts_with('R')).collect();
    assert_eq!(
        edges,
        vec![
            "R\timplements\tB#impl#impl A for B\tB#type#struct B",
            "R\timplements\tB#impl#impl A for B\tA#trait#trait A",
            "R\tcontains\tB#impl#impl A for B\tB::f#function#fn f()",
            "R\tmethod\tB::f#function#fn f()\tB#impl#impl A for B",
        ]
    );
    assert!(written.contains("\t21\t47\t0\t"));
    assert!(written.contains("\t---s\t--\n"));
}

#[test]
fn diagnostics_describe_themselves() {
    let span = Span { start: 1, end: 2 };
    assert_eq!(Diagnostic::SyntaxError { span }.message(), "syntax error: text skipped");
    assert_eq!(
        Diagnostic::UnresolvedRelationship { span, missing: EntityKind::Type }.message(),
        "unresolved relationship: type not declared in scope"
    );
    assert_eq!(
        Diagnostic::UnresolvedRelationship { span, missing: EntityKind::Trait }.message(),
        "unresolved relationship: trait not declared in scope"
    );
    assert_eq!(Diagnostic::DuplicateSpanConflict { span }.message(), "duplicate span: later candidate dropped");
    assert_eq!(Diagnostic::DuplicateSpanConflict { span }.span(), span);
    assert_eq!(ExtractError::UnsupportedLanguage.message(), "unsupported language: no syntax adapter");
    assert_eq!(ExtractError::Unparseable { span }.message(), "unparseable buffer: no declaration found");
}

#[test]
fn kinds_that_open_scopes_and_hold_methods() {
    let scopes: Vec<bool> = [
        EntityKind::Module,
        EntityKind::Type,
        EntityKind::Trait,
        EntityKind::Function,
        EntityKind::Implementation,
        EntityKind::Enum,
        EntityKind::EnumVariant,
        EntityKind::Field,
    ]
        .iter()
        .map(|k| k.opens_scope())
        .collect();
    assert_eq!(scopes, vec![true, true, true, false, true, true, false, false]);
    assert!(EntityKind::Implementation.has_methods());
    assert!(EntityKind::Type.has_methods());
    assert!(!EntityKind::Trait.has_methods());
    assert_eq!(NodeKind::Prototype.classify(), None);
    assert_eq!(NodeKind::Error.classify(), None);
    assert_eq!(NodeKind::Field.classify(), Some(EntityKind::Field));
}

#[test]
fn language_tags_are_read_exactly() {
    assert_eq!(Language::from_tag(b"rust"), Some(Language::Rust));
    assert_eq!(Language::from_tag(b"python"), Some(Language::Python));
    assert_eq!(Language::from_tag(b"typescript"), Some(Language::TypeScript));
    assert_eq!(Language::from_tag(b"Rust"), None);
    assert_eq!(Language::from_tag(b"rus"), None);
    assert_eq!(Language::from_tag(b"rusty"), None);
    assert_eq!(Language::from_tag(b""), None);
}

#[test]
fn well_formedness_can_be_checked_before_a_call() {
    let good = vec![candidate(EntityKind::Function, "f", 0, 3)];
    let bad = vec![candidate(EntityKind::Function, "f", 0, 3), candidate(EntityKind::Function, "g", 5, 5)];
    assert!(semantic::linker::candidates_well_formed(&good));
    assert!(!semantic::linker::candidates_well_formed(&bad));
    assert!(semantic::linker::candidates_well_formed(&Vec::new()));
    let leaf = |start: usize, end: usize, name_end: usize| SyntaxNode {
        info: NodeInfo {
            kind: NodeKind::Function,
            span: Span { start, end },
            name: Span { start, end: name_end },
            header: Span { start, end: name_end },
            modifiers: plain(),
            target: Span { start: 0, end: 0 },
            interface: None,
        },
        children: Vec::new(),
    };
    let tree = SyntaxTree { source: b"abcdef".to_vec(), roots: vec![leaf(0, 6, 3)] };
    assert!(tree.is_well_formed());
    let tree = SyntaxTree { source: b"abcdef".to_vec(), roots: vec![leaf(0, 7, 3)] };
    assert!(!tree.is_well_formed());
    let tree = SyntaxTree { source: b"abcdef".to_vec(), roots: vec![leaf(2, 2, 2)] };
    assert!(!tree.is_well_formed());
    let tree = SyntaxTree { source: b"abcdef".to_vec(), roots: vec![leaf(0, 6, 9)] };
    assert!(!tree.is_well_formed());
    let mut outer = leaf(0, 6, 3);
    outer.children.push(leaf(4, 9, 5));
    let tree = SyntaxTree { source: b"abcdef".to_vec(), roots: vec![outer] };
    assert!(!tree.is_well_formed());
    let tree = parse(b"mod m { fn f() {} }", Language::Rust).unwrap();
    assert!(tree.is_well_formed());
}
