use script_passes::path::split_dots;
use script_passes::prune::{has_key, prune, referenced_keys};
use script_passes::syntax::{duplicate_nodes, duplicate_properties};
use script_passes::{
    AccessChain, BoundaryKind, ChainRoot, ConfigError, Define, DefineIndex, DefinePath, DefineRule,
    Match, Node, NodeKind, Property, ReplaceGlobalDefines, ReplaceGlobalDefinesConfig, Resolution,
    SemanticModel, Span,
};

fn at(kind: NodeKind) -> Node {
    Node { span: Span { start: 0, end: 0 }, kind }
}

fn global(name: &str) -> Node {
    at(NodeKind::Identifier { name: name.to_string(), reference: 0 })
}

fn local(name: &str) -> Node {
    at(NodeKind::Identifier { name: name.to_string(), reference: 1 })
}

fn model() -> SemanticModel {
    SemanticModel::new(vec![Resolution::Unbound, Resolution::Binding])
}

fn other(label: &str, children: Vec<Node>) -> Node {
    at(NodeKind::Other { label: label.to_string(), children })
}

fn string(value: &str) -> Node {
    at(NodeKind::StringLiteral { value: value.to_string() })
}

fn member(object: Node, property: &str) -> Node {
    at(NodeKind::StaticMember {
        object: Box::new(object),
        property: property.to_string(),
        optional: false,
    })
}

fn optional_member(object: Node, property: &str) -> Node {
    at(NodeKind::StaticMember {
        object: Box::new(object),
        property: property.to_string(),
        optional: true,
    })
}

fn bracket(object: Node, key: Node) -> Node {
    at(NodeKind::ComputedMember { object: Box::new(object), key: Box::new(key), optional: false })
}

fn object(properties: Vec<Property>) -> Node {
    at(NodeKind::ObjectLiteral { properties })
}

fn pattern(properties: Vec<Property>) -> Node {
    at(NodeKind::ObjectPattern { properties })
}

fn key(name: &str, value: Node) -> Property {
    Property::Static { name: name.to_string(), value }
}

fn declarator(target: Node, init: Node) -> Node {
    at(NodeKind::Declarator { target: Box::new(target), init: Some(Box::new(init)) })
}

fn function(children: Vec<Node>) -> Node {
    at(NodeKind::Function { boundary: BoundaryKind::OrdinaryBoundary, children })
}

fn arrow(children: Vec<Node>) -> Node {
    at(NodeKind::Function { boundary: BoundaryKind::ArrowFunction, children })
}

fn define(path: &str, replacement: &str, parsed: Node) -> Define {
    Define { path: path.to_string(), replacement: replacement.to_string(), parsed: Some(parsed) }
}

fn unparsed(path: &str, replacement: &str) -> Define {
    Define { path: path.to_string(), replacement: replacement.to_string(), parsed: None }
}

fn config(defines: Vec<Define>) -> ReplaceGlobalDefinesConfig {
    ReplaceGlobalDefinesConfig::new(&defines).unwrap()
}

fn error(defines: Vec<Define>) -> ConfigError {
    match ReplaceGlobalDefinesConfig::new(&defines) {
        Ok(_) => panic!("the defines were accepted"),
        Err(error) => error,
    }
}

fn rewrite(source: Node, config: &ReplaceGlobalDefinesConfig) -> Node {
    let mut program = source;
    ReplaceGlobalDefines::new(config).build(&model(), &mut program);
    program
}

fn strings(texts: &[&str]) -> Vec<String> {
    texts.iter().map(|text| text.to_string()).collect()
}

fn path(segments: &[&str], wildcard: bool) -> DefinePath {
    DefinePath { segments: strings(segments), wildcard }
}

/// `process.env.NODE_ENV`
fn node_env() -> Node {
    member(member(global("process"), "env"), "NODE_ENV")
}

fn abc_literal() -> Node {
    object(vec![
        key("a", other("1", vec![])),
        key("b", other("2", vec![])),
        key("c", other("3", vec![])),
    ])
}

#[test]
fn a_path_text_is_split_at_its_dots() {
    assert_eq!(split_dots("a.b.c"), strings(&["a", "b", "c"]));
    assert_eq!(split_dots("abc"), strings(&["abc"]));
    assert_eq!(split_dots(""), strings(&[""]));
    assert_eq!(split_dots("."), strings(&["", ""]));
    assert_eq!(split_dots("a."), strings(&["a", ""]));
    assert_eq!(split_dots(".a"), strings(&["", "a"]));
    assert_eq!(split_dots("a..b"), strings(&["a", "", "b"]));
    assert_eq!(split_dots("é.ü"), strings(&["é", "ü"]));
}

#[test]
fn a_path_text_declares_a_path() {
    assert_eq!(DefinePath::parse("a"), Some(path(&["a"], false)));
    assert_eq!(
        DefinePath::parse("import.meta.env"),
        Some(path(&["import", "meta", "env"], false))
    );
    assert_eq!(DefinePath::parse("import.meta.env.*"), Some(path(&["import", "meta", "env"], true)));
    assert_eq!(DefinePath::parse("a.*"), Some(path(&["a"], true)));
    // Only a final `*` is the wildcard.
    assert_eq!(DefinePath::parse("a.*.b"), Some(path(&["a", "*", "b"], false)));
    assert_eq!(DefinePath::parse("*.a"), Some(path(&["*", "a"], false)));
    assert_eq!(DefinePath::parse("a.**"), Some(path(&["a", "**"], false)));
    assert_eq!(DefinePath::parse("a..b"), Some(path(&["a", "", "b"], false)));
}

#[test]
fn the_empty_text_and_the_bare_star_declare_no_path() {
    assert_eq!(DefinePath::parse(""), None);
    assert_eq!(DefinePath::parse("*"), None);
}

#[test]
fn a_copy_of_a_path_is_equal_to_it() {
    let first = path(&["a", "b"], true);
    assert_eq!(first.duplicate(), first);
}

fn index(paths: Vec<DefinePath>) -> DefineIndex {
    let mut index = DefineIndex::new();
    for (position, path) in paths.into_iter().enumerate() {
        assert_eq!(index.insert(path), Some(position));
    }
    index
}

#[test]
fn the_index_numbers_the_rules_in_order() {
    let mut index = DefineIndex::new();
    assert_eq!(index.len(), 0);
    assert_eq!(index.insert(path(&["a", "b"], false)), Some(0));
    assert_eq!(index.insert(path(&["a"], false)), Some(1));
    assert_eq!(index.insert(path(&["c"], true)), Some(2));
    assert_eq!(index.len(), 3);
}

#[test]
fn the_index_refuses_a_path_that_it_holds() {
    let mut index = index(vec![path(&["a", "b"], false), path(&["a"], true)]);
    assert_eq!(index.insert(path(&["a", "b"], false)), None);
    assert_eq!(index.insert(path(&["a"], true)), None);
    assert_eq!(index.len(), 2);
    // The same segments with the other kind are another path.
    assert_eq!(index.insert(path(&["a", "b"], true)), Some(2));
    assert_eq!(index.insert(path(&["a"], false)), Some(3));
    assert_eq!(index.len(), 4);
}

#[test]
fn lookup_prefers_the_whole_chain_then_the_longest_prefix_then_a_wildcard() {
    let index = index(vec![
        path(&["a"], false),
        path(&["a", "b", "c"], false),
        path(&["a", "b"], true),
        path(&["a"], true),
        path(&["x"], true),
    ]);
    let found = |chain: &[&str]| index.lookup(&strings(chain), 1);
    // The whole chain.
    assert_eq!(found(&["a", "b", "c"]), Some(Match { rule: 1, consumed: 3 }));
    assert_eq!(found(&["a"]), Some(Match { rule: 0, consumed: 1 }));
    // The longest prefix under an exact rule, before any wildcard.
    assert_eq!(found(&["a", "b", "c", "d"]), Some(Match { rule: 1, consumed: 3 }));
    assert_eq!(found(&["a", "b"]), Some(Match { rule: 0, consumed: 1 }));
    assert_eq!(found(&["a", "z"]), Some(Match { rule: 0, consumed: 1 }));
    // A wildcard consumes the whole chain and needs a segment to stand for.
    assert_eq!(found(&["x", "y"]), Some(Match { rule: 4, consumed: 2 }));
    assert_eq!(found(&["x", "y", "z"]), Some(Match { rule: 4, consumed: 3 }));
    assert_eq!(found(&["x"]), None);
    assert_eq!(found(&["y"]), None);
    assert_eq!(found(&[]), None);
}

#[test]
fn lookup_prefers_the_wildcard_with_the_longer_prefix() {
    let index = index(vec![path(&["a"], true), path(&["a", "b"], true)]);
    let found = |chain: &[&str]| index.lookup(&strings(chain), 1);
    assert_eq!(found(&["a", "b", "c"]), Some(Match { rule: 1, consumed: 3 }));
    assert_eq!(found(&["a", "b"]), Some(Match { rule: 0, consumed: 2 }));
    assert_eq!(found(&["a", "c", "b"]), Some(Match { rule: 0, consumed: 3 }));
    assert_eq!(found(&["a"]), None);
}

#[test]
fn lookup_passes_over_exact_rules_shorter_than_the_root() {
    let index = index(vec![path(&["import"], false), path(&["import", "meta", "env"], true)]);
    let chain = strings(&["import", "meta", "env", "MODE"]);
    assert_eq!(index.lookup(&chain, 2), Some(Match { rule: 1, consumed: 4 }));
    assert_eq!(index.lookup(&chain, 1), Some(Match { rule: 0, consumed: 1 }));
    assert_eq!(index.lookup(&chain, 0), Some(Match { rule: 0, consumed: 1 }));
    assert_eq!(index.lookup(&chain, 5), None);
    assert_eq!(index.lookup(&strings(&["import", "meta"]), 2), None);
}

#[test]
fn an_empty_index_matches_nothing() {
    let index = DefineIndex::new();
    assert_eq!(index.lookup(&strings(&["a", "b"]), 1), None);
    assert_eq!(index.lookup(&strings(&[]), 0), None);
}

#[test]
fn a_rule_is_made_from_a_define() {
    let rule = DefineRule::new(&define("a.b.*", "x.y", member(global("x"), "y"))).unwrap();
    assert_eq!(*rule.path(), path(&["a", "b"], true));
    assert_eq!(rule.replacement(), "x.y");
    assert_eq!(*rule.fragment(), member(global("x"), "y"));
    assert_eq!(
        DefineRule::new(&unparsed("a", "1 +")).err(),
        Some(ConfigError::InvalidReplacement("a".to_string()))
    );
    assert_eq!(
        DefineRule::new(&define("*", "1", other("1", vec![]))).err(),
        Some(ConfigError::InvalidPath("*".to_string()))
    );
}

#[test]
fn a_configuration_keeps_the_rules_in_order() {
    let config = config(vec![
        define("a.b", "1", other("1", vec![])),
        define("a.b.*", "2", other("2", vec![])),
        define("c", "'c'", string("c")),
    ]);
    assert_eq!(config.len(), 3);
    assert_eq!(*config.rule(0).path(), path(&["a", "b"], false));
    assert_eq!(*config.rule(1).path(), path(&["a", "b"], true));
    assert_eq!(config.rule(2).replacement(), "'c'");
    assert_eq!(*config.rule(2).fragment(), string("c"));
    assert_eq!(config.lookup(&strings(&["a", "b"]), 1), Some(Match { rule: 0, consumed: 2 }));
    assert_eq!(config.lookup(&strings(&["a", "b", "x"]), 1), Some(Match { rule: 0, consumed: 2 }));
    assert_eq!(config.lookup(&strings(&["c", "d"]), 1), Some(Match { rule: 2, consumed: 1 }));
    assert_eq!(config.lookup(&strings(&["d"]), 1), None);
}

#[test]
fn a_replacement_that_is_no_expression_is_refused() {
    assert_eq!(
        error(vec![define("a", "1", other("1", vec![])), unparsed("b.c", "1 +")]),
        ConfigError::InvalidReplacement("b.c".to_string())
    );
}

#[test]
fn a_path_text_without_a_path_is_refused() {
    assert_eq!(
        error(vec![define("", "1", other("1", vec![]))]),
        ConfigError::InvalidPath("".to_string())
    );
    assert_eq!(
        error(vec![define("a", "1", other("1", vec![])), define("*", "1", other("1", vec![]))]),
        ConfigError::InvalidPath("*".to_string())
    );
}

#[test]
fn a_path_declared_twice_is_refused() {
    assert_eq!(
        error(vec![
            define("a.b", "1", other("1", vec![])),
            define("a", "2", other("2", vec![])),
            define("a.b", "3", other("3", vec![])),
        ]),
        ConfigError::DuplicatePath("a.b".to_string())
    );
    assert_eq!(
        error(vec![
            define("a.*", "1", other("1", vec![])),
            define("a.*", "1", other("1", vec![])),
        ]),
        ConfigError::DuplicatePath("a.*".to_string())
    );
}

#[test]
fn the_first_entry_at_fault_decides_the_error() {
    // The replacement is looked at before the path.
    assert_eq!(error(vec![unparsed("*", "1 +")]), ConfigError::InvalidReplacement("*".to_string()));
    assert_eq!(
        error(vec![
            define("a", "1", other("1", vec![])),
            define("*", "1", other("1", vec![])),
            unparsed("b", "1 +"),
            define("a", "2", other("2", vec![])),
        ]),
        ConfigError::InvalidPath("*".to_string())
    );
    assert_eq!(
        error(vec![
            define("a", "1", other("1", vec![])),
            define("a", "2", other("2", vec![])),
            unparsed("b", "1 +"),
        ]),
        ConfigError::DuplicatePath("a".to_string())
    );
}

#[test]
fn an_exact_path_and_a_wildcard_on_it_live_together() {
    let config = config(vec![
        define("a.b", "exact", global("exact")),
        define("a.b.*", "wild", global("wild")),
    ]);
    assert_eq!(rewrite(member(global("a"), "b"), &config), global("exact"));
    // The exact rule on the prefix comes first, also here.
    assert_eq!(
        rewrite(member(member(global("a"), "b"), "c"), &config),
        member(global("exact"), "c")
    );
}

#[test]
fn a_program_without_a_match_comes_back_as_it_was() {
    let config = config(vec![
        define("process.env.NODE_ENV", "'production'", string("production")),
        define("__DEV__", "false", other("false", vec![])),
        define("import.meta.env.*", "undefined", global("undefined")),
        define("this.x", "1", other("1", vec![])),
    ]);
    let program = other(
        "program",
        vec![
            other(
                "const",
                vec![declarator(
                    pattern(vec![
                        key("a", other("a", vec![])),
                        Property::Computed { key: global("k"), value: other("b", vec![]) },
                        Property::Spread { argument: other("rest", vec![]) },
                    ]),
                    member(member(global("process"), "env"), "MODE"),
                )],
            ),
            other(
                "statement",
                vec![other(
                    "call",
                    vec![
                        arrow(vec![
                            at(NodeKind::Declarator {
                                target: Box::new(other("x", vec![])),
                                init: None,
                            }),
                            other("return", vec![member(at(NodeKind::This), "y")]),
                        ]),
                        object(vec![
                            key("env", member(at(NodeKind::ImportMeta), "env")),
                            Property::Spread { argument: member(global("__DEV"), "x") },
                        ]),
                        bracket(global("process"), member(global("env"), "NODE_ENV")),
                    ],
                )],
            ),
            function(vec![other("return", vec![member(at(NodeKind::This), "x")])]),
        ],
    );
    assert_eq!(rewrite(program.clone(), &config), program);
    // A configuration without a rule changes nothing either.
    assert_eq!(rewrite(program.clone(), &self::config(vec![])), program);
    assert_eq!(rewrite(node_env(), &self::config(vec![])), node_env());
}

#[test]
fn a_chain_spells_its_segments_from_the_root() {
    let chain = AccessChain::of(&Node {
        span: Span { start: 4, end: 24 },
        kind: NodeKind::StaticMember {
            object: Box::new(bracket(
                at(NodeKind::Identifier { name: "process".to_string(), reference: 7 }),
                string("env"),
            )),
            property: "NODE_ENV".to_string(),
            optional: true,
        },
    });
    assert_eq!(
        chain,
        Some(AccessChain {
            root: ChainRoot::Identifier { reference: 7 },
            segments: strings(&["process", "env", "NODE_ENV"]),
            span: Span { start: 4, end: 24 },
        })
    );
    assert_eq!(
        AccessChain::of(&member(at(NodeKind::This), "x")),
        Some(AccessChain {
            root: ChainRoot::This,
            segments: strings(&["this", "x"]),
            span: Span { start: 0, end: 0 },
        })
    );
    assert_eq!(
        AccessChain::of(&at(NodeKind::ImportMeta)),
        Some(AccessChain {
            root: ChainRoot::ImportMeta,
            segments: strings(&["import", "meta"]),
            span: Span { start: 0, end: 0 },
        })
    );
    assert_eq!(ChainRoot::ImportMeta.length(), 2);
    assert_eq!(ChainRoot::This.length(), 1);
    assert_eq!(ChainRoot::Identifier { reference: 3 }.length(), 1);
}

#[test]
fn what_is_no_chain_has_no_chain() {
    // a[b]
    assert_eq!(AccessChain::of(&bracket(global("a"), global("b"))), None);
    // a[b].c
    assert_eq!(AccessChain::of(&member(bracket(global("a"), global("b")), "c")), None);
    // f().a
    assert_eq!(AccessChain::of(&member(other("call", vec![global("f")]), "a")), None);
    // "a".b
    assert_eq!(AccessChain::of(&member(string("a"), "b")), None);
    assert_eq!(AccessChain::of(&string("a")), None);
    assert_eq!(AccessChain::of(&object(vec![])), None);
}

#[test]
fn a_computed_key_ends_the_chain_and_is_rewritten_by_itself() {
    let config = config(vec![
        define("a.b", "X", global("X")),
        define("c", "'key'", string("key")),
        define("a.b.d", "never", global("never")),
    ]);
    // a.b[c].d
    assert_eq!(
        rewrite(member(bracket(member(global("a"), "b"), global("c")), "d"), &config),
        member(bracket(global("X"), string("key")), "d")
    );
    // q[a.b][c.x]
    assert_eq!(
        rewrite(
            bracket(bracket(global("q"), member(global("a"), "b")), member(global("c"), "x")),
            &config
        ),
        bracket(bracket(global("q"), global("X")), member(string("key"), "x"))
    );
}

#[test]
fn a_call_in_the_chain_is_no_part_of_it() {
    let config = config(vec![define("a.b", "X", global("X")), define("f.a.b", "Y", global("Y"))]);
    // f().a.b
    let callee = other("call", vec![global("f")]);
    assert_eq!(
        rewrite(member(member(callee.clone(), "a"), "b"), &config),
        member(member(callee, "a"), "b")
    );
    // a.b().a.b
    assert_eq!(
        rewrite(
            member(member(other("call", vec![member(global("a"), "b")]), "a"), "b"),
            &config
        ),
        member(member(other("call", vec![global("X")]), "a"), "b")
    );
}

#[test]
fn what_stays_of_a_chain_keeps_its_form() {
    let config = config(vec![define("a", "X", global("X"))]);
    // a.b?.c['d']
    let rest = |root: Node| bracket(optional_member(member(root, "b"), "c"), string("d"));
    assert_eq!(rewrite(rest(global("a")), &config), rest(global("X")));
}

#[test]
fn what_was_put_in_is_not_rewritten_again() {
    let config = config(vec![
        define("a", "b.c", member(global("b"), "c")),
        define("b", "a", global("a")),
        define("b.c", "'deep'", string("deep")),
    ]);
    assert_eq!(rewrite(global("a"), &config), member(global("b"), "c"));
    assert_eq!(rewrite(global("b"), &config), global("a"));
    assert_eq!(
        rewrite(other("array", vec![global("a"), global("b"), global("a")]), &config),
        other("array", vec![member(global("b"), "c"), global("a"), member(global("b"), "c")])
    );
}

#[test]
fn a_name_that_the_program_binds_is_left_alone() {
    let config = config(vec![
        define("a", "X", global("X")),
        define("a.b", "Y", global("Y")),
        define("a.*", "Z", global("Z")),
    ]);
    for shadowed in [local("a"), member(local("a"), "b"), member(member(local("a"), "c"), "d")] {
        assert_eq!(rewrite(shadowed.clone(), &config), shadowed);
    }
    assert_eq!(rewrite(member(global("a"), "b"), &config), global("Y"));
    // A reference that the model does not know counts as bound.
    let unknown = at(NodeKind::Identifier { name: "a".to_string(), reference: 9 });
    assert_eq!(rewrite(unknown.clone(), &config), unknown);
}

#[test]
fn the_model_answers_for_each_reference() {
    let model = SemanticModel::new(vec![Resolution::Binding, Resolution::Unbound]);
    assert_eq!(model.resolve_identifier(0), Resolution::Binding);
    assert_eq!(model.resolve_identifier(1), Resolution::Unbound);
    assert_eq!(model.resolve_identifier(2), Resolution::Binding);
    assert_eq!(model.resolve_identifier(usize::MAX), Resolution::Binding);
    assert!(!model.is_global_reference(0));
    assert!(model.is_global_reference(1));
    assert!(!model.is_global_reference(2));
    assert!(!SemanticModel::new(vec![]).is_global_reference(0));
}

#[test]
fn this_is_replaced_only_outside_every_ordinary_function() {
    let config = config(vec![define("this.x", "1", other("1", vec![]))]);
    let this_x = || member(at(NodeKind::This), "x");
    let one = || other("1", vec![]);
    assert_eq!(rewrite(this_x(), &config), one());
    assert_eq!(rewrite(arrow(vec![this_x()]), &config), arrow(vec![one()]));
    assert_eq!(rewrite(arrow(vec![arrow(vec![this_x()])]), &config), arrow(vec![arrow(vec![one()])]));
    assert_eq!(rewrite(function(vec![this_x()]), &config), function(vec![this_x()]));
    assert_eq!(
        rewrite(function(vec![arrow(vec![this_x()])]), &config),
        function(vec![arrow(vec![this_x()])])
    );
    assert_eq!(
        rewrite(arrow(vec![function(vec![this_x()]), this_x()]), &config),
        arrow(vec![function(vec![this_x()]), one()])
    );
    // A default value of a parameter belongs to the function.
    let with_default = |init: Node| declarator(other("p", vec![]), init);
    assert_eq!(
        rewrite(function(vec![with_default(this_x())]), &config),
        function(vec![with_default(this_x())])
    );
    assert_eq!(
        rewrite(arrow(vec![with_default(this_x())]), &config),
        arrow(vec![with_default(one())])
    );
}

#[test]
fn a_function_does_not_hide_names_or_import_meta() {
    let config = config(vec![
        define("a", "X", global("X")),
        define("import.meta.url", "'u'", string("u")),
    ]);
    assert_eq!(
        rewrite(
            function(vec![global("a"), member(at(NodeKind::ImportMeta), "url")]),
            &config
        ),
        function(vec![global("X"), string("u")])
    );
}

#[test]
fn a_rule_on_import_alone_does_not_split_import_meta() {
    let config = config(vec![define("import", "X", global("X"))]);
    let meta_url = member(at(NodeKind::ImportMeta), "url");
    assert_eq!(rewrite(meta_url.clone(), &config), meta_url);
    assert_eq!(rewrite(at(NodeKind::ImportMeta), &config), at(NodeKind::ImportMeta));
    // A name spelled `import` is a chain of one segment.
    assert_eq!(rewrite(global("import"), &config), global("X"));
}

#[test]
fn the_keys_of_a_pattern_are_read_in_order() {
    assert_eq!(
        referenced_keys(&vec![
            key("a", other("a", vec![])),
            key("b", other("renamed", vec![])),
            key("a", pattern(vec![key("inner", other("inner", vec![]))])),
        ]),
        Some(strings(&["a", "b", "a"]))
    );
    assert_eq!(referenced_keys(&vec![]), Some(vec![]));
    assert_eq!(
        referenced_keys(&vec![
            key("a", other("a", vec![])),
            Property::Computed { key: global("k"), value: other("b", vec![]) },
        ]),
        None
    );
    assert_eq!(
        referenced_keys(&vec![
            key("a", other("a", vec![])),
            Property::Spread { argument: other("rest", vec![]) },
        ]),
        None
    );
}

#[test]
fn has_key_compares_the_whole_text() {
    let keys = strings(&["a", "bc", ""]);
    assert!(has_key(&keys, &"a".to_string()));
    assert!(has_key(&keys, &"bc".to_string()));
    assert!(has_key(&keys, &"".to_string()));
    assert!(!has_key(&keys, &"b".to_string()));
    assert!(!has_key(&keys, &"abc".to_string()));
    assert!(!has_key(&vec![], &"a".to_string()));
}

#[test]
fn pruning_keeps_the_wanted_keys_in_the_order_of_the_literal() {
    let literal = vec![
        key("a", other("1", vec![])),
        Property::Spread { argument: global("s") },
        key("b", other("2", vec![])),
        Property::Computed { key: global("k"), value: other("3", vec![]) },
        key("c", other("4", vec![])),
        key("a", other("5", vec![])),
    ];
    assert_eq!(
        prune(&literal, &strings(&["c", "a"])),
        vec![
            key("a", other("1", vec![])),
            Property::Spread { argument: global("s") },
            Property::Computed { key: global("k"), value: other("3", vec![]) },
            key("c", other("4", vec![])),
            key("a", other("5", vec![])),
        ]
    );
    assert_eq!(
        prune(&literal, &vec![]),
        vec![
            Property::Spread { argument: global("s") },
            Property::Computed { key: global("k"), value: other("3", vec![]) },
        ]
    );
    assert_eq!(prune(&vec![], &strings(&["a"])), vec![]);
}

#[test]
fn a_default_value_of_a_parameter_is_pruned_too() {
    let config = config(vec![define("process.env.NODE_ENV", "{a: 1, b: 2, c: 3}", abc_literal())]);
    // function ({ b } = process.env.NODE_ENV) {}
    assert_eq!(
        rewrite(
            function(vec![declarator(pattern(vec![key("b", other("b", vec![]))]), node_env())]),
            &config
        ),
        function(vec![declarator(
            pattern(vec![key("b", other("b", vec![]))]),
            object(vec![key("b", other("2", vec![]))])
        )])
    );
}

#[test]
fn a_pattern_with_a_rest_element_keeps_the_whole_literal() {
    let config = config(vec![define("process.env.NODE_ENV", "{a: 1, b: 2, c: 3}", abc_literal())]);
    let target = || {
        pattern(vec![
            key("a", other("a", vec![])),
            Property::Spread { argument: other("rest", vec![]) },
        ])
    };
    assert_eq!(
        rewrite(declarator(target(), node_env()), &config),
        declarator(target(), abc_literal())
    );
}

#[test]
fn only_the_whole_initializer_of_a_pattern_is_pruned() {
    let config = config(vec![
        define("process.env.NODE_ENV", "{a: 1, b: 2, c: 3}", abc_literal()),
        define("process.env.MODE", "'m'", string("m")),
    ]);
    let a = || pattern(vec![key("a", other("a", vec![]))]);
    // const { a } = process.env.NODE_ENV.next
    assert_eq!(
        rewrite(declarator(a(), member(node_env(), "next")), &config),
        declarator(a(), member(abc_literal(), "next"))
    );
    // const { a } = [process.env.NODE_ENV]
    assert_eq!(
        rewrite(declarator(a(), other("array", vec![node_env()])), &config),
        declarator(a(), other("array", vec![abc_literal()]))
    );
    // const x = process.env.NODE_ENV
    assert_eq!(
        rewrite(declarator(other("x", vec![]), node_env()), &config),
        declarator(other("x", vec![]), abc_literal())
    );
    // ({ a } = process.env.NODE_ENV)
    assert_eq!(
        rewrite(other("=", vec![a(), node_env()]), &config),
        other("=", vec![a(), abc_literal()])
    );
    // const { a } = process.env.MODE
    assert_eq!(
        rewrite(declarator(a(), member(member(global("process"), "env"), "MODE")), &config),
        declarator(a(), string("m"))
    );
    // const { a } = process.env.NODE_ENV, with `process` bound
    let bound = member(member(local("process"), "env"), "NODE_ENV");
    assert_eq!(rewrite(declarator(a(), bound.clone()), &config), declarator(a(), bound));
}

#[test]
fn a_pattern_is_rewritten_inside() {
    let config = config(vec![
        define("K", "'k'", string("k")),
        define("D", "0", other("0", vec![])),
        define("V", "{a: 1, b: 2, c: 3}", abc_literal()),
    ]);
    // const { [K]: x, a: { b } = V, c = D } = V
    let target = |key_node: Node, nested: Node, default: Node| {
        pattern(vec![
            Property::Computed { key: key_node, value: other("x", vec![]) },
            key("a", declarator(pattern(vec![key("b", other("b", vec![]))]), nested)),
            key("c", declarator(other("c", vec![]), default)),
        ])
    };
    assert_eq!(
        rewrite(declarator(target(global("K"), global("V"), global("D")), global("V")), &config),
        declarator(
            target(string("k"), object(vec![key("b", other("2", vec![]))]), other("0", vec![])),
            abc_literal()
        )
    );
}

#[test]
fn the_fragment_takes_the_place_and_the_span_of_what_it_replaces() {
    let spanned = |start: u32, end: u32, kind: NodeKind| Node { span: Span { start, end }, kind };
    let name = |start: u32, end: u32, name: &str| {
        spanned(start, end, NodeKind::Identifier { name: name.to_string(), reference: 0 })
    };
    let access = |start: u32, end: u32, object: Node, property: &str| {
        spanned(
            start,
            end,
            NodeKind::StaticMember {
                object: Box::new(object),
                property: property.to_string(),
                optional: false,
            },
        )
    };
    // The fragment `x.y`, as it lies in its own text.
    let fragment = access(0, 3, name(0, 1, "x"), "y");
    let config = config(vec![define("a.b", "x.y", fragment)]);
    // `a.b.c` at 10..15
    let source = access(10, 15, access(10, 13, name(10, 11, "a"), "b"), "c");
    assert_eq!(
        rewrite(source, &config),
        access(10, 15, access(10, 13, name(0, 1, "x"), "y"), "c")
    );
}

#[test]
fn copies_are_equal_to_what_they_copy() {
    let nodes = vec![
        node_env(),
        abc_literal(),
        function(vec![declarator(pattern(vec![key("a", other("a", vec![]))]), string("s"))]),
        bracket(at(NodeKind::ImportMeta), at(NodeKind::This)),
    ];
    assert_eq!(duplicate_nodes(&nodes), nodes);
    for node in &nodes {
        assert_eq!(node.duplicate(), *node);
    }
    let properties = vec![
        key("a", string("s")),
        Property::Computed { key: global("k"), value: global("v") },
        Property::Spread { argument: node_env() },
    ];
    assert_eq!(duplicate_properties(&properties), properties);
    for property in &properties {
        assert_eq!(property.duplicate(), *property);
    }
}

#[test]
fn rewrite_gives_a_new_tree_and_leaves_the_old_one() {
    let config = config(vec![define("a", "X", global("X"))]);
    let engine = ReplaceGlobalDefines::new(&config);
    let source = other("array", vec![global("a"), function(vec![at(NodeKind::This)])]);
    let kept = source.clone();
    assert_eq!(
        engine.rewrite(&model(), &source, true),
        other("array", vec![global("X"), function(vec![at(NodeKind::This)])])
    );
    assert_eq!(source, kept);
    assert_eq!(Span::new(3, 8), Span { start: 3, end: 8 });
}
