use script_passes::{
    BoundaryKind, Define, Node, NodeKind, Property, ReplaceGlobalDefines,
    ReplaceGlobalDefinesConfig, Resolution, SemanticModel, Span,
};

fn at(kind: NodeKind) -> Node {
    Node { span: Span { start: 0, end: 0 }, kind }
}

/// A reference to a name that nothing in the program declares.
fn global(name: &str) -> Node {
    at(NodeKind::Identifier { name: name.to_string(), reference: 0 })
}

/// A reference to a name that the program declares.
fn local(name: &str) -> Node {
    at(NodeKind::Identifier { name: name.to_string(), reference: 1 })
}

fn model() -> SemanticModel {
    SemanticModel::new(vec![Resolution::Unbound, Resolution::Binding])
}

fn other(label: &str, children: Vec<Node>) -> Node {
    at(NodeKind::Other { label: label.to_string(), children })
}

fn string(value: &str) -> Node {
    at(NodeKind::StringLiteral { value: value.to_string() })
}

fn literal(raw: &str) -> Node {
    other(raw, vec![])
}

fn this() -> Node {
    at(NodeKind::This)
}

fn import_meta() -> Node {
    at(NodeKind::ImportMeta)
}

fn member(object: Node, property: &str) -> Node {
    at(NodeKind::StaticMember {
        object: Box::new(object),
        property: property.to_string(),
        optional: false,
    })
}

fn optional_member(object: Node, property: &str) -> Node {
    at(NodeKind::StaticMember {
        object: Box::new(object),
        property: property.to_string(),
        optional: true,
    })
}

fn bracket(object: Node, key: Node) -> Node {
    at(NodeKind::ComputedMember { object: Box::new(object), key: Box::new(key), optional: false })
}

fn optional_bracket(object: Node, key: Node) -> Node {
    at(NodeKind::ComputedMember { object: Box::new(object), key: Box::new(key), optional: true })
}

fn object(properties: Vec<Property>) -> Node {
    at(NodeKind::ObjectLiteral { properties })
}

fn pattern(properties: Vec<Property>) -> Node {
    at(NodeKind::ObjectPattern { properties })
}

fn key(name: &str, value: Node) -> Property {
    Property::Static { name: name.to_string(), value }
}

fn computed(key: Node, value: Node) -> Property {
    Property::Computed { key, value }
}

fn spread(argument: Node) -> Property {
    Property::Spread { argument }
}

fn binding(name: &str) -> Node {
    other(name, vec![])
}

fn declarator(target: Node, init: Node) -> Node {
    at(NodeKind::Declarator { target: Box::new(target), init: Some(Box::new(init)) })
}

fn parameter(target: Node) -> Node {
    at(NodeKind::Declarator { target: Box::new(target), init: None })
}

fn constant(target: Node, init: Node) -> Node {
    other("const", vec![declarator(target, init)])
}

fn let_(target: Node, init: Node) -> Node {
    other("let", vec![declarator(target, init)])
}

/// `const _ = init`
fn const_underscore(init: Node) -> Node {
    constant(binding("_"), init)
}

fn array(elements: Vec<Node>) -> Node {
    other("array", elements)
}

fn sequence(expressions: Vec<Node>) -> Node {
    other("sequence", expressions)
}

fn call(callee: Node, mut arguments: Vec<Node>) -> Node {
    let mut children = vec![callee];
    children.append(&mut arguments);
    other("call", children)
}

fn assign(target: Node, value: Node) -> Node {
    other("=", vec![target, value])
}

fn type_of(argument: Node) -> Node {
    other("typeof", vec![argument])
}

fn statement(expression: Node) -> Node {
    other("statement", vec![expression])
}

fn function(children: Vec<Node>) -> Node {
    at(NodeKind::Function { boundary: BoundaryKind::OrdinaryBoundary, children })
}

fn arrow(children: Vec<Node>) -> Node {
    at(NodeKind::Function { boundary: BoundaryKind::ArrowFunction, children })
}

fn define(path: &str, replacement: &str, parsed: Node) -> Define {
    Define { path: path.to_string(), replacement: replacement.to_string(), parsed: Some(parsed) }
}

fn config(defines: Vec<Define>) -> ReplaceGlobalDefinesConfig {
    ReplaceGlobalDefinesConfig::new(&defines).unwrap()
}

fn test(source: Node, expected: Node, config: &ReplaceGlobalDefinesConfig) {
    let mut program = source;
    ReplaceGlobalDefines::new(config).build(&model(), &mut program);
    assert_eq!(program, expected);
}

fn test_same(source: Node, config: &ReplaceGlobalDefinesConfig) {
    let expected = source.clone();
    test(source, expected, config);
}

/// `process.env.NODE_ENV`
fn process_env_node_env() -> Node {
    member(member(global("process"), "env"), "NODE_ENV")
}

/// `import.meta.env`
fn import_meta_env() -> Node {
    member(import_meta(), "env")
}

#[test]
fn simple() {
    let config =
        config(vec![define("id", "text", global("text")), define("str", "'text'", string("text"))]);
    test(
        const_underscore(array(vec![global("id"), global("str")])),
        const_underscore(array(vec![global("text"), string("text")])),
        &config,
    );
}

#[test]
fn shadowed() {
    let config = config(vec![
        define("undefined", "text", global("text")),
        define("NaN", "'text'", string("text")),
        define("process.env.NODE_ENV", "'test'", string("test")),
    ]);
    // (function (undefined) { let x = typeof undefined })()
    test_same(
        statement(call(
            function(vec![
                parameter(binding("undefined")),
                let_(binding("x"), type_of(local("undefined"))),
            ]),
            vec![],
        )),
        &config,
    );
    // (function (NaN) { let x = typeof NaN })()
    test_same(
        statement(call(
            function(vec![parameter(binding("NaN")), let_(binding("x"), type_of(local("NaN")))]),
            vec![],
        )),
        &config,
    );
    // (function (process) { let x = process.env.NODE_ENV })()
    test_same(
        statement(call(
            function(vec![
                parameter(binding("process")),
                let_(binding("x"), member(member(local("process"), "env"), "NODE_ENV")),
            ]),
            vec![],
        )),
        &config,
    );
}

#[test]
fn dot() {
    let config = config(vec![define("process.env.NODE_ENV", "production", global("production"))]);
    test(
        const_underscore(process_env_node_env()),
        const_underscore(global("production")),
        &config,
    );
    test(
        const_underscore(member(global("process"), "env")),
        const_underscore(member(global("process"), "env")),
        &config,
    );
    test(
        const_underscore(member(member(member(global("process"), "env"), "foo"), "bar")),
        const_underscore(member(member(member(global("process"), "env"), "foo"), "bar")),
        &config,
    );
    test(const_underscore(global("process")), const_underscore(global("process")), &config);

    // computed member expression
    test(
        const_underscore(member(bracket(global("process"), string("env")), "NODE_ENV")),
        const_underscore(global("production")),
        &config,
    );
}

#[test]
fn dot_with_overlap() {
    let config = config(vec![
        define("import.meta.env.FOO", "import.meta.env.FOO", member(import_meta_env(), "FOO")),
        define("import.meta.env", "__foo__", global("__foo__")),
    ]);
    test(const_underscore(import_meta_env()), const_underscore(global("__foo__")), &config);
    test(
        const_underscore(member(import_meta_env(), "FOO")),
        const_underscore(member(import_meta_env(), "FOO")),
        &config,
    );
    test(
        const_underscore(member(import_meta_env(), "NODE_ENV")),
        const_underscore(member(global("__foo__"), "NODE_ENV")),
        &config,
    );

    test(
        statement(assign(import_meta_env(), literal("0"))),
        statement(assign(global("__foo__"), literal("0"))),
        &config,
    );
    test(
        statement(assign(member(import_meta_env(), "NODE_ENV"), literal("0"))),
        statement(assign(member(global("__foo__"), "NODE_ENV"), literal("0"))),
        &config,
    );
    test(
        statement(assign(member(import_meta_env(), "FOO"), literal("0"))),
        statement(assign(member(import_meta_env(), "FOO"), literal("0"))),
        &config,
    );
}

#[test]
fn dot_define_is_member_expr_postfix() {
    // {"process":{"env":{"SOMEVAR":"foo"}}}
    let nested = object(vec![key(
        "process",
        object(vec![key("env", object(vec![key("SOMEVAR", string("foo"))]))]),
    )]);
    let config = config(vec![
        define("__OBJ__", r#"{"process":{"env":{"SOMEVAR":"foo"}}}"#, nested.clone()),
        define("process.env.SOMEVAR", "\"SOMEVAR\"", string("SOMEVAR")),
    ]);
    test(
        statement(call(
            member(global("console"), "log"),
            vec![member(member(member(global("__OBJ__"), "process"), "env"), "SOMEVAR")],
        )),
        statement(call(
            member(global("console"), "log"),
            vec![member(member(member(nested, "process"), "env"), "SOMEVAR")],
        )),
        &config,
    );
}

#[test]
fn dot_nested() {
    let config = config(vec![define("process", "production", global("production"))]);
    test(
        statement(member(member(global("foo"), "process"), "NODE_ENV")),
        statement(member(member(global("foo"), "process"), "NODE_ENV")),
        &config,
    );
    // computed member expression
    test(
        statement(member(bracket(global("foo"), string("process")), "NODE_ENV")),
        statement(member(bracket(global("foo"), string("process")), "NODE_ENV")),
        &config,
    );
}

#[test]
fn dot_with_postfix_wildcard() {
    let config = config(vec![define("import.meta.env.*", "undefined", global("undefined"))]);
    test(
        const_underscore(member(import_meta_env(), "result")),
        const_underscore(global("undefined")),
        &config,
    );
    test(const_underscore(import_meta_env()), const_underscore(import_meta_env()), &config);
}

#[test]
fn dot_with_postfix_mixed() {
    let config = config(vec![
        define("import.meta.env.*", "undefined", global("undefined")),
        define("import.meta.env", "env", global("env")),
        define("import.meta.*", "metaProperty", global("metaProperty")),
        define("import.meta", "1", literal("1")),
    ]);
    // An exact rule on a prefix of the chain comes before every wildcard
    // rule: the rest of the chain stays on the replacement.
    test(
        const_underscore(member(import_meta_env(), "result")),
        const_underscore(member(global("env"), "result")),
        &config,
    );
    test(
        const_underscore(member(member(member(import_meta_env(), "result"), "many"), "nested")),
        const_underscore(member(member(member(global("env"), "result"), "many"), "nested")),
        &config,
    );
    test(const_underscore(import_meta_env()), const_underscore(global("env")), &config);
    test(
        const_underscore(member(import_meta(), "somethingelse")),
        const_underscore(member(literal("1"), "somethingelse")),
        &config,
    );
    test(const_underscore(import_meta()), const_underscore(literal("1")), &config);
}

#[test]
fn optional_chain() {
    let config = config(vec![define("a.b.c", "1", literal("1"))]);
    let one = || const_underscore(literal("1"));
    test(const_underscore(member(member(global("a"), "b"), "c")), one(), &config);
    test(const_underscore(member(optional_member(global("a"), "b"), "c")), one(), &config);
    test(const_underscore(optional_member(member(global("a"), "b"), "c")), one(), &config);
    test(
        const_underscore(bracket(bracket(global("a"), string("b")), string("c"))),
        one(),
        &config,
    );
    test(
        const_underscore(bracket(optional_bracket(global("a"), string("b")), string("c"))),
        one(),
        &config,
    );
    test(
        const_underscore(optional_bracket(bracket(global("a"), string("b")), string("c"))),
        one(),
        &config,
    );

    test_same(statement(bracket(bracket(global("a"), global("b")), global("c"))), &config);
    test_same(statement(bracket(optional_bracket(global("a"), global("b")), global("c"))), &config);
    test_same(statement(optional_bracket(bracket(global("a"), global("b")), global("c"))), &config);
}

#[test]
fn dot_define_with_destruct() {
    // {'a': 1, b: 2, c: true, d: {a: b}}
    let replacement = object(vec![
        key("a", literal("1")),
        key("b", literal("2")),
        key("c", literal("true")),
        key("d", object(vec![key("a", global("b"))])),
    ]);
    let config = config(vec![define(
        "process.env.NODE_ENV",
        "{'a': 1, b: 2, c: true, d: {a: b}}",
        replacement.clone(),
    )]);
    // const {a, c} = process.env.NODE_ENV
    test(
        constant(
            pattern(vec![key("a", binding("a")), key("c", binding("c"))]),
            process_env_node_env(),
        ),
        constant(
            pattern(vec![key("a", binding("a")), key("c", binding("c"))]),
            object(vec![key("a", literal("1")), key("c", literal("true"))]),
        ),
        &config,
    );
    // bailout
    // const {[any]: alias} = process.env.NODE_ENV
    test(
        constant(
            pattern(vec![computed(global("any"), binding("alias"))]),
            process_env_node_env(),
        ),
        constant(pattern(vec![computed(global("any"), binding("alias"))]), replacement),
        &config,
    );

    // should filterout unused key even rhs objectExpr has SpreadElement

    let config = self::config(vec![define(
        "process.env.NODE_ENV",
        "{'a': 1, b: 2, c: true, ...unknown}",
        object(vec![
            key("a", literal("1")),
            key("b", literal("2")),
            key("c", literal("true")),
            spread(global("unknown")),
        ]),
    )]);
    // const {a} = process.env.NODE_ENV
    test(
        constant(pattern(vec![key("a", binding("a"))]), process_env_node_env()),
        constant(
            pattern(vec![key("a", binding("a"))]),
            object(vec![key("a", literal("1")), spread(global("unknown"))]),
        ),
        &config,
    );
}

/// `this, this.foo, this.foo.bar, this.foo.baz, this.bar`
fn this_chains() -> Vec<Node> {
    vec![
        this(),
        member(this(), "foo"),
        member(member(this(), "foo"), "bar"),
        member(member(this(), "foo"), "baz"),
        member(this(), "bar"),
    ]
}

/// `1, 2, 3, 2 .baz, 1 .bar`
fn this_chains_replaced() -> Vec<Node> {
    vec![
        literal("1"),
        literal("2"),
        literal("3"),
        member(literal("2"), "baz"),
        member(literal("1"), "bar"),
    ]
}

#[test]
fn this_expr() {
    let config = config(vec![
        define("this", "1", literal("1")),
        define("this.foo", "2", literal("2")),
        define("this.foo.bar", "3", literal("3")),
    ]);
    test(
        const_underscore(sequence(this_chains())),
        const_underscore(sequence(this_chains_replaced())),
        &config,
    );

    // This code should be the same as above
    // (() => { ok( this, this.foo, this.foo.bar, this.foo.baz, this.bar,) })();
    test(
        statement(call(arrow(vec![statement(call(global("ok"), this_chains()))]), vec![])),
        statement(call(
            arrow(vec![statement(call(global("ok"), this_chains_replaced()))]),
            vec![],
        )),
        &config,
    );

    // Nothing should be substituted in this code
    test_same(
        statement(call(
            function(vec![statement(call(global("doNotSubstitute"), this_chains()))]),
            vec![],
        )),
        &config,
    );
}

#[test]
fn assignment_target() {
    let dot_chain = || member(global("dot"), "chain");
    let config = config(vec![
        define("d", "ident", global("ident")),
        define("e.f", "ident", global("ident")),
        define("g", "dot.chain", dot_chain()),
        define("h.i", "dot.chain", dot_chain()),
    ]);
    let zero = || literal("0");

    test(
        statement(call(
            member(global("console"), "log"),
            vec![
                array(vec![
                    assign(global("a"), zero()),
                    assign(member(global("b"), "c"), zero()),
                    assign(bracket(global("b"), string("c")), zero()),
                ]),
                array(vec![
                    assign(global("d"), zero()),
                    assign(member(global("e"), "f"), zero()),
                    assign(bracket(global("e"), string("f")), zero()),
                ]),
                array(vec![
                    assign(global("g"), zero()),
                    assign(member(global("h"), "i"), zero()),
                    assign(bracket(global("h"), string("i")), zero()),
                ]),
            ],
        )),
        statement(call(
            member(global("console"), "log"),
            vec![
                array(vec![
                    assign(global("a"), zero()),
                    assign(member(global("b"), "c"), zero()),
                    assign(bracket(global("b"), string("c")), zero()),
                ]),
                array(vec![
                    assign(global("ident"), zero()),
                    assign(global("ident"), zero()),
                    assign(global("ident"), zero()),
                ]),
                array(vec![
                    assign(dot_chain(), zero()),
                    assign(dot_chain(), zero()),
                    assign(dot_chain(), zero()),
                ]),
            ],
        )),
        &config,
    );
}

fn spanned(start: u32, end: u32, kind: NodeKind) -> Node {
    Node { span: Span { start, end }, kind }
}

fn name_at(start: u32, end: u32, name: &str) -> Node {
    spanned(start, end, NodeKind::Identifier { name: name.to_string(), reference: 0 })
}

#[test]
fn test_sourcemap() {
    // The fragments as the replacement texts spell them, with the ranges
    // that they have in those texts.
    let object_fragment = spanned(
        0,
        17,
        NodeKind::ObjectLiteral {
            properties: vec![key(
                "hello",
                spanned(10, 16, NodeKind::StringLiteral { value: "test".to_string() }),
            )],
        },
    );
    let string_fragment =
        spanned(0, 13, NodeKind::StringLiteral { value: "development".to_string() });
    let member_fragment = spanned(
        0,
        8,
        NodeKind::StaticMember {
            object: Box::new(spanned(
                0,
                5,
                NodeKind::StaticMember {
                    object: Box::new(name_at(0, 2, "xx")),
                    property: "yy".to_string(),
                    optional: false,
                },
            )),
            property: "zz".to_string(),
            optional: false,
        },
    );
    let config = config(vec![
        define("__OBJECT__", r#"{"hello": "test"}"#, object_fragment.clone()),
        define("__STRING__", r#""development""#, string_fragment.clone()),
        define("__MEMBER__", r"xx.yy.zz", member_fragment.clone()),
    ]);
    // 1;
    // __OBJECT__;
    // 2;
    // __STRING__;
    // 3;
    // log(__OBJECT__);
    // 4;
    // log(__STRING__);
    // 5;
    // __OBJECT__.hello;
    // 6;
    // log(__MEMBER__);
    // 7;
    let numbered = |start: u32, raw: &str| {
        spanned(
            start,
            start + 2,
            NodeKind::Other {
                label: "statement".to_string(),
                children: vec![spanned(
                    start,
                    start + 1,
                    NodeKind::Other { label: raw.to_string(), children: vec![] },
                )],
            },
        )
    };
    let expression_statement = |start: u32, end: u32, expression: Node| {
        spanned(
            start,
            end,
            NodeKind::Other { label: "statement".to_string(), children: vec![expression] },
        )
    };
    let log = |start: u32, argument: Node| {
        let end = argument.span.end + 1;
        spanned(
            start,
            end,
            NodeKind::Other {
                label: "call".to_string(),
                children: vec![name_at(start, start + 3, "log"), argument],
            },
        )
    };
    let program = |object: &dyn Fn(u32, u32) -> Node,
                   string: &dyn Fn(u32, u32) -> Node,
                   member: &dyn Fn(u32, u32) -> Node| {
        spanned(
            0,
            111,
            NodeKind::Other {
                label: "program".to_string(),
                children: vec![
                    numbered(0, "1"),
                    expression_statement(3, 14, object(3, 13)),
                    numbered(15, "2"),
                    expression_statement(18, 29, string(18, 28)),
                    numbered(30, "3"),
                    expression_statement(33, 49, log(33, object(37, 47))),
                    numbered(50, "4"),
                    expression_statement(53, 69, log(53, string(57, 67))),
                    numbered(70, "5"),
                    expression_statement(
                        73,
                        90,
                        spanned(
                            73,
                            89,
                            NodeKind::StaticMember {
                                object: Box::new(object(73, 83)),
                                property: "hello".to_string(),
                                optional: false,
                            },
                        ),
                    ),
                    numbered(91, "6"),
                    expression_statement(94, 110, log(94, member(98, 108))),
                    numbered(111, "7"),
                ],
            },
        )
    };
    let mut rewritten = program(
        &|start, end| name_at(start, end, "__OBJECT__"),
        &|start, end| name_at(start, end, "__STRING__"),
        &|start, end| name_at(start, end, "__MEMBER__"),
    );
    ReplaceGlobalDefines::new(&config).build(&model(), &mut rewritten);
    // Each fragment stands where the name stood and has the range of the
    // name; below its top it keeps the ranges of its own text.
    let expected = program(
        &|start, end| spanned(start, end, object_fragment.clone().kind),
        &|start, end| spanned(start, end, string_fragment.clone().kind),
        &|start, end| spanned(start, end, member_fragment.clone().kind),
    );
    assert_eq!(rewritten, expected);
}
