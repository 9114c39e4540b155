use crate::chain::{chain_root, chain_segments, root_length, AccessChain, ChainRoot};
use crate::config::{paths_of, DefineRuleView, ReplaceGlobalDefinesConfig};
use crate::index::{best_match, lemma_no_applicable_rule, match_pair, path_applies, Match};
use crate::path::{texts, DefinePathView};
use crate::prune::{prune, pruned, referenced_keys, static_keys};
use crate::semantic::{resolved, Resolution, SemanticModel};
use crate::span::Span;
use crate::syntax::{
    kind_view, lemma_kind_view_lists, node_view, node_views, property_view, property_views,
    BoundaryKind, Node, NodeKind, NodeKindView, NodeView, Property, PropertyView,
};
use vstd::prelude::*;

verus! {

/// Whether a chain on `root` may be replaced. A name must resolve to
/// nothing in the program; `this` must be the `this` of the program
/// itself; `import.meta` always may.
pub open spec fn eligible(root: ChainRoot, model: Seq<Resolution>, this_stable: bool) -> bool {
    match root {
        ChainRoot::Identifier { reference } => resolved(model, reference) == Resolution::Unbound,
        ChainRoot::This => this_stable,
        ChainRoot::ImportMeta => true,
    }
}

/// Whether `this` is still the `this` of the program inside a scope of
/// kind `boundary`, given whether it is so around the scope.
pub open spec fn stable_within(this_stable: bool, boundary: BoundaryKind) -> bool {
    this_stable && boundary == BoundaryKind::ArrowFunction
}

/// Whether `this` is the `this` of the program below the scopes of
/// `boundaries`, listed from the outermost inwards: it is unless one of
/// them is an ordinary boundary.
pub open spec fn stable_below(boundaries: Seq<BoundaryKind>) -> bool {
    forall|i: int| 0 <= i < boundaries.len() ==> boundaries[i] == BoundaryKind::ArrowFunction
}

/// The rule that replaces the chain `node`, with the number of segments
/// that it consumes: the most specific rule, unless `node` is no chain or
/// its root is not eligible.
pub open spec fn site_match(
    node: NodeView,
    rules: Seq<DefineRuleView>,
    model: Seq<Resolution>,
    this_stable: bool,
) -> Option<(int, int)> {
    match chain_root(node) {
        Some(root) => if eligible(root, model, this_stable) {
            best_match(paths_of(rules), chain_segments(node), root_length(root))
        } else {
            None
        },
        None => None,
    }
}

/// The chain `node` with its first `consumed` segments replaced by
/// `fragment`. The node that spelled the last of them gives its span to
/// the fragment; the accesses above it stay as they are.
pub open spec fn spliced(node: NodeView, consumed: int, fragment: NodeView) -> NodeView
    decreases node,
{
    if chain_segments(node).len() <= consumed {
        NodeView { span: node.span, kind: fragment.kind }
    } else {
        match node.kind {
            NodeKindView::StaticMember { object, property, optional } => NodeView {
                span: node.span,
                kind: NodeKindView::StaticMember {
                    object: Box::new(spliced(*object, consumed, fragment)),
                    property,
                    optional,
                },
            },
            NodeKindView::ComputedMember { object, key, optional } => NodeView {
                span: node.span,
                kind: NodeKindView::ComputedMember {
                    object: Box::new(spliced(*object, consumed, fragment)),
                    key,
                    optional,
                },
            },
            _ => node,
        }
    }
}

/// The keys that the binding target refers to, if it is an object pattern
/// whose keys are all known statically.
pub open spec fn pattern_keys(target: NodeView) -> Option<Seq<Seq<char>>> {
    match target.kind {
        NodeKindView::ObjectPattern { properties } => static_keys(properties),
        _ => None,
    }
}

/// The properties of `fragment` that an initialiser bound by `target`
/// keeps, where pruning applies: where the fragment is an object literal
/// and the target an object pattern with static keys only.
pub open spec fn pruned_literal(target: NodeView, fragment: NodeView) -> Option<Seq<PropertyView>> {
    match (pattern_keys(target), fragment.kind) {
        (Some(keys), NodeKindView::ObjectLiteral { properties }) => Some(pruned(properties, keys)),
        _ => None,
    }
}

/// The node after rewriting. A chain is replaced as far as its match
/// consumes it, and is left alone without a match; what was put in is not
/// looked at again. Any other node is rebuilt from its rewritten parts.
pub open spec fn rewritten(
    node: NodeView,
    rules: Seq<DefineRuleView>,
    model: Seq<Resolution>,
    this_stable: bool,
) -> NodeView
    decreases node, 1int,
{
    if chain_root(node) is Some {
        match site_match(node, rules, model, this_stable) {
            Some((rule, consumed)) => spliced(node, consumed, rules[rule].fragment),
            None => node,
        }
    } else {
        NodeView { span: node.span, kind: rewritten_kind(node.kind, rules, model, this_stable) }
    }
}

/// The initialiser `init` of a declarator with the binding target `target`
/// after rewriting. Where a rule replaces the whole of it by an object
/// literal and the target is an object pattern with static keys only, the
/// literal keeps only what the pattern refers to.
pub open spec fn initialized(
    target: NodeView,
    init: NodeView,
    rules: Seq<DefineRuleView>,
    model: Seq<Resolution>,
    this_stable: bool,
) -> NodeView
    decreases init, 2int,
{
    match site_match(init, rules, model, this_stable) {
        Some((rule, consumed)) => if consumed >= chain_segments(init).len() {
            match pruned_literal(target, rules[rule].fragment) {
                Some(properties) => NodeView {
                    span: init.span,
                    kind: NodeKindView::ObjectLiteral { properties },
                },
                None => rewritten(init, rules, model, this_stable),
            }
        } else {
            rewritten(init, rules, model, this_stable)
        },
        None => rewritten(init, rules, model, this_stable),
    }
}

/// The nodes after rewriting, each by itself.
pub open spec fn rewritten_nodes(
    nodes: Seq<NodeView>,
    rules: Seq<DefineRuleView>,
    model: Seq<Resolution>,
    this_stable: bool,
) -> Seq<NodeView>
    decreases nodes, 0int,
{
    Seq::new(
        nodes.len(),
        |i: int|
            if 0 <= i < nodes.len() {
                rewritten(nodes[i], rules, model, this_stable)
            } else {
                arbitrary()
            },
    )
}

/// The properties after rewriting, each by itself.
pub open spec fn rewritten_properties(
    properties: Seq<PropertyView>,
    rules: Seq<DefineRuleView>,
    model: Seq<Resolution>,
    this_stable: bool,
) -> Seq<PropertyView>
    decreases properties, 0int,
{
    Seq::new(
        properties.len(),
        |i: int|
            if 0 <= i < properties.len() {
                rewritten_property(properties[i], rules, model, this_stable)
            } else {
                arbitrary()
            },
    )
}

/// The property after rewriting: its computed key and its value, or its
/// argument.
pub open spec fn rewritten_property(
    property: PropertyView,
    rules: Seq<DefineRuleView>,
    model: Seq<Resolution>,
    this_stable: bool,
) -> PropertyView
    decreases property, 0int,
{
    match property {
        PropertyView::Static { name, value } => PropertyView::Static {
            name,
            value: rewritten(value, rules, model, this_stable),
        },
        PropertyView::Computed { key, value } => PropertyView::Computed {
            key: rewritten(key, rules, model, this_stable),
            value: rewritten(value, rules, model, this_stable),
        },
        PropertyView::Spread { argument } => PropertyView::Spread {
            argument: rewritten(argument, rules, model, this_stable),
        },
    }
}

/// The kind of a node that is no chain, after rewriting: the same kind
/// with each part rewritten. Inside a function-like scope `this` is the
/// `this` of the program only if the scope is an arrow function.
pub open spec fn rewritten_kind(
    kind: NodeKindView,
    rules: Seq<DefineRuleView>,
    model: Seq<Resolution>,
    this_stable: bool,
) -> NodeKindView
    decreases kind, 0int,
{
    match kind {
        NodeKindView::StaticMember { object, property, optional } => NodeKindView::StaticMember {
            object: Box::new(rewritten(*object, rules, model, this_stable)),
            property,
            optional,
        },
        NodeKindView::ComputedMember { object, key, optional } => NodeKindView::ComputedMember {
            object: Box::new(rewritten(*object, rules, model, this_stable)),
            key: Box::new(rewritten(*key, rules, model, this_stable)),
            optional,
        },
        NodeKindView::ObjectLiteral { properties } => NodeKindView::ObjectLiteral {
            properties: rewritten_properties(properties, rules, model, this_stable),
        },
        NodeKindView::ObjectPattern { properties } => NodeKindView::ObjectPattern {
            properties: rewritten_properties(properties, rules, model, this_stable),
        },
        NodeKindView::Declarator { target, init } => NodeKindView::Declarator {
            target: Box::new(rewritten(*target, rules, model, this_stable)),
            init: match init {
                Some(expression) => Some(
                    Box::new(initialized(*target, *expression, rules, model, this_stable)),
                ),
                None => None,
            },
        },
        NodeKindView::Function { boundary, children } => NodeKindView::Function {
            boundary,
            children: rewritten_nodes(children, rules, model, stable_within(this_stable, boundary)),
        },
        NodeKindView::Other { label, children } => NodeKindView::Other {
            label,
            children: rewritten_nodes(children, rules, model, this_stable),
        },
        _ => kind,
    }
}

/// Whether a chain on `root` may be replaced.
fn root_eligible(semantic: &SemanticModel, root: ChainRoot, this_stable: bool) -> (ok: bool)
    ensures
        ok == eligible(root, semantic@, this_stable),
{
    match root {
        ChainRoot::Identifier { reference } => semantic.is_global_reference(reference),
        ChainRoot::This => this_stable,
        ChainRoot::ImportMeta => true,
    }
}

/// Puts a copy of `fragment` in place of the first `consumed` segments of
/// the chain `node`, which spells `length` segments.
fn splice(node: &Node, length: usize, consumed: usize, fragment: &Node) -> (out: Node)
    requires
        chain_segments(node@).len() == length,
    ensures
        out@ == spliced(node@, consumed as int, fragment@),
    decreases node,
{
    if length <= consumed {
        let copy = fragment.duplicate();
        Node { span: node.span, kind: copy.kind }
    } else {
        proof {
            reveal_with_fuel(node_view, 2);
        }
        match &node.kind {
            NodeKind::StaticMember { object, property, optional } => {
                let inner = splice(object, length - 1, consumed, fragment);
                Node {
                    span: node.span,
                    kind: NodeKind::StaticMember {
                        object: Box::new(inner),
                        property: property.clone(),
                        optional: *optional,
                    },
                }
            },
            NodeKind::ComputedMember { object, key, optional } => {
                assert(node@.kind->ComputedMember_key.kind == kind_view(key.kind));
                let inner = splice(object, length - 1, consumed, fragment);
                Node {
                    span: node.span,
                    kind: NodeKind::ComputedMember {
                        object: Box::new(inner),
                        key: Box::new(key.duplicate()),
                        optional: *optional,
                    },
                }
            },
            _ => node.duplicate(),
        }
    }
}

/// The engine: a configuration, applied to programs one at a time. The
/// configuration is only read, so any number of engines may share it.
pub struct ReplaceGlobalDefines<'a> {
    config: &'a ReplaceGlobalDefinesConfig,
}

impl<'a> View for ReplaceGlobalDefines<'a> {
    type V = Seq<DefineRuleView>;

    /// The rules of the configuration.
    closed spec fn view(&self) -> Seq<DefineRuleView> {
        self.config@
    }
}

impl<'a> ReplaceGlobalDefines<'a> {
    /// The configuration is well formed.
    pub closed spec fn wf(&self) -> bool {
        self.config.wf()
    }

    /// The engine for `config`.
    pub fn new(config: &'a ReplaceGlobalDefinesConfig) -> (engine: ReplaceGlobalDefines<'a>)
        requires
            config.wf(),
        ensures
            engine.wf(),
            engine@ == config@,
    {
        ReplaceGlobalDefines { config }
    }

    /// Rewrites `program` in place: every chain that a rule matches, whose
    /// root the semantic model reports as global and whose `this` is the
    /// `this` of the program, is replaced by a copy of the rule's fragment.
    pub fn build(&self, semantic: &SemanticModel, program: &mut Node)
        requires
            self.wf(),
        ensures
            final(program)@ == rewritten(old(program)@, self@, semantic@, true),
    {
        let out = self.rewrite(semantic, program, true);
        *program = out;
    }

    /// The rule that replaces `chain`, if one does.
    fn find(&self, semantic: &SemanticModel, chain: &AccessChain, this_stable: bool) -> (found:
        Option<Match>)
        requires
            self.wf(),
        ensures
            match_pair(found) == (if eligible(chain.root, semantic@, this_stable) {
                best_match(paths_of(self@), texts(chain.segments@), root_length(chain.root))
            } else {
                None
            }),
            found matches Some(m) ==> m.rule < self@.len(),
    {
        if root_eligible(semantic, chain.root, this_stable) {
            self.config.lookup(&chain.segments, chain.root.length())
        } else {
            None
        }
    }

    /// The node after rewriting, as a tree of its own.
    pub fn rewrite(&self, semantic: &SemanticModel, node: &Node, this_stable: bool) -> (out: Node)
        requires
            self.wf(),
        ensures
            out@ == rewritten(node@, self@, semantic@, this_stable),
        decreases node, 1int,
    {
        match AccessChain::of(node) {
            Some(chain) => match self.find(semantic, &chain, this_stable) {
                Some(found) => splice(
                    node,
                    chain.segments.len(),
                    found.consumed,
                    self.config.rule(found.rule).fragment(),
                ),
                None => node.duplicate(),
            },
            None => Node {
                span: node.span,
                kind: self.rewrite_kind(semantic, &node.kind, this_stable),
            },
        }
    }

    /// The initialiser of a declarator after rewriting, pruned where the
    /// binding target allows it.
    fn initialize(
        &self,
        semantic: &SemanticModel,
        target: &Node,
        init: &Node,
        this_stable: bool,
    ) -> (out: Node)
        requires
            self.wf(),
        ensures
            out@ == initialized(target@, init@, self@, semantic@, this_stable),
        decreases init, 2int,
    {
        match AccessChain::of(init) {
            Some(chain) => match self.find(semantic, &chain, this_stable) {
                Some(found) => {
                    let fragment = self.config.rule(found.rule).fragment();
                    if found.consumed >= chain.segments.len() {
                        match (&target.kind, &fragment.kind) {
                            (
                                NodeKind::ObjectPattern { properties: pattern },
                                NodeKind::ObjectLiteral { properties },
                            ) => {
                                proof {
                                    lemma_kind_view_lists(target.kind);
                                    lemma_kind_view_lists(fragment.kind);
                                }
                                match referenced_keys(pattern) {
                                    Some(keys) => {
                                        let kept = prune(properties, &keys);
                                        let kind = NodeKind::ObjectLiteral { properties: kept };
                                        proof {
                                            lemma_kind_view_lists(kind);
                                        }
                                        return Node { span: init.span, kind };
                                    },
                                    None => {},
                                }
                            },
                            _ => {},
                        }
                    }
                    splice(init, chain.segments.len(), found.consumed, fragment)
                },
                None => init.duplicate(),
            },
            None => Node {
                span: init.span,
                kind: self.rewrite_kind(semantic, &init.kind, this_stable),
            },
        }
    }

    fn rewrite_nodes(&self, semantic: &SemanticModel, nodes: &Vec<Node>, this_stable: bool) -> (out:
        Vec<Node>)
        requires
            self.wf(),
        ensures
            node_views(out@) == rewritten_nodes(
                node_views(nodes@),
                self@,
                semantic@,
                this_stable,
            ),
        decreases nodes, 0int,
    {
        let mut out: Vec<Node> = Vec::new();
        let mut i: usize = 0;
        while i < nodes.len()
            invariant
                self.wf(),
                i <= nodes.len(),
                out@.len() == i,
                forall|j: int|
                    0 <= j < i ==> out@[j]@ == rewritten(
                        nodes@[j]@,
                        self@,
                        semantic@,
                        this_stable,
                    ),
            decreases nodes.len() - i,
        {
            out.push(self.rewrite(semantic, &nodes[i], this_stable));
            i += 1;
        }
        assert(node_views(out@) =~= rewritten_nodes(
            node_views(nodes@),
            self@,
            semantic@,
            this_stable,
        ));
        out
    }

    fn rewrite_properties(
        &self,
        semantic: &SemanticModel,
        properties: &Vec<Property>,
        this_stable: bool,
    ) -> (out: Vec<Property>)
        requires
            self.wf(),
        ensures
            property_views(out@) == rewritten_properties(
                property_views(properties@),
                self@,
                semantic@,
                this_stable,
            ),
        decreases properties, 0int,
    {
        let mut out: Vec<Property> = Vec::new();
        let mut i: usize = 0;
        while i < properties.len()
            invariant
                self.wf(),
                i <= properties.len(),
                out@.len() == i,
                forall|j: int|
                    0 <= j < i ==> out@[j]@ == rewritten_property(
                        properties@[j]@,
                        self@,
                        semantic@,
                        this_stable,
                    ),
            decreases properties.len() - i,
        {
            let rewritten = match &properties[i] {
                Property::Static { name, value } => Property::Static {
                    name: name.clone(),
                    value: self.rewrite(semantic, value, this_stable),
                },
                Property::Computed { key, value } => Property::Computed {
                    key: self.rewrite(semantic, key, this_stable),
                    value: self.rewrite(semantic, value, this_stable),
                },
                Property::Spread { argument } => Property::Spread {
                    argument: self.rewrite(semantic, argument, this_stable),
                },
            };
            out.push(rewritten);
            i += 1;
        }
        assert(property_views(out@) =~= rewritten_properties(
            property_views(properties@),
            self@,
            semantic@,
            this_stable,
        ));
        out
    }

    fn rewrite_kind(&self, semantic: &SemanticModel, kind: &NodeKind, this_stable: bool) -> (out:
        NodeKind)
        requires
            self.wf(),
        ensures
            kind_view(out) == rewritten_kind(kind_view(*kind), self@, semantic@, this_stable),
        decreases kind, 0int,
    {
        match kind {
            NodeKind::Identifier { name, reference } => NodeKind::Identifier {
                name: name.clone(),
                reference: *reference,
            },
            NodeKind::This => NodeKind::This,
            NodeKind::ImportMeta => NodeKind::ImportMeta,
            NodeKind::StringLiteral { value } => NodeKind::StringLiteral { value: value.clone() },
            NodeKind::StaticMember { object, property, optional } => NodeKind::StaticMember {
                object: Box::new(self.rewrite(semantic, object, this_stable)),
                property: property.clone(),
                optional: *optional,
            },
            NodeKind::ComputedMember { object, key, optional } => NodeKind::ComputedMember {
                object: Box::new(self.rewrite(semantic, object, this_stable)),
                key: Box::new(self.rewrite(semantic, key, this_stable)),
                optional: *optional,
            },
            NodeKind::ObjectLiteral { properties } => {
                let out = NodeKind::ObjectLiteral {
                    properties: self.rewrite_properties(semantic, properties, this_stable),
                };
                proof {
                    lemma_kind_view_lists(*kind);
                    lemma_kind_view_lists(out);
                }
                out
            },
            NodeKind::ObjectPattern { properties } => {
                let out = NodeKind::ObjectPattern {
                    properties: self.rewrite_properties(semantic, properties, this_stable),
                };
                proof {
                    lemma_kind_view_lists(*kind);
                    lemma_kind_view_lists(out);
                }
                out
            },
            NodeKind::Declarator { target, init } => NodeKind::Declarator {
                target: Box::new(self.rewrite(semantic, target, this_stable)),
                init: match init {
                    Some(expression) => Some(
                        Box::new(self.initialize(semantic, target, expression, this_stable)),
                    ),
                    None => None,
                },
            },
            NodeKind::Function { boundary, children } => {
                let inner = match boundary {
                    BoundaryKind::ArrowFunction => this_stable,
                    BoundaryKind::OrdinaryBoundary => false,
                };
                let out = NodeKind::Function {
                    boundary: *boundary,
                    children: self.rewrite_nodes(semantic, children, inner),
                };
                proof {
                    lemma_kind_view_lists(*kind);
                    lemma_kind_view_lists(out);
                }
                out
            },
            NodeKind::Other { label, children } => {
                let out = NodeKind::Other {
                    label: label.clone(),
                    children: self.rewrite_nodes(semantic, children, this_stable),
                };
                proof {
                    lemma_kind_view_lists(*kind);
                    lemma_kind_view_lists(out);
                }
                out
            },
        }
    }
}

/// Whether a rule with this path would apply somewhere in `node`: to one
/// of the chains that rewriting looks at.
pub open spec fn occurs_in(path: DefinePathView, node: NodeView) -> bool
    decreases node, 1int,
{
    if chain_root(node) is Some {
        path_applies(path, chain_segments(node))
    } else {
        occurs_in_kind(path, node.kind)
    }
}

/// Whether a rule with this path would apply somewhere in a property.
pub open spec fn occurs_in_property(path: DefinePathView, property: PropertyView) -> bool
    decreases property, 0int,
{
    match property {
        PropertyView::Static { value, .. } => occurs_in(path, value),
        PropertyView::Computed { key, value } => occurs_in(path, key) || occurs_in(path, value),
        PropertyView::Spread { argument } => occurs_in(path, argument),
    }
}

/// Whether a rule with this path would apply somewhere in one of `nodes`.
pub open spec fn occurs_in_nodes(path: DefinePathView, nodes: Seq<NodeView>) -> bool
    decreases nodes, 0int,
{
    exists|i: int| 0 <= i < nodes.len() && occurs_in(path, nodes[i])
}

/// Whether a rule with this path would apply somewhere in one of
/// `properties`.
pub open spec fn occurs_in_properties(path: DefinePathView, properties: Seq<PropertyView>) -> bool
    decreases properties, 0int,
{
    exists|i: int| 0 <= i < properties.len() && occurs_in_property(path, properties[i])
}

/// Whether a rule with this path would apply somewhere below a node of
/// this kind that is no chain.
pub open spec fn occurs_in_kind(path: DefinePathView, kind: NodeKindView) -> bool
    decreases kind, 0int,
{
    match kind {
        NodeKindView::StaticMember { object, .. } => occurs_in(path, *object),
        NodeKindView::ComputedMember { object, key, .. } => occurs_in(path, *object) || occurs_in(
            path,
            *key,
        ),
        NodeKindView::ObjectLiteral { properties } => occurs_in_properties(path, properties),
        NodeKindView::ObjectPattern { properties } => occurs_in_properties(path, properties),
        NodeKindView::Declarator { target, init } => occurs_in(path, *target) || match init {
            Some(expression) => occurs_in(path, *expression),
            None => false,
        },
        NodeKindView::Function { children, .. } => occurs_in_nodes(path, children),
        NodeKindView::Other { children, .. } => occurs_in_nodes(path, children),
        _ => false,
    }
}

/// None of the rules would apply anywhere in `node`.
pub open spec fn unmentioned(rules: Seq<DefineRuleView>, node: NodeView) -> bool {
    forall|r: int| 0 <= r < rules.len() ==> !occurs_in((#[trigger] rules[r]).path, node)
}

/// Rewriting a program in which no path of the configuration occurs gives
/// the program back, node for node.
pub proof fn lemma_unmentioned_paths_change_nothing(
    node: NodeView,
    rules: Seq<DefineRuleView>,
    model: Seq<Resolution>,
    this_stable: bool,
)
    requires
        unmentioned(rules, node),
    ensures
        rewritten(node, rules, model, this_stable) == node,
    decreases node, 1int,
{
    if chain_root(node) is Some {
        let root = chain_root(node)->0;
        let paths = paths_of(rules);
        assert forall|r: int| 0 <= r < paths.len() implies !path_applies(
            #[trigger] paths[r],
            chain_segments(node),
        ) by {
            assert(!occurs_in(rules[r].path, node));
        }
        lemma_no_applicable_rule(paths, chain_segments(node), root_length(root));
    } else {
        assert forall|r: int| 0 <= r < rules.len() implies !occurs_in_kind(
            (#[trigger] rules[r]).path,
            node.kind,
        ) by {
            assert(!occurs_in(rules[r].path, node));
        }
        lemma_unmentioned_kind(node.kind, rules, model, this_stable);
    }
}

proof fn lemma_unmentioned_initializer(
    target: NodeView,
    init: NodeView,
    rules: Seq<DefineRuleView>,
    model: Seq<Resolution>,
    this_stable: bool,
)
    requires
        unmentioned(rules, init),
    ensures
        initialized(target, init, rules, model, this_stable) == init,
    decreases init, 2int,
{
    lemma_unmentioned_paths_change_nothing(init, rules, model, this_stable);
    if chain_root(init) is Some {
        let root = chain_root(init)->0;
        let paths = paths_of(rules);
        assert forall|r: int| 0 <= r < paths.len() implies !path_applies(
            #[trigger] paths[r],
            chain_segments(init),
        ) by {
            assert(!occurs_in(rules[r].path, init));
        }
        lemma_no_applicable_rule(paths, chain_segments(init), root_length(root));
    }
}

proof fn lemma_unmentioned_nodes(
    nodes: Seq<NodeView>,
    rules: Seq<DefineRuleView>,
    model: Seq<Resolution>,
    this_stable: bool,
)
    requires
        forall|r: int| 0 <= r < rules.len() ==> !occurs_in_nodes((#[trigger] rules[r]).path, nodes),
    ensures
        rewritten_nodes(nodes, rules, model, this_stable) == nodes,
    decreases nodes, 0int,
{
    assert forall|i: int| 0 <= i < nodes.len() implies rewritten(
        #[trigger] nodes[i],
        rules,
        model,
        this_stable,
    ) == nodes[i] by {
        assert forall|r: int| 0 <= r < rules.len() implies !occurs_in(
            (#[trigger] rules[r]).path,
            nodes[i],
        ) by {
            assert(!occurs_in_nodes(rules[r].path, nodes));
        }
        lemma_unmentioned_paths_change_nothing(nodes[i], rules, model, this_stable);
    }
    assert(rewritten_nodes(nodes, rules, model, this_stable) =~= nodes);
}

proof fn lemma_unmentioned_properties(
    properties: Seq<PropertyView>,
    rules: Seq<DefineRuleView>,
    model: Seq<Resolution>,
    this_stable: bool,
)
    requires
        forall|r: int|
            0 <= r < rules.len() ==> !occurs_in_properties((#[trigger] rules[r]).path, properties),
    ensures
        rewritten_properties(properties, rules, model, this_stable) == properties,
    decreases properties, 0int,
{
    assert forall|i: int| 0 <= i < properties.len() implies rewritten_property(
        #[trigger] properties[i],
        rules,
        model,
        this_stable,
    ) == properties[i] by {
        assert forall|r: int| 0 <= r < rules.len() implies !occurs_in_property(
            (#[trigger] rules[r]).path,
            properties[i],
        ) by {
            assert(!occurs_in_properties(rules[r].path, properties));
        }
        match properties[i] {
            PropertyView::Static { value, .. } => {
                assert forall|r: int| 0 <= r < rules.len() implies !occurs_in(
                    (#[trigger] rules[r]).path,
                    value,
                ) by {
                    assert(!occurs_in_property(rules[r].path, properties[i]));
                }
                lemma_unmentioned_paths_change_nothing(value, rules, model, this_stable);
            },
            PropertyView::Computed { key, value } => {
                assert forall|r: int| 0 <= r < rules.len() implies !occurs_in(
                    (#[trigger] rules[r]).path,
                    key,
                ) && !occurs_in(rules[r].path, value) by {
                    assert(!occurs_in_property(rules[r].path, properties[i]));
                }
                lemma_unmentioned_paths_change_nothing(key, rules, model, this_stable);
                lemma_unmentioned_paths_change_nothing(value, rules, model, this_stable);
            },
            PropertyView::Spread { argument } => {
                assert forall|r: int| 0 <= r < rules.len() implies !occurs_in(
                    (#[trigger] rules[r]).path,
                    argument,
                ) by {
                    assert(!occurs_in_property(rules[r].path, properties[i]));
                }
                lemma_unmentioned_paths_change_nothing(argument, rules, model, this_stable);
            },
        }
    }
    assert(rewritten_properties(properties, rules, model, this_stable) =~= properties);
}

proof fn lemma_unmentioned_kind(
    kind: NodeKindView,
    rules: Seq<DefineRuleView>,
    model: Seq<Resolution>,
    this_stable: bool,
)
    requires
        forall|r: int| 0 <= r < rules.len() ==> !occurs_in_kind((#[trigger] rules[r]).path, kind),
    ensures
        rewritten_kind(kind, rules, model, this_stable) == kind,
    decreases kind, 0int,
{
    match kind {
        NodeKindView::StaticMember { object, .. } => {
            assert forall|r: int| 0 <= r < rules.len() implies !occurs_in(
                (#[trigger] rules[r]).path,
                *object,
            ) by {
                assert(!occurs_in_kind(rules[r].path, kind));
            }
            lemma_unmentioned_paths_change_nothing(*object, rules, model, this_stable);
        },
        NodeKindView::ComputedMember { object, key, .. } => {
            assert forall|r: int| 0 <= r < rules.len() implies !occurs_in(
                (#[trigger] rules[r]).path,
                *object,
            ) && !occurs_in(rules[r].path, *key) by {
                assert(!occurs_in_kind(rules[r].path, kind));
            }
            lemma_unmentioned_paths_change_nothing(*object, rules, model, this_stable);
            lemma_unmentioned_paths_change_nothing(*key, rules, model, this_stable);
        },
        NodeKindView::ObjectLiteral { properties } => {
            assert forall|r: int| 0 <= r < rules.len() implies !occurs_in_properties(
                (#[trigger] rules[r]).path,
                properties,
            ) by {
                assert(!occurs_in_kind(rules[r].path, kind));
            }
            lemma_unmentioned_properties(properties, rules, model, this_stable);
        },
        NodeKindView::ObjectPattern { properties } => {
            assert forall|r: int| 0 <= r < rules.len() implies !occurs_in_properties(
                (#[trigger] rules[r]).path,
                properties,
            ) by {
                assert(!occurs_in_kind(rules[r].path, kind));
            }
            lemma_unmentioned_properties(properties, rules, model, this_stable);
        },
        NodeKindView::Declarator { target, init } => {
            assert forall|r: int| 0 <= r < rules.len() implies !occurs_in(
                (#[trigger] rules[r]).path,
                *target,
            ) by {
                assert(!occurs_in_kind(rules[r].path, kind));
            }
            lemma_unmentioned_paths_change_nothing(*target, rules, model, this_stable);
            match init {
                Some(expression) => {
                    assert forall|r: int| 0 <= r < rules.len() implies !occurs_in(
                        (#[trigger] rules[r]).path,
                        *expression,
                    ) by {
                        assert(!occurs_in_kind(rules[r].path, kind));
                    }
                    lemma_unmentioned_initializer(*target, *expression, rules, model, this_stable);
                },
                None => {},
            }
        },
        NodeKindView::Function { boundary, children } => {
            assert forall|r: int| 0 <= r < rules.len() implies !occurs_in_nodes(
                (#[trigger] rules[r]).path,
                children,
            ) by {
                assert(!occurs_in_kind(rules[r].path, kind));
            }
            lemma_unmentioned_nodes(children, rules, model, stable_within(this_stable, boundary));
        },
        NodeKindView::Other { children, .. } => {
            assert forall|r: int| 0 <= r < rules.len() implies !occurs_in_nodes(
                (#[trigger] rules[r]).path,
                children,
            ) by {
                assert(!occurs_in_kind(rules[r].path, kind));
            }
            lemma_unmentioned_nodes(children, rules, model, this_stable);
        },
        _ => {},
    }
}

/// A chain on a name that the program binds is never replaced, whatever
/// the rules say.
pub proof fn lemma_shadowed_name_is_kept(
    node: NodeView,
    rules: Seq<DefineRuleView>,
    model: Seq<Resolution>,
    this_stable: bool,
)
    requires
        chain_root(node) matches Some(ChainRoot::Identifier { reference }) && resolved(
            model,
            reference,
        ) == Resolution::Binding,
    ensures
        rewritten(node, rules, model, this_stable) == node,
{
}

/// A chain on `this` is never replaced where `this` is not the `this` of
/// the program.
pub proof fn lemma_dynamic_this_is_kept(
    node: NodeView,
    rules: Seq<DefineRuleView>,
    model: Seq<Resolution>,
)
    requires
        chain_root(node) == Some(ChainRoot::This),
    ensures
        rewritten(node, rules, model, false) == node,
{
}

/// Below a list of scopes `this` is the `this` of the program exactly
/// when it is so below all but the innermost and the innermost is an
/// arrow function: what rewriting carries into a scope is whether every
/// scope around a node is an arrow function.
pub proof fn lemma_stable_below(boundaries: Seq<BoundaryKind>, innermost: BoundaryKind)
    ensures
        stable_below(Seq::<BoundaryKind>::empty()),
        stable_below(boundaries.push(innermost)) == stable_within(
            stable_below(boundaries),
            innermost,
        ),
{
    let all = boundaries.push(innermost);
    if stable_below(all) {
        assert(all[boundaries.len() as int] == innermost);
        assert forall|i: int| 0 <= i < boundaries.len() implies boundaries[i]
            == BoundaryKind::ArrowFunction by {
            assert(all[i] == boundaries[i]);
        }
    }
}

/// Inside an ordinary function nothing on `this` is replaced, however far
/// down: the parts of the function are rewritten with `this` unstable.
pub proof fn lemma_ordinary_function_hides_this(
    children: Seq<NodeView>,
    rules: Seq<DefineRuleView>,
    model: Seq<Resolution>,
    this_stable: bool,
)
    ensures
        rewritten_kind(
            NodeKindView::Function { boundary: BoundaryKind::OrdinaryBoundary, children },
            rules,
            model,
            this_stable,
        ) == (NodeKindView::Function {
            boundary: BoundaryKind::OrdinaryBoundary,
            children: rewritten_nodes(children, rules, model, false),
        }),
        rewritten_kind(
            NodeKindView::Function { boundary: BoundaryKind::ArrowFunction, children },
            rules,
            model,
            this_stable,
        ) == (NodeKindView::Function {
            boundary: BoundaryKind::ArrowFunction,
            children: rewritten_nodes(children, rules, model, this_stable),
        }),
{
}

/// The dot access `object.name`.
pub open spec fn dot_access(object: NodeView, name: Seq<char>, optional: bool, span: Span) -> NodeView {
    NodeView {
        span,
        kind: NodeKindView::StaticMember { object: Box::new(object), property: name, optional },
    }
}

/// The bracket access `object["name"]`.
pub open spec fn bracket_access(
    object: NodeView,
    name: Seq<char>,
    optional: bool,
    span: Span,
    key_span: Span,
) -> NodeView {
    NodeView {
        span,
        kind: NodeKindView::ComputedMember {
            object: Box::new(object),
            key: Box::new(
                NodeView { span: key_span, kind: NodeKindView::StringLiteral { value: name } },
            ),
            optional,
        },
    }
}

/// A bracket access with a string literal and a dot access with the same
/// name spell the same chain, optional or not, so the same rule matches
/// both; and where the rule consumes the whole chain, both are rewritten
/// to the same node.
pub proof fn lemma_bracket_spells_as_dot(
    object: NodeView,
    name: Seq<char>,
    span: Span,
    key_span: Span,
    dot_optional: bool,
    bracket_optional: bool,
    rules: Seq<DefineRuleView>,
    model: Seq<Resolution>,
    this_stable: bool,
)
    ensures
        ({
            let dot = dot_access(object, name, dot_optional, span);
            let bracket = bracket_access(object, name, bracket_optional, span, key_span);
            &&& chain_root(dot) == chain_root(bracket)
            &&& chain_segments(dot) == chain_segments(bracket)
            &&& site_match(dot, rules, model, this_stable) == site_match(
                bracket,
                rules,
                model,
                this_stable,
            )
            &&& (site_match(dot, rules, model, this_stable) matches Some((_, consumed))
                && consumed >= chain_segments(dot).len()) ==> rewritten(
                dot,
                rules,
                model,
                this_stable,
            ) == rewritten(bracket, rules, model, this_stable)
        }),
{
}

} // verus!
