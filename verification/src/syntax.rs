use crate::span::Span;
use vstd::prelude::*;

verus! {

/// How a function-like scope treats `this`.
#[derive(Clone, Copy, Debug, PartialEq, Eq, Structural)]
pub enum BoundaryKind {
    /// The scope inherits `this` from the scope around it.
    ArrowFunction,
    /// The scope receives a `this` of its own from each call.
    OrdinaryBoundary,
}

/// A node of the syntax tree, with the source range it was read from.
#[derive(Debug, PartialEq, Eq)]
pub struct Node {
    pub span: Span,
    pub kind: NodeKind,
}

/// What a node is.
#[derive(Debug, PartialEq, Eq)]
pub enum NodeKind {
    /// A reference to a name; `reference` is the key under which the
    /// semantic model records what the name resolves to.
    Identifier { name: String, reference: usize },
    /// The expression `this`.
    This,
    /// The meta property `import.meta`.
    ImportMeta,
    /// A string literal, by its value.
    StringLiteral { value: String },
    /// `object.property` or `object?.property`.
    StaticMember { object: Box<Node>, property: String, optional: bool },
    /// `object[key]` or `object?.[key]`.
    ComputedMember { object: Box<Node>, key: Box<Node>, optional: bool },
    /// An object literal.
    ObjectLiteral { properties: Vec<Property> },
    /// An object destructuring pattern; a rest element is a `Spread`.
    ObjectPattern { properties: Vec<Property> },
    /// A variable declarator or a parameter: a binding target and the
    /// expression that initialises it, if any.
    Declarator { target: Box<Node>, init: Option<Box<Node>> },
    /// A function-like scope with its parameters and body.
    Function { boundary: BoundaryKind, children: Vec<Node> },
    /// Any other construct, with its sub-nodes in source order.
    Other { label: String, children: Vec<Node> },
}

/// A member of an object literal or of an object pattern.
#[derive(Debug, PartialEq, Eq)]
pub enum Property {
    /// `name: value`, with a key that is known statically.
    Static { name: String, value: Node },
    /// `[key]: value`.
    Computed { key: Node, value: Node },
    /// `...argument`.
    Spread { argument: Node },
}

/// The mathematical value of a [`Node`].
pub struct NodeView {
    pub span: Span,
    pub kind: NodeKindView,
}

/// The mathematical value of a [`NodeKind`].
pub enum NodeKindView {
    Identifier { name: Seq<char>, reference: usize },
    This,
    ImportMeta,
    StringLiteral { value: Seq<char> },
    StaticMember { object: Box<NodeView>, property: Seq<char>, optional: bool },
    ComputedMember { object: Box<NodeView>, key: Box<NodeView>, optional: bool },
    ObjectLiteral { properties: Seq<PropertyView> },
    ObjectPattern { properties: Seq<PropertyView> },
    Declarator { target: Box<NodeView>, init: Option<Box<NodeView>> },
    Function { boundary: BoundaryKind, children: Seq<NodeView> },
    Other { label: Seq<char>, children: Seq<NodeView> },
}

/// The mathematical value of a [`Property`].
pub enum PropertyView {
    Static { name: Seq<char>, value: NodeView },
    Computed { key: NodeView, value: NodeView },
    Spread { argument: NodeView },
}

/// The value of a node.
pub open spec fn node_view(node: Node) -> NodeView
    decreases node,
{
    NodeView { span: node.span, kind: kind_view(node.kind) }
}

/// The value of a node kind.
pub open spec fn kind_view(kind: NodeKind) -> NodeKindView
    decreases kind,
{
    match kind {
        NodeKind::Identifier { name, reference } => NodeKindView::Identifier {
            name: name@,
            reference,
        },
        NodeKind::This => NodeKindView::This,
        NodeKind::ImportMeta => NodeKindView::ImportMeta,
        NodeKind::StringLiteral { value } => NodeKindView::StringLiteral { value: value@ },
        NodeKind::StaticMember { object, property, optional } => NodeKindView::StaticMember {
            object: Box::new(node_view(*object)),
            property: property@,
            optional,
        },
        NodeKind::ComputedMember { object, key, optional } => NodeKindView::ComputedMember {
            object: Box::new(node_view(*object)),
            key: Box::new(node_view(*key)),
            optional,
        },
        NodeKind::ObjectLiteral { properties } => NodeKindView::ObjectLiteral {
            properties: Seq::new(
                properties.len() as nat,
                |i: int|
                    if 0 <= i < properties.len() {
                        property_view(properties[i])
                    } else {
                        arbitrary()
                    },
            ),
        },
        NodeKind::ObjectPattern { properties } => NodeKindView::ObjectPattern {
            properties: Seq::new(
                properties.len() as nat,
                |i: int|
                    if 0 <= i < properties.len() {
                        property_view(properties[i])
                    } else {
                        arbitrary()
                    },
            ),
        },
        NodeKind::Declarator { target, init } => NodeKindView::Declarator {
            target: Box::new(node_view(*target)),
            init: match init {
                Some(expression) => Some(Box::new(node_view(*expression))),
                None => None,
            },
        },
        NodeKind::Function { boundary, children } => NodeKindView::Function {
            boundary,
            children: Seq::new(
                children.len() as nat,
                |i: int|
                    if 0 <= i < children.len() {
                        node_view(children[i])
                    } else {
                        arbitrary()
                    },
            ),
        },
        NodeKind::Other { label, children } => NodeKindView::Other {
            label: label@,
            children: Seq::new(
                children.len() as nat,
                |i: int|
                    if 0 <= i < children.len() {
                        node_view(children[i])
                    } else {
                        arbitrary()
                    },
            ),
        },
    }
}

/// The value of a property.
pub open spec fn property_view(property: Property) -> PropertyView
    decreases property,
{
    match property {
        Property::Static { name, value } => PropertyView::Static {
            name: name@,
            value: node_view(value),
        },
        Property::Computed { key, value } => PropertyView::Computed {
            key: node_view(key),
            value: node_view(value),
        },
        Property::Spread { argument } => PropertyView::Spread { argument: node_view(argument) },
    }
}

impl View for Node {
    type V = NodeView;

    open spec fn view(&self) -> NodeView {
        node_view(*self)
    }
}

impl View for Property {
    type V = PropertyView;

    open spec fn view(&self) -> PropertyView {
        property_view(*self)
    }
}

/// The values of a sequence of nodes.
pub open spec fn node_views(nodes: Seq<Node>) -> Seq<NodeView> {
    nodes.map_values(|n: Node| n@)
}

/// The values of a sequence of properties.
pub open spec fn property_views(properties: Seq<Property>) -> Seq<PropertyView> {
    properties.map_values(|p: Property| p@)
}

/// The lists inside the value of a kind are the values of its lists.
pub proof fn lemma_kind_view_lists(kind: NodeKind)
    ensures
        kind matches NodeKind::ObjectLiteral { properties } ==> kind_view(kind) == (
        NodeKindView::ObjectLiteral { properties: property_views(properties@) }),
        kind matches NodeKind::ObjectPattern { properties } ==> kind_view(kind) == (
        NodeKindView::ObjectPattern { properties: property_views(properties@) }),
        kind matches NodeKind::Function { boundary, children } ==> kind_view(kind) == (
        NodeKindView::Function { boundary, children: node_views(children@) }),
        kind matches NodeKind::Other { label, children } ==> kind_view(kind) == (
        NodeKindView::Other { label: label@, children: node_views(children@) }),
{
    match kind {
        NodeKind::ObjectLiteral { properties } => {
            assert(kind_view(kind)->ObjectLiteral_properties =~= property_views(properties@));
        },
        NodeKind::ObjectPattern { properties } => {
            assert(kind_view(kind)->ObjectPattern_properties =~= property_views(properties@));
        },
        NodeKind::Function { boundary, children } => {
            assert(kind_view(kind)->Function_children =~= node_views(children@));
        },
        NodeKind::Other { label, children } => {
            assert(kind_view(kind)->Other_children =~= node_views(children@));
        },
        _ => {},
    }
}

/// Copies of `nodes`, in the same order.
pub fn duplicate_nodes(nodes: &Vec<Node>) -> (copies: Vec<Node>)
    ensures
        node_views(copies@) == node_views(nodes@),
    decreases nodes,
{
    let mut copies: Vec<Node> = Vec::new();
    let mut i: usize = 0;
    while i < nodes.len()
        invariant
            i <= nodes.len(),
            copies@.len() == i,
            forall|j: int| 0 <= j < i ==> copies@[j]@ == nodes@[j]@,
        decreases nodes.len() - i,
    {
        copies.push(nodes[i].duplicate());
        i += 1;
    }
    assert(node_views(copies@) =~= node_views(nodes@));
    copies
}

/// Copies of `properties`, in the same order.
pub fn duplicate_properties(properties: &Vec<Property>) -> (copies: Vec<Property>)
    ensures
        property_views(copies@) == property_views(properties@),
    decreases properties,
{
    let mut copies: Vec<Property> = Vec::new();
    let mut i: usize = 0;
    while i < properties.len()
        invariant
            i <= properties.len(),
            copies@.len() == i,
            forall|j: int| 0 <= j < i ==> copies@[j]@ == properties@[j]@,
        decreases properties.len() - i,
    {
        copies.push(properties[i].duplicate());
        i += 1;
    }
    assert(property_views(copies@) =~= property_views(properties@));
    copies
}

impl Node {
    /// A deep copy: a tree of its own with the same value.
    pub fn duplicate(&self) -> (copy: Node)
        ensures
            copy@ == self@,
        decreases self,
    {
        let kind = match &self.kind {
            NodeKind::Identifier { name, reference } => NodeKind::Identifier {
                name: name.clone(),
                reference: *reference,
            },
            NodeKind::This => NodeKind::This,
            NodeKind::ImportMeta => NodeKind::ImportMeta,
            NodeKind::StringLiteral { value } => NodeKind::StringLiteral { value: value.clone() },
            NodeKind::StaticMember { object, property, optional } => NodeKind::StaticMember {
                object: Box::new(object.duplicate()),
                property: property.clone(),
                optional: *optional,
            },
            NodeKind::ComputedMember { object, key, optional } => NodeKind::ComputedMember {
                object: Box::new(object.duplicate()),
                key: Box::new(key.duplicate()),
                optional: *optional,
            },
            NodeKind::ObjectLiteral { properties } => {
                let copy = NodeKind::ObjectLiteral { properties: duplicate_properties(properties) };
                proof {
                    lemma_kind_view_lists(self.kind);
                    lemma_kind_view_lists(copy);
                }
                copy
            },
            NodeKind::ObjectPattern { properties } => {
                let copy = NodeKind::ObjectPattern { properties: duplicate_properties(properties) };
                proof {
                    lemma_kind_view_lists(self.kind);
                    lemma_kind_view_lists(copy);
                }
                copy
            },
            NodeKind::Declarator { target, init } => NodeKind::Declarator {
                target: Box::new(target.duplicate()),
                init: match init {
                    Some(expression) => Some(Box::new(expression.duplicate())),
                    None => None,
                },
            },
            NodeKind::Function { boundary, children } => {
                let copy = NodeKind::Function {
                    boundary: *boundary,
                    children: duplicate_nodes(children),
                };
                proof {
                    lemma_kind_view_lists(self.kind);
                    lemma_kind_view_lists(copy);
                }
                copy
            },
            NodeKind::Other { label, children } => {
                let copy = NodeKind::Other {
                    label: label.clone(),
                    children: duplicate_nodes(children),
                };
                proof {
                    lemma_kind_view_lists(self.kind);
                    lemma_kind_view_lists(copy);
                }
                copy
            },
        };
        Node { span: self.span, kind }
    }
}

impl Property {
    /// A deep copy: a property of its own with the same value.
    pub fn duplicate(&self) -> (copy: Property)
        ensures
            copy@ == self@,
        decreases self,
    {
        match self {
            Property::Static { name, value } => Property::Static {
                name: name.clone(),
                value: value.duplicate(),
            },
            Property::Computed { key, value } => Property::Computed {
                key: key.duplicate(),
                value: value.duplicate(),
            },
            Property::Spread { argument } => Property::Spread { argument: argument.duplicate() },
        }
    }
}

impl Clone for Node {
    fn clone(&self) -> (copy: Node)
        ensures
            copy@ == self@,
    {
        self.duplicate()
    }
}

impl Clone for Property {
    fn clone(&self) -> (copy: Property)
        ensures
            copy@ == self@,
    {
        self.duplicate()
    }
}

} // verus!
