use crate::path::texts;
use crate::span::Span;
use crate::syntax::{kind_view, node_view, Node, NodeKind, NodeKindView, NodeView};
use vstd::prelude::*;

verus! {

/// What an access chain starts from.
#[derive(Clone, Copy, Debug, PartialEq, Eq, Structural)]
pub enum ChainRoot {
    /// A reference to a name, with its key in the semantic model.
    Identifier { reference: usize },
    /// The expression `this`.
    This,
    /// The meta property `import.meta`.
    ImportMeta,
}

/// A run of member accesses on a root, as the segments it spells. A
/// bracket access with a string literal spells the same segment as a dot
/// access, and an optional access the same as a plain one.
#[derive(Debug, PartialEq, Eq)]
pub struct AccessChain {
    pub root: ChainRoot,
    pub segments: Vec<String>,
    /// The range of the whole chain in the source.
    pub span: Span,
}

/// The segment that `this` spells.
pub open spec fn this_segment() -> Seq<char> {
    seq!['t', 'h', 'i', 's']
}

/// The first segment that `import.meta` spells.
pub open spec fn import_segment() -> Seq<char> {
    seq!['i', 'm', 'p', 'o', 'r', 't']
}

/// The second segment that `import.meta` spells.
pub open spec fn meta_segment() -> Seq<char> {
    seq!['m', 'e', 't', 'a']
}

/// The root of the chain that `node` is, if it is one: a root, or a dot or
/// string-literal bracket access on a chain.
pub open spec fn chain_root(node: NodeView) -> Option<ChainRoot>
    decreases node,
{
    match node.kind {
        NodeKindView::Identifier { reference, .. } => Some(ChainRoot::Identifier { reference }),
        NodeKindView::This => Some(ChainRoot::This),
        NodeKindView::ImportMeta => Some(ChainRoot::ImportMeta),
        NodeKindView::StaticMember { object, .. } => chain_root(*object),
        NodeKindView::ComputedMember { object, key, .. } => if key.kind is StringLiteral {
            chain_root(*object)
        } else {
            None
        },
        _ => None,
    }
}

/// The segments that the chain `node` spells, root first.
pub open spec fn chain_segments(node: NodeView) -> Seq<Seq<char>>
    decreases node,
{
    match node.kind {
        NodeKindView::Identifier { name, .. } => seq![name],
        NodeKindView::This => seq![this_segment()],
        NodeKindView::ImportMeta => seq![import_segment(), meta_segment()],
        NodeKindView::StaticMember { object, property, .. } => chain_segments(*object).push(
            property,
        ),
        NodeKindView::ComputedMember { object, key, .. } => match key.kind {
            NodeKindView::StringLiteral { value } => chain_segments(*object).push(value),
            _ => Seq::empty(),
        },
        _ => Seq::empty(),
    }
}

/// The number of segments that a root spells by itself.
pub open spec fn root_length(root: ChainRoot) -> int {
    match root {
        ChainRoot::ImportMeta => 2,
        _ => 1,
    }
}

impl ChainRoot {
    /// The number of segments that the root spells by itself.
    pub fn length(&self) -> (n: usize)
        ensures
            n == root_length(*self),
    {
        match self {
            ChainRoot::ImportMeta => 2,
            _ => 1,
        }
    }
}

impl AccessChain {
    /// The chain that `node` is. The result is `None` exactly when `node`
    /// is no chain: when something other than a dot access or a bracket
    /// access with a string literal stands between it and a root.
    pub fn of(node: &Node) -> (chain: Option<AccessChain>)
        ensures
            match chain {
                Some(c) => {
                    &&& chain_root(node@) == Some(c.root)
                    &&& texts(c.segments@) == chain_segments(node@)
                    &&& c.span == node.span
                },
                None => chain_root(node@) is None,
            },
        decreases node,
    {
        match &node.kind {
            NodeKind::Identifier { name, reference } => {
                let mut segments: Vec<String> = Vec::new();
                segments.push(name.clone());
                assert(texts(segments@) =~= seq![name@]);
                Some(
                    AccessChain {
                        root: ChainRoot::Identifier { reference: *reference },
                        segments,
                        span: node.span,
                    },
                )
            },
            NodeKind::This => {
                let mut segments: Vec<String> = Vec::new();
                segments.push(String::from_str("this"));
                proof {
                    reveal_strlit("this");
                    assert("this"@ =~= this_segment());
                    assert(texts(segments@) =~= seq![this_segment()]);
                }
                Some(AccessChain { root: ChainRoot::This, segments, span: node.span })
            },
            NodeKind::ImportMeta => {
                let mut segments: Vec<String> = Vec::new();
                segments.push(String::from_str("import"));
                segments.push(String::from_str("meta"));
                proof {
                    reveal_strlit("import");
                    reveal_strlit("meta");
                    assert("import"@ =~= import_segment());
                    assert("meta"@ =~= meta_segment());
                    assert(texts(segments@) =~= seq![import_segment(), meta_segment()]);
                }
                Some(AccessChain { root: ChainRoot::ImportMeta, segments, span: node.span })
            },
            NodeKind::StaticMember { object, property, .. } => {
                match AccessChain::of(object) {
                    Some(inner) => {
                        let mut segments = inner.segments;
                        let ghost before = texts(segments@);
                        segments.push(property.clone());
                        assert(texts(segments@) =~= before.push(property@));
                        Some(AccessChain { root: inner.root, segments, span: node.span })
                    },
                    None => None,
                }
            },
            NodeKind::ComputedMember { object, key, .. } => {
                proof {
                    reveal_with_fuel(node_view, 2);
                }
                assert(node@.kind->ComputedMember_key.kind == kind_view(key.kind));
                match &key.kind {
                    NodeKind::StringLiteral { value } => {
                        match AccessChain::of(object) {
                            Some(inner) => {
                                let mut segments = inner.segments;
                                let ghost before = texts(segments@);
                                segments.push(value.clone());
                                assert(texts(segments@) =~= before.push(value@));
                                Some(AccessChain { root: inner.root, segments, span: node.span })
                            },
                            None => None,
                        }
                    },
                    _ => None,
                }
            },
            _ => None,
        }
    }
}

} // verus!
