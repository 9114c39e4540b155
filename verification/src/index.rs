use crate::path::{texts, DefinePath, DefinePathView};
use vstd::prelude::*;

verus! {

/// What a lookup found: the rule, by its position among the registered
/// paths, and the number of leading chain segments that the rule consumes.
#[derive(Clone, Copy, Debug, PartialEq, Eq, Structural)]
pub struct Match {
    pub rule: usize,
    pub consumed: usize,
}

/// The rule registered under `path`, if there is one.
pub open spec fn rule_at(paths: Seq<DefinePathView>, path: DefinePathView) -> Option<int> {
    if exists|r: int| 0 <= r < paths.len() && paths[r] == path {
        Some(choose|r: int| 0 <= r < paths.len() && paths[r] == path)
    } else {
        None
    }
}

/// The exact rule whose path is the longest prefix of `chain` with a length
/// between `lo` and `hi`, with that length.
pub open spec fn deepest_exact(
    paths: Seq<DefinePathView>,
    chain: Seq<Seq<char>>,
    lo: int,
    hi: int,
) -> Option<(int, int)>
    decreases hi + 1,
{
    if hi < lo || hi < 0 {
        None
    } else {
        match rule_at(paths, DefinePathView { segments: chain.take(hi), wildcard: false }) {
            Some(r) => Some((r, hi)),
            None => deepest_exact(paths, chain, lo, hi - 1),
        }
    }
}

/// The wildcard rule whose prefix is the longest prefix of `chain` of a
/// length up to `hi`.
pub open spec fn deepest_wildcard(
    paths: Seq<DefinePathView>,
    chain: Seq<Seq<char>>,
    hi: int,
) -> Option<int>
    decreases hi + 1,
{
    if hi < 0 {
        None
    } else {
        match rule_at(paths, DefinePathView { segments: chain.take(hi), wildcard: true }) {
            Some(r) => Some(r),
            None => deepest_wildcard(paths, chain, hi - 1),
        }
    }
}

/// The most specific rule for `chain`, with the number of segments it
/// consumes. An exact rule on the longest prefix of at least `least`
/// segments comes first; it consumes that prefix, and the whole chain when
/// its path is the whole chain. Failing that, the wildcard rule with the
/// longest prefix that leaves at least one segment over: it consumes the
/// whole chain.
pub open spec fn best_match(paths: Seq<DefinePathView>, chain: Seq<Seq<char>>, least: int) -> Option<
    (int, int),
> {
    match deepest_exact(paths, chain, least, chain.len() as int) {
        Some(found) => Some(found),
        None => match deepest_wildcard(paths, chain, chain.len() - 1) {
            Some(r) => if least <= chain.len() {
                Some((r, chain.len() as int))
            } else {
                None
            },
            None => None,
        },
    }
}

/// A match as a pair of integers.
pub open spec fn match_pair(found: Option<Match>) -> Option<(int, int)> {
    match found {
        Some(m) => Some((m.rule as int, m.consumed as int)),
        None => None,
    }
}

/// A rule position as an integer.
pub open spec fn rule_number(rule: Option<usize>) -> Option<int> {
    match rule {
        Some(r) => Some(r as int),
        None => None,
    }
}

/// No path occurs twice.
pub open spec fn distinct_paths(paths: Seq<DefinePathView>) -> bool {
    forall|q: int, r: int|
        0 <= q < paths.len() && 0 <= r < paths.len() && paths[q] == paths[r] ==> q == r
}

/// Whether a rule with this path applies to `chain`: an exact path is a
/// prefix of the chain, a wildcard path a prefix that leaves at least one
/// segment over.
pub open spec fn path_applies(path: DefinePathView, chain: Seq<Seq<char>>) -> bool {
    let n = path.segments.len() as int;
    &&& chain.take(n) == path.segments
    &&& if path.wildcard {
        n < chain.len()
    } else {
        n <= chain.len()
    }
}

/// What `rule_at` returns is a rule with the path asked for, and it
/// returns one whenever there is one.
pub proof fn lemma_rule_at(paths: Seq<DefinePathView>, path: DefinePathView)
    ensures
        match rule_at(paths, path) {
            Some(r) => 0 <= r < paths.len() && paths[r] == path,
            None => forall|r: int| 0 <= r < paths.len() ==> paths[r] != path,
        },
{
}

/// The exact rule found is the deepest in the range.
pub proof fn lemma_deepest_exact(
    paths: Seq<DefinePathView>,
    chain: Seq<Seq<char>>,
    lo: int,
    hi: int,
)
    ensures
        match deepest_exact(paths, chain, lo, hi) {
            Some((r, d)) => {
                &&& 0 <= r < paths.len()
                &&& lo <= d <= hi
                &&& 0 <= d
                &&& paths[r] == (DefinePathView { segments: chain.take(d), wildcard: false })
                &&& forall|e: int|
                    d < e <= hi ==> rule_at(
                        paths,
                        DefinePathView { segments: #[trigger] chain.take(e), wildcard: false },
                    ) is None
            },
            None => forall|e: int|
                lo <= e <= hi && 0 <= e ==> rule_at(
                    paths,
                    DefinePathView { segments: #[trigger] chain.take(e), wildcard: false },
                ) is None,
        },
    decreases hi + 1,
{
    if hi < lo || hi < 0 {
    } else {
        lemma_rule_at(paths, DefinePathView { segments: chain.take(hi), wildcard: false });
        lemma_deepest_exact(paths, chain, lo, hi - 1);
    }
}

/// The wildcard rule found is the deepest up to `hi`.
pub proof fn lemma_deepest_wildcard(paths: Seq<DefinePathView>, chain: Seq<Seq<char>>, hi: int)
    ensures
        match deepest_wildcard(paths, chain, hi) {
            Some(r) => {
                &&& 0 <= r < paths.len()
                &&& exists|d: int|
                    {
                        &&& 0 <= d <= hi
                        &&& paths[r] == (DefinePathView {
                            segments: #[trigger] chain.take(d),
                            wildcard: true,
                        })
                        &&& forall|e: int|
                            d < e <= hi ==> rule_at(
                                paths,
                                DefinePathView { segments: #[trigger] chain.take(e), wildcard: true },
                            ) is None
                    }
            },
            None => forall|e: int|
                0 <= e <= hi ==> rule_at(
                    paths,
                    DefinePathView { segments: #[trigger] chain.take(e), wildcard: true },
                ) is None,
        },
    decreases hi + 1,
{
    if hi < 0 {
    } else {
        lemma_rule_at(paths, DefinePathView { segments: chain.take(hi), wildcard: true });
        lemma_deepest_wildcard(paths, chain, hi - 1);
        if rule_at(paths, DefinePathView { segments: chain.take(hi), wildcard: true }) is Some {
            let r = deepest_wildcard(paths, chain, hi)->0;
            assert(paths[r] == (DefinePathView { segments: chain.take(hi), wildcard: true }));
        } else if deepest_wildcard(paths, chain, hi - 1) is Some {
            let r = deepest_wildcard(paths, chain, hi - 1)->0;
            let d = choose|d: int|
                {
                    &&& 0 <= d <= hi - 1
                    &&& paths[r] == (DefinePathView {
                        segments: #[trigger] chain.take(d),
                        wildcard: true,
                    })
                    &&& forall|e: int|
                        d < e <= hi - 1 ==> rule_at(
                            paths,
                            DefinePathView { segments: #[trigger] chain.take(e), wildcard: true },
                        ) is None
                };
            assert(paths[r] == (DefinePathView { segments: chain.take(d), wildcard: true }));
        }
    }
}

/// A match names a rule that applies to the chain, and consumes no fewer
/// than `least` segments and no more than the chain has. An exact rule
/// consumes its own path; a wildcard rule consumes the whole chain.
pub proof fn lemma_best_match_sound(paths: Seq<DefinePathView>, chain: Seq<Seq<char>>, least: int)
    requires
        0 <= least,
    ensures
        match best_match(paths, chain, least) {
            Some((r, consumed)) => {
                &&& 0 <= r < paths.len()
                &&& least <= consumed <= chain.len()
                &&& path_applies(paths[r], chain)
                &&& if paths[r].wildcard {
                    consumed == chain.len()
                } else {
                    consumed == paths[r].segments.len()
                }
            },
            None => true,
        },
{
    lemma_deepest_exact(paths, chain, least, chain.len() as int);
    lemma_deepest_wildcard(paths, chain, chain.len() - 1);
}

/// Without a rule that applies there is no match.
pub proof fn lemma_no_applicable_rule(paths: Seq<DefinePathView>, chain: Seq<Seq<char>>, least: int)
    requires
        0 <= least,
        forall|r: int| 0 <= r < paths.len() ==> !path_applies(#[trigger] paths[r], chain),
    ensures
        best_match(paths, chain, least) is None,
{
    lemma_best_match_sound(paths, chain, least);
}

/// An exact rule whose path is the whole chain wins outright, whatever
/// other rules apply: the match is that rule, and it consumes the chain.
pub proof fn lemma_whole_chain_rule_wins(
    paths: Seq<DefinePathView>,
    chain: Seq<Seq<char>>,
    least: int,
    rule: int,
)
    requires
        distinct_paths(paths),
        0 <= rule < paths.len(),
        paths[rule] == (DefinePathView { segments: chain, wildcard: false }),
        0 <= least <= chain.len(),
    ensures
        best_match(paths, chain, least) == Some((rule, chain.len() as int)),
{
    assert(chain.take(chain.len() as int) =~= chain);
    lemma_rule_at(paths, DefinePathView { segments: chain, wildcard: false });
}

/// Where an exact rule applies, no wildcard rule is chosen, and no exact
/// rule with a shorter path: the match is an exact rule whose path is at
/// least as long.
pub proof fn lemma_exact_before_wildcard(
    paths: Seq<DefinePathView>,
    chain: Seq<Seq<char>>,
    least: int,
    rule: int,
)
    requires
        0 <= rule < paths.len(),
        !paths[rule].wildcard,
        path_applies(paths[rule], chain),
        0 <= least <= paths[rule].segments.len(),
    ensures
        best_match(paths, chain, least) matches Some((found, consumed)) && 0 <= found < paths.len()
            && !paths[found].wildcard && consumed == paths[found].segments.len() && consumed
            >= paths[rule].segments.len(),
{
    let n = paths[rule].segments.len() as int;
    lemma_deepest_exact(paths, chain, least, chain.len() as int);
    lemma_rule_at(paths, DefinePathView { segments: chain.take(n), wildcard: false });
    assert(paths[rule] == (DefinePathView { segments: chain.take(n), wildcard: false }));
    if deepest_exact(paths, chain, least, chain.len() as int) is Some {
        let deepest = deepest_exact(paths, chain, least, chain.len() as int)->0;
        assert(chain.take(deepest.1).len() == deepest.1);
    }
}

/// A wildcard rule is chosen only where no exact rule applies, it leaves
/// at least one segment of the chain beyond its prefix, and no wildcard
/// rule with a longer prefix applies.
pub proof fn lemma_wildcard_match(paths: Seq<DefinePathView>, chain: Seq<Seq<char>>, least: int)
    requires
        0 <= least,
        best_match(paths, chain, least) matches Some((found, _)) && paths[found].wildcard,
    ensures
        best_match(paths, chain, least) matches Some((found, consumed)) && {
            &&& paths[found].segments.len() < chain.len()
            &&& consumed == chain.len()
            &&& forall|r: int|
                0 <= r < paths.len() && path_applies(#[trigger] paths[r], chain) ==> {
                    &&& paths[r].wildcard || paths[r].segments.len() < least
                    &&& paths[r].wildcard ==> paths[r].segments.len()
                        <= paths[found].segments.len()
                }
        },
{
    let best = best_match(paths, chain, least)->0;
    let found = best.0;
    lemma_best_match_sound(paths, chain, least);
    lemma_deepest_exact(paths, chain, least, chain.len() as int);
    lemma_deepest_wildcard(paths, chain, chain.len() - 1);
    assert(deepest_exact(paths, chain, least, chain.len() as int) is None) by {
        if deepest_exact(paths, chain, least, chain.len() as int) is Some {
            assert(!paths[found].wildcard);
        }
    }
    let depth = paths[found].segments.len() as int;
    let d = choose|d: int|
        {
            &&& 0 <= d <= chain.len() - 1
            &&& paths[found] == (DefinePathView {
                segments: #[trigger] chain.take(d),
                wildcard: true,
            })
            &&& forall|e: int|
                d < e <= chain.len() - 1 ==> rule_at(
                    paths,
                    DefinePathView { segments: #[trigger] chain.take(e), wildcard: true },
                ) is None
        };
    assert(chain.take(d).len() == d);
    assert(d == depth);
    assert forall|r: int| 0 <= r < paths.len() && path_applies(#[trigger] paths[r], chain) implies {
        &&& paths[r].wildcard || paths[r].segments.len() < least
        &&& paths[r].wildcard ==> paths[r].segments.len() <= depth
    } by {
        let n = paths[r].segments.len() as int;
        assert(paths[r] == (DefinePathView {
            segments: chain.take(n),
            wildcard: paths[r].wildcard,
        }));
        lemma_rule_at(paths, DefinePathView { segments: chain.take(n), wildcard: false });
        lemma_rule_at(paths, DefinePathView { segments: chain.take(n), wildcard: true });
    }
}

/// A node of the trie: the rules that end here and the edges to its
/// children, each labelled with a segment.
struct TrieNode {
    exact: Option<usize>,
    wildcard: Option<usize>,
    children: Vec<(String, usize)>,
    prefix: Ghost<Seq<Seq<char>>>,
}

/// The paths of all rules, indexed by a trie over their segments.
pub struct DefineIndex {
    nodes: Vec<TrieNode>,
    paths: Vec<DefinePath>,
}

impl TrieNode {
    spec fn slot(&self, wildcard: bool) -> Option<usize> {
        if wildcard {
            self.wildcard
        } else {
            self.exact
        }
    }
}

spec fn has_edge(edges: Seq<(String, usize)>, segment: Seq<char>) -> bool {
    exists|k: int| 0 <= k < edges.len() && (#[trigger] edges[k]).0@ == segment
}

spec fn edge_index(edges: Seq<(String, usize)>, segment: Seq<char>) -> int {
    choose|k: int| 0 <= k < edges.len() && (#[trigger] edges[k]).0@ == segment
}

spec fn edges_distinct(edges: Seq<(String, usize)>) -> bool {
    forall|j: int, k: int|
        0 <= j < edges.len() && 0 <= k < edges.len() && (#[trigger] edges[j]).0@ == (
        #[trigger] edges[k]).0@ ==> j == k
}

/// The child of `node` along the edge labelled `segment`.
spec fn step(nodes: Seq<TrieNode>, node: int, segment: Seq<char>) -> Option<int> {
    if 0 <= node < nodes.len() && has_edge(nodes[node].children@, segment) {
        Some(nodes[node].children@[edge_index(nodes[node].children@, segment)].1 as int)
    } else {
        None
    }
}

/// The node that `segments` lead to from the root.
spec fn walk(nodes: Seq<TrieNode>, segments: Seq<Seq<char>>) -> Option<int>
    decreases segments.len(),
{
    if segments.len() == 0 {
        Some(0)
    } else {
        match walk(nodes, segments.drop_last()) {
            Some(node) => step(nodes, node, segments.last()),
            None => None,
        }
    }
}

spec fn edges_sound(nodes: Seq<TrieNode>, n: int) -> bool {
    &&& edges_distinct(nodes[n].children@)
    &&& forall|k: int|
        0 <= k < nodes[n].children@.len() ==> {
            let edge = #[trigger] nodes[n].children@[k];
            &&& edge.1 < nodes.len()
            &&& nodes[edge.1 as int].prefix@ == nodes[n].prefix@.push(edge.0@)
        }
}

spec fn slot_sound(nodes: Seq<TrieNode>, paths: Seq<DefinePathView>, n: int, w: bool) -> bool {
    nodes[n].slot(w) matches Some(r) ==> r < paths.len() && paths[r as int] == (DefinePathView {
        segments: nodes[n].prefix@,
        wildcard: w,
    })
}

spec fn terminals_sound(nodes: Seq<TrieNode>, paths: Seq<DefinePathView>, n: int) -> bool {
    forall|w: bool| #[trigger] slot_sound(nodes, paths, n, w)
}

spec fn rule_indexed(nodes: Seq<TrieNode>, paths: Seq<DefinePathView>, r: int) -> bool {
    &&& walk(nodes, paths[r].segments) matches Some(n)
    &&& 0 <= n < nodes.len()
    &&& nodes[n].slot(paths[r].wildcard) matches Some(q)
    &&& q == r
}

spec fn shape_wf(nodes: Seq<TrieNode>) -> bool {
    &&& nodes.len() >= 1
    &&& nodes[0].prefix@ == Seq::<Seq<char>>::empty()
    &&& forall|n: int| 0 <= n < nodes.len() ==> #[trigger] edges_sound(nodes, n)
}

spec fn trie_wf(nodes: Seq<TrieNode>, paths: Seq<DefinePathView>) -> bool {
    &&& shape_wf(nodes)
    &&& forall|n: int| 0 <= n < nodes.len() ==> #[trigger] terminals_sound(nodes, paths, n)
    &&& forall|r: int| 0 <= r < paths.len() ==> #[trigger] rule_indexed(nodes, paths, r)
}

/// Every edge that `old` has, `new` has too, to the same child.
spec fn extends(old: Seq<TrieNode>, new: Seq<TrieNode>) -> bool {
    &&& old.len() <= new.len()
    &&& forall|n: int, segment: Seq<char>|
        0 <= n < old.len() && (#[trigger] step(old, n, segment)) is Some ==> step(new, n, segment)
            == step(old, n, segment)
}

proof fn lemma_step_sound(nodes: Seq<TrieNode>, n: int, segment: Seq<char>)
    requires
        0 <= n < nodes.len(),
        edges_sound(nodes, n),
        step(nodes, n, segment) is Some,
    ensures
        0 <= step(nodes, n, segment)->0 < nodes.len(),
        nodes[step(nodes, n, segment)->0].prefix@ == nodes[n].prefix@.push(segment),
{
    let k = edge_index(nodes[n].children@, segment);
    let edge = nodes[n].children@[k];
    assert(edge.0@ == segment);
}

proof fn lemma_walk_prefix(nodes: Seq<TrieNode>, segments: Seq<Seq<char>>)
    requires
        shape_wf(nodes),
        walk(nodes, segments) is Some,
    ensures
        0 <= walk(nodes, segments)->0 < nodes.len(),
        nodes[walk(nodes, segments)->0].prefix@ == segments,
    decreases segments.len(),
{
    if segments.len() == 0 {
        assert(segments =~= Seq::<Seq<char>>::empty());
    } else {
        lemma_walk_prefix(nodes, segments.drop_last());
        let before = walk(nodes, segments.drop_last())->0;
        assert(edges_sound(nodes, before));
        lemma_step_sound(nodes, before, segments.last());
        assert(segments.drop_last().push(segments.last()) =~= segments);
    }
}

proof fn lemma_walk_take(nodes: Seq<TrieNode>, segments: Seq<Seq<char>>, d: int)
    requires
        walk(nodes, segments) is Some,
        0 <= d <= segments.len(),
    ensures
        walk(nodes, segments.take(d)) is Some,
    decreases segments.len(),
{
    if d == segments.len() {
        assert(segments.take(d) =~= segments);
    } else {
        assert(segments.drop_last().take(d) =~= segments.take(d));
        lemma_walk_take(nodes, segments.drop_last(), d);
    }
}

proof fn lemma_walk_extends(old: Seq<TrieNode>, new: Seq<TrieNode>, segments: Seq<Seq<char>>)
    requires
        shape_wf(old),
        extends(old, new),
        walk(old, segments) is Some,
    ensures
        walk(new, segments) == walk(old, segments),
    decreases segments.len(),
{
    if segments.len() > 0 {
        lemma_walk_extends(old, new, segments.drop_last());
        lemma_walk_prefix(old, segments.drop_last());
        let before = walk(old, segments.drop_last())->0;
        assert(step(old, before, segments.last()) is Some);
    }
}

/// In a well-formed trie the rule under a path is the one that the node
/// for its segments holds in the slot for its kind.
proof fn lemma_slot(
    nodes: Seq<TrieNode>,
    paths: Seq<DefinePathView>,
    segments: Seq<Seq<char>>,
    wildcard: bool,
)
    requires
        trie_wf(nodes, paths),
    ensures
        match walk(nodes, segments) {
            Some(n) => match nodes[n].slot(wildcard) {
                Some(r) => rule_at(paths, DefinePathView { segments, wildcard }) == Some(r as int),
                None => rule_at(paths, DefinePathView { segments, wildcard }) is None,
            },
            None => rule_at(paths, DefinePathView { segments, wildcard }) is None,
        },
{
    let path = DefinePathView { segments, wildcard };
    if exists|r: int| 0 <= r < paths.len() && paths[r] == path {
        let r = rule_at(paths, path)->0;
        assert(rule_indexed(nodes, paths, r));
    } else {
        assert(rule_at(paths, path) is None);
        if walk(nodes, segments) is Some {
            let n = walk(nodes, segments)->0;
            lemma_walk_prefix(nodes, segments);
            assert(terminals_sound(nodes, paths, n));
            assert(slot_sound(nodes, paths, n, wildcard));
            if nodes[n].slot(wildcard) is Some {
                let q = nodes[n].slot(wildcard)->0 as int;
                assert(paths[q] == path);
                assert(false);
            }
        }
    }
}

/// Past the deepest node that a chain reaches there is no rule.
proof fn lemma_nothing_deeper(
    nodes: Seq<TrieNode>,
    paths: Seq<DefinePathView>,
    chain: Seq<Seq<char>>,
    least: int,
    reached: int,
    hi: int,
)
    requires
        trie_wf(nodes, paths),
        0 <= reached <= hi <= chain.len(),
        reached < chain.len() ==> walk(nodes, chain.take(reached + 1)) is None,
    ensures
        deepest_exact(paths, chain, least, hi) == deepest_exact(paths, chain, least, reached),
        deepest_wildcard(paths, chain, hi) == deepest_wildcard(paths, chain, reached),
    decreases hi - reached,
{
    if reached < hi {
        lemma_nothing_deeper(nodes, paths, chain, least, reached, hi - 1);
        if walk(nodes, chain.take(hi)) is Some {
            lemma_walk_take(nodes, chain.take(hi), reached + 1);
            assert(chain.take(hi).take(reached + 1) =~= chain.take(reached + 1));
        }
        lemma_slot(nodes, paths, chain.take(hi), false);
        lemma_slot(nodes, paths, chain.take(hi), true);
    }
}

/// In a well-formed trie no path is registered twice.
proof fn lemma_trie_distinct(nodes: Seq<TrieNode>, paths: Seq<DefinePathView>)
    requires
        trie_wf(nodes, paths),
    ensures
        distinct_paths(paths),
{
    assert forall|q: int, r: int|
        0 <= q < paths.len() && 0 <= r < paths.len() && paths[q] == paths[r] implies q == r by {
        assert(rule_indexed(nodes, paths, q));
        assert(rule_indexed(nodes, paths, r));
    }
}

/// `new` is `old` with one more node, hung below `cur` on a fresh edge
/// labelled `segment`.
spec fn grown(old: Seq<TrieNode>, new: Seq<TrieNode>, cur: int, segment: Seq<char>) -> bool {
    &&& new.len() == old.len() + 1
    &&& forall|n: int| 0 <= n < old.len() && n != cur ==> #[trigger] new[n] == old[n]
    &&& new[cur].exact == old[cur].exact
    &&& new[cur].wildcard == old[cur].wildcard
    &&& new[cur].prefix@ == old[cur].prefix@
    &&& new[cur].children@.len() == old[cur].children@.len() + 1
    &&& forall|k: int|
        0 <= k < old[cur].children@.len() ==> #[trigger] new[cur].children@[k]
            == old[cur].children@[k]
    &&& new[cur].children@.last().0@ == segment
    &&& new[cur].children@.last().1 == old.len()
    &&& new[old.len() as int].exact is None
    &&& new[old.len() as int].wildcard is None
    &&& new[old.len() as int].children@.len() == 0
    &&& new[old.len() as int].prefix@ == old[cur].prefix@.push(segment)
}

proof fn lemma_grow_extends(old: Seq<TrieNode>, new: Seq<TrieNode>, cur: int, segment: Seq<char>)
    requires
        shape_wf(old),
        0 <= cur < old.len(),
        step(old, cur, segment) is None,
        grown(old, new, cur, segment),
    ensures
        extends(old, new),
        step(new, cur, segment) == Some(old.len() as int),
        edges_distinct(new[cur].children@),
{
    let before = old[cur].children@;
    let after = new[cur].children@;
    assert(edges_sound(old, cur));
    assert forall|k: int| 0 <= k < before.len() implies (#[trigger] after[k]).0@ != segment by {
        assert(after[k] == before[k]);
        if before[k].0@ == segment {
            assert(has_edge(before, segment));
        }
    }
    assert(edges_distinct(after)) by {
        assert forall|j: int, k: int|
            0 <= j < after.len() && 0 <= k < after.len() && (#[trigger] after[j]).0@ == (
            #[trigger] after[k]).0@ implies j == k by {
            if j < before.len() && k < before.len() {
                assert(after[j] == before[j]);
                assert(after[k] == before[k]);
            }
        }
    }
    assert(after[after.len() - 1].0@ == segment);
    assert(has_edge(after, segment));
    assert forall|n: int, label: Seq<char>|
        0 <= n < old.len() && (#[trigger] step(old, n, label)) is Some implies step(new, n, label)
            == step(old, n, label) by {
        if n == cur {
            let k = edge_index(before, label);
            assert(after[k] == before[k]);
            assert(has_edge(after, label));
            let chosen = edge_index(after, label);
            assert(chosen < before.len());
            assert(after[chosen] == before[chosen]);
        } else {
            assert(new[n] == old[n]);
        }
    }
}

proof fn lemma_grow(
    old: Seq<TrieNode>,
    new: Seq<TrieNode>,
    paths: Seq<DefinePathView>,
    cur: int,
    segment: Seq<char>,
)
    requires
        trie_wf(old, paths),
        0 <= cur < old.len(),
        step(old, cur, segment) is None,
        grown(old, new, cur, segment),
    ensures
        trie_wf(new, paths),
        extends(old, new),
        step(new, cur, segment) == Some(old.len() as int),
{
    lemma_grow_extends(old, new, cur, segment);
    assert forall|n: int| 0 <= n < new.len() implies #[trigger] edges_sound(new, n) by {
        if n < old.len() {
            assert(edges_sound(old, n));
            if n != cur {
                assert(new[n] == old[n]);
            }
            assert forall|k: int| 0 <= k < new[n].children@.len() implies {
                let edge = #[trigger] new[n].children@[k];
                &&& edge.1 < new.len()
                &&& new[edge.1 as int].prefix@ == new[n].prefix@.push(edge.0@)
            } by {
                if k < old[n].children@.len() {
                    let edge = old[n].children@[k];
                    assert(new[n].children@[k] == edge);
                    if edge.1 != cur {
                        assert(new[edge.1 as int] == old[edge.1 as int]);
                    }
                }
            }
        }
    }
    assert(new[0].prefix@ == old[0].prefix@) by {
        if cur != 0 {
            assert(new[0] == old[0]);
        }
    }
    assert forall|n: int| 0 <= n < new.len() implies #[trigger] terminals_sound(new, paths, n) by {
        if n < old.len() {
            assert(terminals_sound(old, paths, n));
            if n != cur {
                assert(new[n] == old[n]);
            }
            assert forall|w: bool| #[trigger] slot_sound(new, paths, n, w) by {
                assert(slot_sound(old, paths, n, w));
                assert(new[n].slot(w) == old[n].slot(w));
            }
        }
    }
    assert forall|r: int| 0 <= r < paths.len() implies #[trigger] rule_indexed(new, paths, r) by {
        assert(rule_indexed(old, paths, r));
        lemma_walk_extends(old, new, paths[r].segments);
        let n = walk(old, paths[r].segments)->0;
        if n != cur {
            assert(new[n] == old[n]);
        }
        assert(new[n].slot(paths[r].wildcard) == old[n].slot(paths[r].wildcard));
    }
}

/// `new` is `old` with the free slot for `wildcard` at `cur` given to `rule`.
spec fn marked(old: Seq<TrieNode>, new: Seq<TrieNode>, cur: int, wildcard: bool, rule: usize) -> bool {
    &&& new.len() == old.len()
    &&& forall|n: int| 0 <= n < old.len() && n != cur ==> #[trigger] new[n] == old[n]
    &&& new[cur].children == old[cur].children
    &&& new[cur].prefix@ == old[cur].prefix@
    &&& new[cur].slot(wildcard) == Some(rule)
    &&& new[cur].slot(!wildcard) == old[cur].slot(!wildcard)
}

proof fn lemma_mark(
    old: Seq<TrieNode>,
    new: Seq<TrieNode>,
    paths: Seq<DefinePathView>,
    path: DefinePathView,
    cur: int,
)
    requires
        trie_wf(old, paths),
        walk(old, path.segments) == Some(cur),
        old[cur].slot(path.wildcard) is None,
        paths.len() <= usize::MAX,
        marked(old, new, cur, path.wildcard, paths.len() as usize),
    ensures
        trie_wf(new, paths.push(path)),
{
    let all = paths.push(path);
    lemma_walk_prefix(old, path.segments);
    assert forall|n: int| 0 <= n < new.len() implies new[n].children == old[n].children
        && new[n].prefix@ == old[n].prefix@ by {
        if n != cur {
            assert(new[n] == old[n]);
        }
    }
    assert forall|n: int, label: Seq<char>|
        0 <= n < old.len() && (#[trigger] step(old, n, label)) is Some implies step(new, n, label)
            == step(old, n, label) by {
        assert(new[n].children == old[n].children);
    }
    assert(extends(old, new));
    assert forall|n: int| 0 <= n < new.len() implies #[trigger] edges_sound(new, n) by {
        assert(edges_sound(old, n));
        assert(new[n].children == old[n].children);
        assert forall|k: int| 0 <= k < new[n].children@.len() implies {
            let edge = #[trigger] new[n].children@[k];
            &&& edge.1 < new.len()
            &&& new[edge.1 as int].prefix@ == new[n].prefix@.push(edge.0@)
        } by {
            let edge = old[n].children@[k];
            assert(new[edge.1 as int].prefix@ == old[edge.1 as int].prefix@);
        }
    }
    assert forall|n: int| 0 <= n < new.len() implies #[trigger] terminals_sound(new, all, n) by {
        assert(terminals_sound(old, paths, n));
        assert forall|w: bool| #[trigger] slot_sound(new, all, n, w) by {
            assert(slot_sound(old, paths, n, w));
            if n == cur && w == path.wildcard {
                assert(all[paths.len() as int] == path);
            } else {
                if n != cur {
                    assert(new[n] == old[n]);
                }
                assert(new[n].slot(w) == old[n].slot(w));
                if old[n].slot(w) is Some {
                    let r = old[n].slot(w)->0;
                    assert(all[r as int] == paths[r as int]);
                }
            }
        }
    }
    assert forall|r: int| 0 <= r < all.len() implies #[trigger] rule_indexed(new, all, r) by {
        if r < paths.len() {
            assert(rule_indexed(old, paths, r));
            assert(all[r] == paths[r]);
            lemma_walk_extends(old, new, paths[r].segments);
            let n = walk(old, paths[r].segments)->0;
            if n != cur {
                assert(new[n] == old[n]);
            }
            assert(new[n].slot(paths[r].wildcard) == old[n].slot(paths[r].wildcard));
        } else {
            assert(all[r] == path);
            lemma_walk_extends(old, new, path.segments);
        }
    }
}

impl View for DefineIndex {
    type V = Seq<DefinePathView>;

    /// The registered paths, in the order of their registration.
    closed spec fn view(&self) -> Seq<DefinePathView> {
        self.paths@.map_values(|p: DefinePath| p@)
    }
}

impl DefineIndex {
    /// The trie holds exactly the registered paths.
    pub closed spec fn wf(&self) -> bool {
        trie_wf(self.nodes@, self@)
    }

    /// No path is registered twice.
    pub proof fn lemma_distinct(&self)
        requires
            self.wf(),
        ensures
            distinct_paths(self@),
    {
        lemma_trie_distinct(self.nodes@, self@);
    }

    /// The index without a rule.
    pub fn new() -> (index: DefineIndex)
        ensures
            index.wf(),
            index@ == Seq::<DefinePathView>::empty(),
    {
        let root = TrieNode {
            exact: None,
            wildcard: None,
            children: Vec::new(),
            prefix: Ghost(Seq::empty()),
        };
        let mut nodes: Vec<TrieNode> = Vec::new();
        nodes.push(root);
        let index = DefineIndex { nodes, paths: Vec::new() };
        proof {
            assert(index@ =~= Seq::<DefinePathView>::empty());
            assert(edges_sound(index.nodes@, 0));
            assert forall|w: bool| #[trigger] slot_sound(index.nodes@, index@, 0, w) by {}
        }
        index
    }

    /// The number of registered paths.
    pub fn len(&self) -> (n: usize)
        ensures
            n == self@.len(),
    {
        self.paths.len()
    }

    fn child(&self, node: usize, segment: &String) -> (next: Option<usize>)
        requires
            node < self.nodes@.len(),
            edges_sound(self.nodes@, node as int),
        ensures
            match next {
                Some(c) => step(self.nodes@, node as int, segment@) == Some(c as int),
                None => step(self.nodes@, node as int, segment@) is None,
            },
    {
        let edges = &self.nodes[node].children;
        let mut k: usize = 0;
        while k < edges.len()
            invariant
                k <= edges.len(),
                edges_distinct(edges@),
                edges@ == self.nodes@[node as int].children@,
                node < self.nodes@.len(),
                forall|j: int| 0 <= j < k ==> (#[trigger] edges@[j]).0@ != segment@,
            decreases edges.len() - k,
        {
            if edges[k].0 == *segment {
                proof {
                    assert(edges@[k as int].0@ == segment@);
                    assert(has_edge(edges@, segment@));
                }
                return Some(edges[k].1);
            }
            k += 1;
        }
        None
    }

    /// Registers `path` as the next rule and returns its position, unless
    /// the same path is registered already: then nothing changes.
    pub fn insert(&mut self, path: DefinePath) -> (rule: Option<usize>)
        requires
            old(self).wf(),
        ensures
            final(self).wf(),
            match rule {
                Some(r) => r == old(self)@.len() && !old(self)@.contains(path@) && final(self)@
                    == old(self)@.push(path@),
                None => old(self)@.contains(path@) && final(self)@ == old(self)@,
            },
    {
        let mut current: usize = 0;
        let mut depth: usize = 0;
        let ghost segments = path@.segments;
        proof {
            assert(segments.take(0) =~= Seq::<Seq<char>>::empty());
        }
        while depth < path.segments.len()
            invariant
                self.wf(),
                self.paths@ == old(self).paths@,
                segments == path@.segments,
                depth <= path.segments.len(),
                walk(self.nodes@, segments.take(depth as int)) == Some(current as int),
            decreases path.segments.len() - depth,
        {
            let ghost label = segments[depth as int];
            proof {
                lemma_walk_prefix(self.nodes@, segments.take(depth as int));
                assert(edges_sound(self.nodes@, current as int));
                assert(segments.take(depth + 1).drop_last() =~= segments.take(depth as int));
                assert(segments.take(depth + 1).last() == label);
            }
            let next = self.child(current, &path.segments[depth]);
            match next {
                Some(c) => {
                    current = c;
                },
                None => {
                    let ghost before = self.nodes@;
                    let created = self.nodes.len();
                    let ghost prefix = before[current as int].prefix@.push(label);
                    self.nodes.push(
                        TrieNode {
                            exact: None,
                            wildcard: None,
                            children: Vec::new(),
                            prefix: Ghost(prefix),
                        },
                    );
                    self.nodes[current].children.push((path.segments[depth].clone(), created));
                    proof {
                        assert(grown(before, self.nodes@, current as int, label));
                        lemma_grow(before, self.nodes@, self@, current as int, label);
                        lemma_walk_extends(before, self.nodes@, segments.take(depth as int));
                    }
                    current = created;
                },
            }
            depth += 1;
        }
        proof {
            assert(segments.take(depth as int) =~= segments);
            lemma_walk_prefix(self.nodes@, segments);
            lemma_slot(self.nodes@, self@, segments, path.wildcard);
            assert(path@ == DefinePathView { segments, wildcard: path.wildcard });
        }
        let occupied = if path.wildcard {
            self.nodes[current].wildcard.is_some()
        } else {
            self.nodes[current].exact.is_some()
        };
        if occupied {
            proof {
                let r = rule_at(self@, path@)->0;
                assert(self@[r] == path@);
            }
            None
        } else {
            let rule = self.paths.len();
            let ghost before = self.nodes@;
            let ghost paths = self@;
            if path.wildcard {
                self.nodes[current].wildcard = Some(rule);
            } else {
                self.nodes[current].exact = Some(rule);
            }
            proof {
                assert(marked(before, self.nodes@, current as int, path.wildcard, rule));
                lemma_mark(before, self.nodes@, paths, path@, current as int);
                assert(!paths.contains(path@));
            }
            self.paths.push(path);
            proof {
                assert(self@ =~= paths.push(path@));
            }
            Some(rule)
        }
    }

    /// The most specific rule for `chain` among those that consume at least
    /// `least` segments.
    pub fn lookup(&self, chain: &Vec<String>, least: usize) -> (found: Option<Match>)
        requires
            self.wf(),
        ensures
            match_pair(found) == best_match(self@, texts(chain@), least as int),
    {
        let ghost keys = texts(chain@);
        let mut current: usize = 0;
        let mut depth: usize = 0;
        let mut exact: Option<Match> = None;
        let mut wild: Option<usize> = None;
        let mut walking = true;
        proof {
            assert(keys.take(0) =~= Seq::<Seq<char>>::empty());
        }
        while walking
            invariant
                self.wf(),
                keys == texts(chain@),
                depth <= chain.len(),
                walk(self.nodes@, keys.take(depth as int)) == Some(current as int),
                walking ==> match_pair(exact) == deepest_exact(
                    self@,
                    keys,
                    least as int,
                    depth - 1,
                ),
                walking ==> rule_number(wild) == deepest_wildcard(self@, keys, depth - 1),
                !walking ==> match_pair(exact) == deepest_exact(
                    self@,
                    keys,
                    least as int,
                    depth as int,
                ),
                !walking ==> rule_number(wild) == deepest_wildcard(
                    self@,
                    keys,
                    if depth < chain.len() {
                        depth as int
                    } else {
                        depth - 1
                    },
                ),
                !walking && depth < chain.len() ==> walk(self.nodes@, keys.take(depth + 1))
                    is None,
            decreases chain.len() - depth + (if walking { 1int } else { 0int }),
        {
            proof {
                lemma_walk_prefix(self.nodes@, keys.take(depth as int));
                assert(edges_sound(self.nodes@, current as int));
                lemma_slot(self.nodes@, self@, keys.take(depth as int), false);
                lemma_slot(self.nodes@, self@, keys.take(depth as int), true);
            }
            if depth >= least {
                if let Some(r) = self.nodes[current].exact {
                    exact = Some(Match { rule: r, consumed: depth });
                }
            }
            if depth == chain.len() {
                walking = false;
            } else {
                if let Some(r) = self.nodes[current].wildcard {
                    wild = Some(r);
                }
                proof {
                    assert(keys.take(depth + 1).drop_last() =~= keys.take(depth as int));
                    assert(keys.take(depth + 1).last() == chain@[depth as int]@);
                }
                match self.child(current, &chain[depth]) {
                    Some(c) => {
                        current = c;
                        depth += 1;
                    },
                    None => {
                        walking = false;
                    },
                }
            }
        }
        proof {
            lemma_nothing_deeper(
                self.nodes@,
                self@,
                keys,
                least as int,
                depth as int,
                chain.len() as int,
            );
            if depth < chain.len() {
                lemma_nothing_deeper(
                    self.nodes@,
                    self@,
                    keys,
                    least as int,
                    depth as int,
                    chain.len() - 1,
                );
            }
        }
        match exact {
            Some(m) => Some(m),
            None => match wild {
                Some(r) => if least <= chain.len() {
                    Some(Match { rule: r, consumed: chain.len() })
                } else {
                    None
                },
                None => None,
            },
        }
    }
}

} // verus!
