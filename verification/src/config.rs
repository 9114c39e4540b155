use crate::index::{best_match, match_pair, DefineIndex, Match};
use crate::path::{parsed_path, texts, DefinePath, DefinePathView};
use crate::syntax::{Node, NodeView};
use vstd::prelude::*;

verus! {

/// Why a list of defines is no configuration. Each error names the path
/// text of the entry at fault.
#[derive(Debug, PartialEq, Eq)]
pub enum ConfigError {
    /// The path text declares no path.
    InvalidPath(String),
    /// The replacement text is no expression.
    InvalidReplacement(String),
    /// An earlier entry declares the same path.
    DuplicatePath(String),
}

/// The mathematical value of a [`ConfigError`].
pub enum ConfigErrorView {
    InvalidPath(Seq<char>),
    InvalidReplacement(Seq<char>),
    DuplicatePath(Seq<char>),
}

impl View for ConfigError {
    type V = ConfigErrorView;

    open spec fn view(&self) -> ConfigErrorView {
        match self {
            ConfigError::InvalidPath(text) => ConfigErrorView::InvalidPath(text@),
            ConfigError::InvalidReplacement(text) => ConfigErrorView::InvalidReplacement(text@),
            ConfigError::DuplicatePath(text) => ConfigErrorView::DuplicatePath(text@),
        }
    }
}

/// One entry of the list that a configuration is built from: a path text,
/// a replacement text, and what parsing the replacement text as a single
/// expression gave, `None` where it is no expression.
#[derive(Debug, PartialEq, Eq)]
pub struct Define {
    pub path: String,
    pub replacement: String,
    pub parsed: Option<Node>,
}

/// The mathematical value of a [`Define`].
pub struct DefineView {
    pub path: Seq<char>,
    pub replacement: Seq<char>,
    pub parsed: Option<NodeView>,
}

impl View for Define {
    type V = DefineView;

    open spec fn view(&self) -> DefineView {
        DefineView {
            path: self.path@,
            replacement: self.replacement@,
            parsed: match self.parsed {
                Some(node) => Some(node@),
                None => None,
            },
        }
    }
}

/// The values of a sequence of defines.
pub open spec fn define_views(defines: Seq<Define>) -> Seq<DefineView> {
    defines.map_values(|d: Define| d@)
}

/// A rule: a path, the replacement text, and the expression that the text
/// stands for, from which every use takes a copy.
#[derive(Debug)]
pub struct DefineRule {
    path: DefinePath,
    replacement: String,
    fragment: Node,
}

/// The mathematical value of a [`DefineRule`].
pub struct DefineRuleView {
    pub path: DefinePathView,
    pub replacement: Seq<char>,
    pub fragment: NodeView,
}

impl View for DefineRule {
    type V = DefineRuleView;

    closed spec fn view(&self) -> DefineRuleView {
        DefineRuleView {
            path: self.path@,
            replacement: self.replacement@,
            fragment: self.fragment@,
        }
    }
}

/// The rule that one entry declares, or the reason why it declares none.
/// A replacement that is no expression is reported before a path text that
/// declares no path.
pub open spec fn rule_of(define: DefineView) -> Result<DefineRuleView, ConfigErrorView> {
    match define.parsed {
        None => Err(ConfigErrorView::InvalidReplacement(define.path)),
        Some(fragment) => match parsed_path(define.path) {
            None => Err(ConfigErrorView::InvalidPath(define.path)),
            Some(path) => Ok(DefineRuleView { path, replacement: define.replacement, fragment }),
        },
    }
}

/// The paths of a sequence of rules.
pub open spec fn paths_of(rules: Seq<DefineRuleView>) -> Seq<DefinePathView> {
    rules.map_values(|r: DefineRuleView| r.path)
}

/// The rules that a list of defines declares, in order, or the error of
/// the first entry that is at fault: one that declares no rule, or that
/// declares the path of an entry before it.
pub open spec fn compiled(defines: Seq<DefineView>) -> Result<Seq<DefineRuleView>, ConfigErrorView>
    decreases defines.len(),
{
    if defines.len() == 0 {
        Ok(Seq::empty())
    } else {
        match compiled(defines.drop_last()) {
            Err(error) => Err(error),
            Ok(rules) => match rule_of(defines.last()) {
                Err(error) => Err(error),
                Ok(rule) => if paths_of(rules).contains(rule.path) {
                    Err(ConfigErrorView::DuplicatePath(defines.last().path))
                } else {
                    Ok(rules.push(rule))
                },
            },
        }
    }
}

/// The first error stands: entries after the one at fault change nothing.
pub proof fn lemma_first_error_stands(defines: Seq<DefineView>, n: int)
    requires
        0 <= n <= defines.len(),
        compiled(defines.take(n)) is Err,
    ensures
        compiled(defines) == compiled(defines.take(n)),
    decreases defines.len() - n,
{
    if n < defines.len() {
        assert(defines.take(n + 1).drop_last() =~= defines.take(n));
        lemma_first_error_stands(defines, n + 1);
    } else {
        assert(defines.take(n) =~= defines);
    }
}

impl DefineRule {
    /// The rule that `define` declares.
    pub fn new(define: &Define) -> (made: Result<DefineRule, ConfigError>)
        ensures
            match made {
                Ok(rule) => rule_of(define@) == Ok::<DefineRuleView, ConfigErrorView>(rule@),
                Err(error) => rule_of(define@) == Err::<DefineRuleView, ConfigErrorView>(error@),
            },
    {
        match &define.parsed {
            None => Err(ConfigError::InvalidReplacement(define.path.clone())),
            Some(node) => match DefinePath::parse(define.path.as_str()) {
                None => Err(ConfigError::InvalidPath(define.path.clone())),
                Some(path) => Ok(
                    DefineRule {
                        path,
                        replacement: define.replacement.clone(),
                        fragment: node.duplicate(),
                    },
                ),
            },
        }
    }

    /// The path of the rule.
    pub fn path(&self) -> (path: &DefinePath)
        ensures
            path@ == self@.path,
    {
        &self.path
    }

    /// The replacement text of the rule.
    pub fn replacement(&self) -> (text: &String)
        ensures
            text@ == self@.replacement,
    {
        &self.replacement
    }

    /// The expression that the replacement text stands for.
    pub fn fragment(&self) -> (fragment: &Node)
        ensures
            fragment@ == self@.fragment,
    {
        &self.fragment
    }
}

/// A set of rules, ready for matching: the rules in the order of their
/// declaration, and the index over their paths.
pub struct ReplaceGlobalDefinesConfig {
    index: DefineIndex,
    rules: Vec<DefineRule>,
}

impl View for ReplaceGlobalDefinesConfig {
    type V = Seq<DefineRuleView>;

    closed spec fn view(&self) -> Seq<DefineRuleView> {
        self.rules@.map_values(|r: DefineRule| r@)
    }
}

impl ReplaceGlobalDefinesConfig {
    /// The index holds the paths of the rules, each once.
    pub closed spec fn wf(&self) -> bool {
        &&& self.index.wf()
        &&& self.index@ == paths_of(self@)
    }

    /// Builds the configuration that `defines` declare. It fails on the
    /// first entry at fault, and then no configuration is built.
    pub fn new(defines: &[Define]) -> (made: Result<ReplaceGlobalDefinesConfig, ConfigError>)
        ensures
            match made {
                Ok(config) => config.wf() && compiled(define_views(defines@)) == Ok::<
                    Seq<DefineRuleView>,
                    ConfigErrorView,
                >(config@),
                Err(error) => compiled(define_views(defines@)) == Err::<
                    Seq<DefineRuleView>,
                    ConfigErrorView,
                >(error@),
            },
    {
        let ghost all = define_views(defines@);
        let mut config = ReplaceGlobalDefinesConfig { index: DefineIndex::new(), rules: Vec::new() };
        let mut i: usize = 0;
        proof {
            assert(all.take(0) =~= Seq::<DefineView>::empty());
            assert(config@ =~= Seq::<DefineRuleView>::empty());
            assert(paths_of(config@) =~= Seq::<DefinePathView>::empty());
        }
        while i < defines.len()
            invariant
                i <= defines.len(),
                all == define_views(defines@),
                config.wf(),
                compiled(all.take(i as int)) == Ok::<Seq<DefineRuleView>, ConfigErrorView>(config@),
            decreases defines.len() - i,
        {
            proof {
                assert(all.take(i + 1).drop_last() =~= all.take(i as int));
                assert(all.take(i + 1).last() == defines@[i as int]@);
            }
            let rule = match DefineRule::new(&defines[i]) {
                Ok(rule) => rule,
                Err(error) => {
                    proof {
                        lemma_first_error_stands(all, i + 1);
                    }
                    return Err(error);
                },
            };
            let ghost before = config@;
            match config.index.insert(rule.path.duplicate()) {
                Some(_) => {
                    config.rules.push(rule);
                    proof {
                        assert(config@ =~= before.push(rule@));
                        assert(paths_of(config@) =~= paths_of(before).push(rule@.path));
                    }
                },
                None => {
                    proof {
                        lemma_first_error_stands(all, i + 1);
                    }
                    return Err(ConfigError::DuplicatePath(defines[i].path.clone()));
                },
            }
            i += 1;
        }
        proof {
            assert(all.take(i as int) =~= all);
        }
        Ok(config)
    }

    /// The number of rules.
    pub fn len(&self) -> (n: usize)
        ensures
            n == self@.len(),
    {
        self.rules.len()
    }

    /// The rule at position `i`.
    pub fn rule(&self, i: usize) -> (rule: &DefineRule)
        requires
            i < self@.len(),
        ensures
            rule@ == self@[i as int],
    {
        &self.rules[i]
    }

    /// The most specific rule for `chain` among those that consume at
    /// least `least` segments.
    pub fn lookup(&self, chain: &Vec<String>, least: usize) -> (found: Option<Match>)
        requires
            self.wf(),
        ensures
            match_pair(found) == best_match(paths_of(self@), texts(chain@), least as int),
            found matches Some(m) ==> m.rule < self@.len() && least <= m.consumed <= chain@.len(),
    {
        proof {
            crate::index::lemma_best_match_sound(paths_of(self@), texts(chain@), least as int);
        }
        self.index.lookup(chain, least)
    }
}

} // verus!
