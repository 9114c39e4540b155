use vstd::prelude::*;

verus! {

/// A dotted path as a rule declares it: its segments in order, and whether
/// it ends in the suffix wildcard `*`.
#[derive(Debug, PartialEq, Eq)]
pub struct DefinePath {
    pub segments: Vec<String>,
    pub wildcard: bool,
}

/// The mathematical value of a [`DefinePath`].
pub struct DefinePathView {
    pub segments: Seq<Seq<char>>,
    pub wildcard: bool,
}

/// The texts of a sequence of strings.
pub open spec fn texts(strings: Seq<String>) -> Seq<Seq<char>> {
    strings.map_values(|s: String| s@)
}

impl View for DefinePath {
    type V = DefinePathView;

    open spec fn view(&self) -> DefinePathView {
        DefinePathView { segments: texts(self.segments@), wildcard: self.wildcard }
    }
}

/// The pieces of `text` between its dots. A text without a dot is one
/// piece, and a dot at either end borders an empty piece.
pub open spec fn dot_separated(text: Seq<char>) -> Seq<Seq<char>>
    decreases text.len(),
{
    if text.len() == 0 {
        seq![Seq::<char>::empty()]
    } else {
        let before = dot_separated(text.drop_last());
        if text.last() == '.' {
            before.push(Seq::<char>::empty())
        } else {
            before.update(before.len() - 1, before.last().push(text.last()))
        }
    }
}

/// The pieces joined again, with a dot between neighbours.
pub open spec fn dot_joined(pieces: Seq<Seq<char>>) -> Seq<char>
    decreases pieces.len(),
{
    if pieces.len() == 0 {
        Seq::<char>::empty()
    } else if pieces.len() == 1 {
        pieces[0]
    } else {
        dot_joined(pieces.drop_last()) + seq!['.'] + pieces.last()
    }
}

/// The path that a path text declares, if it declares one. The empty text
/// and the bare `*` declare none. A final piece `*` marks a wildcard path
/// and is not one of its segments.
pub open spec fn parsed_path(text: Seq<char>) -> Option<DefinePathView> {
    let pieces = dot_separated(text);
    if text.len() == 0 {
        None
    } else if pieces.last() == seq!['*'] {
        if pieces.len() == 1 {
            None
        } else {
            Some(DefinePathView { segments: pieces.drop_last(), wildcard: true })
        }
    } else {
        Some(DefinePathView { segments: pieces, wildcard: false })
    }
}

/// Splitting never yields an empty list of pieces.
pub proof fn lemma_dot_separated_nonempty(text: Seq<char>)
    ensures
        dot_separated(text).len() >= 1,
    decreases text.len(),
{
    if text.len() > 0 {
        lemma_dot_separated_nonempty(text.drop_last());
    }
}

/// Splitting loses nothing: the pieces hold no dot, and joined with dots
/// they give the text back.
pub proof fn lemma_dot_separated_joins(text: Seq<char>)
    ensures
        dot_joined(dot_separated(text)) == text,
        forall|i: int, j: int|
            0 <= i < dot_separated(text).len() && 0 <= j < dot_separated(text)[i].len()
                ==> #[trigger] dot_separated(text)[i][j] != '.',
    decreases text.len(),
{
    if text.len() > 0 {
        let shorter = text.drop_last();
        let before = dot_separated(shorter);
        lemma_dot_separated_nonempty(shorter);
        lemma_dot_separated_joins(shorter);
        let pieces = dot_separated(text);
        if text.last() == '.' {
            assert(pieces.drop_last() == before);
            assert(dot_joined(pieces) == dot_joined(before) + seq!['.'] + Seq::<char>::empty());
            assert(shorter + seq!['.'] + Seq::<char>::empty() =~= text);
        } else {
            let grown = before.last().push(text.last());
            if before.len() == 1 {
                assert(dot_joined(before) == before[0]);
                assert(dot_joined(pieces) == grown);
                assert(shorter.push(text.last()) =~= text);
            } else {
                assert(pieces.drop_last() == before.drop_last());
                assert(dot_joined(pieces) == dot_joined(before.drop_last()) + seq!['.'] + grown);
                assert(dot_joined(before) == dot_joined(before.drop_last()) + seq!['.']
                    + before.last());
                assert(dot_joined(before.drop_last()) + seq!['.'] + grown =~= shorter.push(
                    text.last(),
                ));
                assert(shorter.push(text.last()) =~= text);
            }
        }
    }
}

/// Whether `text` is the one character `*`.
fn is_star(text: &String) -> (star: bool)
    ensures
        star == (text@ == seq!['*']),
{
    let s = text.as_str();
    if s.unicode_len() == 1 {
        let c = s.get_char(0);
        assert(c == '*' ==> text@ =~= seq!['*']);
        c == '*'
    } else {
        false
    }
}

/// Splits `text` at its dots.
pub fn split_dots(text: &str) -> (pieces: Vec<String>)
    ensures
        texts(pieces@) == dot_separated(text@),
{
    let n = text.unicode_len();
    let mut pieces: Vec<String> = Vec::new();
    let mut start: usize = 0;
    let mut i: usize = 0;
    proof {
        assert(text@.take(0) =~= Seq::<char>::empty());
        assert(texts(pieces@).push(text@.subrange(0, 0)) =~= seq![Seq::<char>::empty()]);
    }
    while i < n
        invariant
            n == text@.len(),
            start <= i <= n,
            texts(pieces@).push(text@.subrange(start as int, i as int)) == dot_separated(
                text@.take(i as int),
            ),
        decreases n - i,
    {
        let c = text.get_char(i);
        let ghost seen = text@.take(i as int);
        let ghost next = text@.take(i + 1);
        let ghost before = texts(pieces@);
        let ghost open = text@.subrange(start as int, i as int);
        proof {
            assert(next.drop_last() =~= seen);
            assert(next.last() == c);
        }
        if c == '.' {
            let piece = String::from_str(text.substring_char(start, i));
            pieces.push(piece);
            start = i + 1;
            proof {
                assert(texts(pieces@) =~= before.push(open));
                assert(text@.subrange(start as int, i + 1) =~= Seq::<char>::empty());
            }
        } else {
            proof {
                assert(text@.subrange(start as int, i + 1) =~= open.push(c));
                assert(before.push(open.push(c)) =~= before.push(open).update(
                    before.push(open).len() - 1,
                    before.push(open).last().push(c),
                ));
            }
        }
        i += 1;
    }
    let piece = String::from_str(text.substring_char(start, n));
    proof {
        assert(text@.take(n as int) =~= text@);
        assert(texts(pieces@.push(piece)) =~= texts(pieces@).push(piece@));
    }
    pieces.push(piece);
    pieces
}

impl DefinePath {
    /// Reads a path text. The result is `None` exactly for the texts that
    /// declare no path: the empty text and the bare `*`.
    pub fn parse(text: &str) -> (path: Option<DefinePath>)
        ensures
            match path {
                Some(p) => parsed_path(text@) == Some(p@),
                None => parsed_path(text@) is None,
            },
    {
        if text.unicode_len() == 0 {
            return None;
        }
        let mut pieces = split_dots(text);
        proof {
            lemma_dot_separated_nonempty(text@);
        }
        let last = pieces.len() - 1;
        assert(texts(pieces@).last() == pieces@[last as int]@);
        if is_star(&pieces[last]) {
            if pieces.len() == 1 {
                None
            } else {
                let ghost all = texts(pieces@);
                pieces.pop();
                assert(texts(pieces@) =~= all.drop_last());
                Some(DefinePath { segments: pieces, wildcard: true })
            }
        } else {
            Some(DefinePath { segments: pieces, wildcard: false })
        }
    }

    /// A copy of the path.
    pub fn duplicate(&self) -> (copy: DefinePath)
        ensures
            copy@ == self@,
    {
        let mut segments: Vec<String> = Vec::new();
        let mut i: usize = 0;
        while i < self.segments.len()
            invariant
                i <= self.segments.len(),
                segments@.len() == i,
                forall|j: int| 0 <= j < i ==> segments@[j]@ == self.segments@[j]@,
            decreases self.segments.len() - i,
        {
            segments.push(self.segments[i].clone());
            i += 1;
        }
        assert(texts(segments@) =~= texts(self.segments@));
        DefinePath { segments, wildcard: self.wildcard }
    }
}

} // verus!
