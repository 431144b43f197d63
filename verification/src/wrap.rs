//! Greedy word wrapping of pull-request titles.
//!
//! Words are placed one after another; the caller measures each candidate
//! line (the current line with the next word appended) in its font and says
//! whether it fits.  A word that does not fit starts a new line, even when
//! it is too wide by itself.

use vstd::prelude::*;

verus! {

/// `word` appended to `line` with a separating space (no space on an empty
/// line).
pub open spec fn joined(line: Seq<char>, word: Seq<char>) -> Seq<char> {
    if line.len() == 0 {
        word
    } else {
        line + seq![' '] + word
    }
}

/// Lines being filled with words.
pub struct LineWrapper {
    lines: Vec<String>,
    current: String,
}

impl View for LineWrapper {
    type V = (Seq<Seq<char>>, Seq<char>);

    /// The finished lines and the line being filled.
    closed spec fn view(&self) -> (Seq<Seq<char>>, Seq<char>) {
        (self.lines@.map_values(|l: String| l@), self.current@)
    }
}

/// The lines a wrapper hands out when it is finished: the finished lines,
/// the line being filled if it is not empty, and a single empty line when
/// there is nothing else.
pub open spec fn finished_lines(v: (Seq<Seq<char>>, Seq<char>)) -> Seq<Seq<char>> {
    let ls = if v.1.len() > 0 {
        v.0.push(v.1)
    } else {
        v.0
    };
    if ls.len() == 0 {
        seq![seq![]]
    } else {
        ls
    }
}

/// The wrapper after placing `word`: on the current line when it `fits`;
/// otherwise the current line, unless empty, is finished and `word` starts
/// the next.
pub open spec fn placed(v: (Seq<Seq<char>>, Seq<char>), word: Seq<char>, fits: bool) -> (
    Seq<Seq<char>>,
    Seq<char>,
) {
    if fits {
        (v.0, joined(v.1, word))
    } else {
        (
            if v.1.len() > 0 {
                v.0.push(v.1)
            } else {
                v.0
            },
            word,
        )
    }
}

impl LineWrapper {
    /// No line and nothing placed.
    pub fn new() -> (r: Self)
        ensures
            r@ == (Seq::<Seq<char>>::empty(), Seq::<char>::empty()),
    {
        let r = LineWrapper { lines: Vec::new(), current: String::new() };
        assert(r@.0 =~= Seq::<Seq<char>>::empty());
        r
    }

    /// The line that placing `word` on the current line would give.
    pub fn candidate(&self, word: &str) -> (r: String)
        ensures
            r@ == joined(self@.1, word@),
    {
        if self.current.as_str().unicode_len() == 0 {
            String::from_str(word)
        } else {
            let mut s = self.current.clone();
            s.push(' ');
            s.append(word);
            assert(s@ =~= joined(self@.1, word@));
            s
        }
    }

    /// Places `word`: on the current line when the candidate line `fits`,
    /// otherwise at the start of a new line (the current line, unless empty,
    /// being finished).
    pub fn place(&mut self, word: &str, fits: bool)
        ensures
            final(self)@ == placed(old(self)@, word@, fits),
    {
        if fits {
            self.current = self.candidate(word);
        } else {
            let ghost lv = self@.0;
            if self.current.as_str().unicode_len() > 0 {
                let mut line = String::new();
                std::mem::swap(&mut line, &mut self.current);
                self.lines.push(line);
                assert(self@.0 =~= lv.push(old(self)@.1));
            }
            self.current = String::from_str(word);
        }
    }

    /// The wrapped lines.
    pub fn finish(self) -> (r: Vec<String>)
        ensures
            r@.map_values(|l: String| l@) == finished_lines(self@),
    {
        let ghost v = self@;
        let mut lines = self.lines;
        if self.current.as_str().unicode_len() > 0 {
            lines.push(self.current);
            assert(lines@.map_values(|l: String| l@) =~= v.0.push(v.1));
        }
        if lines.len() == 0 {
            lines.push(String::new());
            assert(lines@.map_values(|l: String| l@) =~= seq![Seq::<char>::empty()]);
        }
        lines
    }
}

} // verus!

verus! {

/// Whether every line is blank once trimmed (a title with nothing to show).
pub fn all_blank(lines: &Vec<String>) -> (r: bool)
    ensures
        r == forall|i: int|
            0 <= i < lines@.len() ==> crate::text::trimmed(#[trigger] lines@[i]@).len() == 0,
{
    let mut i: usize = 0;
    while i < lines.len()
        invariant
            i <= lines.len(),
            forall|k: int| 0 <= k < i ==> crate::text::trimmed(#[trigger] lines@[k]@).len() == 0,
        decreases lines.len() - i,
    {
        let (a, b) = crate::text::trim_bounds(lines[i].as_str());
        if a < b {
            return false;
        }
        i = i + 1;
    }
    true
}

} // verus!

verus! {

// ---------------------------------------------------------------------------
// Laws
// ---------------------------------------------------------------------------

/// Lines joined with single spaces.
pub open spec fn join_words(ls: Seq<Seq<char>>) -> Seq<char>
    decreases ls.len(),
{
    if ls.len() == 0 {
        seq![]
    } else if ls.len() == 1 {
        ls[0]
    } else {
        join_words(ls.drop_last()) + seq![' '] + ls.last()
    }
}

/// Every line holds something.
pub open spec fn all_nonempty(ls: Seq<Seq<char>>) -> bool {
    forall|i: int| 0 <= i < ls.len() ==> (#[trigger] ls[i]).len() > 0
}

/// The text of a wrapper: its lines, and the line being filled unless
/// empty, joined with single spaces.
pub open spec fn wrapped_text(v: (Seq<Seq<char>>, Seq<char>)) -> Seq<char> {
    join_words(
        if v.1.len() > 0 {
            v.0.push(v.1)
        } else {
            v.0
        },
    )
}

/// The wrapper after placing each of `ws` in turn, `fits[i]` telling
/// whether word `i` fitted.
pub open spec fn place_all(
    v: (Seq<Seq<char>>, Seq<char>),
    ws: Seq<Seq<char>>,
    fits: Seq<bool>,
) -> (Seq<Seq<char>>, Seq<char>)
    decreases ws.len(),
{
    if ws.len() == 0 {
        v
    } else {
        placed(place_all(v, ws.drop_last(), fits), ws.last(), fits[ws.len() - 1])
    }
}

proof fn lemma_join_push(ls: Seq<Seq<char>>, x: Seq<char>)
    requires
        all_nonempty(ls),
    ensures
        join_words(ls.push(x)) == joined(join_words(ls), x),
        ls.len() > 0 ==> join_words(ls).len() > 0,
    decreases ls.len(),
{
    assert(ls.push(x).drop_last() =~= ls);
    if ls.len() > 1 {
        assert(all_nonempty(ls.drop_last()));
        lemma_join_push(ls.drop_last(), ls.last());
        assert(ls.drop_last().push(ls.last()) =~= ls);
    }
}

/// Placing a word adds exactly that word, after a space, to the wrapper's
/// text, and every finished line holds something.
pub proof fn lemma_place_adds_word(v: (Seq<Seq<char>>, Seq<char>), word: Seq<char>, fits: bool)
    requires
        all_nonempty(v.0),
        word.len() > 0,
    ensures
        all_nonempty(placed(v, word, fits).0),
        wrapped_text(placed(v, word, fits)) == joined(wrapped_text(v), word),
{
    let (ls, c) = v;
    lemma_join_push(ls, word);
    if c.len() > 0 {
        lemma_join_push(ls, c);
        let j = join_words(ls);
        if fits {
            lemma_join_push(ls, joined(c, word));
            if j.len() == 0 {
                assert(joined(joined(j, c), word) =~= joined(j, joined(c, word)));
            } else {
                assert(joined(joined(j, c), word) =~= joined(j, joined(c, word)));
            }
        } else {
            assert(all_nonempty(ls.push(c)));
            lemma_join_push(ls.push(c), word);
        }
    }
}

/// Wrapping keeps the words: whatever fitted where, the wrapper's lines
/// joined with single spaces are the words joined with single spaces.
pub proof fn lemma_wrapping_keeps_words(ws: Seq<Seq<char>>, fits: Seq<bool>)
    requires
        all_nonempty(ws),
        fits.len() >= ws.len(),
    ensures
        all_nonempty(place_all((seq![], seq![]), ws, fits).0),
        wrapped_text(place_all((seq![], seq![]), ws, fits)) == join_words(ws),
    decreases ws.len(),
{
    if ws.len() > 0 {
        assert(all_nonempty(ws.drop_last()));
        lemma_wrapping_keeps_words(ws.drop_last(), fits);
        let v = place_all((seq![], seq![]), ws.drop_last(), fits);
        lemma_place_adds_word(v, ws.last(), fits[ws.len() - 1]);
        lemma_join_push(ws.drop_last(), ws.last());
        assert(ws.drop_last().push(ws.last()) =~= ws);
    } else {
        assert(wrapped_text((seq![], seq![])) == join_words(Seq::<Seq<char>>::empty()));
    }
}

/// The finished lines, joined with single spaces, are the wrapper's text;
/// there is always at least one line.
pub proof fn lemma_finished_lines(v: (Seq<Seq<char>>, Seq<char>))
    ensures
        join_words(finished_lines(v)) == wrapped_text(v),
        finished_lines(v).len() >= 1,
{
}

} // verus!
