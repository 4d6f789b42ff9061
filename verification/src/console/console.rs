use vstd::prelude::*;
use crate::fs::block_device::push_char;
use crate::fs::layout::runs_upto;
use crate::fs::laws::lemma_runs_upto_maximal;
use vstd::utf8::{encode_utf8, decode_utf8, encode_utf8_decode_utf8};

verus! {

/// Whether a character has the Unicode `White_Space` property: U+0009 to
/// U+000D, U+0020, U+0085, U+00A0, U+1680, U+2000 to U+200A, U+2028, U+2029,
/// U+202F, U+205F and U+3000.
pub open spec fn is_whitespace_char(c: char) -> bool {
    ||| '\u{9}' <= c <= '\u{d}'
    ||| c == ' '
    ||| c == '\u{85}'
    ||| c == '\u{a0}'
    ||| c == '\u{1680}'
    ||| '\u{2000}' <= c <= '\u{200a}'
    ||| c == '\u{2028}'
    ||| c == '\u{2029}'
    ||| c == '\u{202f}'
    ||| c == '\u{205f}'
    ||| c == '\u{3000}'
}

/// Whether `c` is whitespace, as `char::is_whitespace` decides.
pub fn char_is_whitespace(c: char) -> (r: bool)
    ensures
        r == is_whitespace_char(c),
{
    match c {
        '\u{9}'..='\u{d}' | ' ' | '\u{85}' | '\u{a0}' | '\u{1680}' | '\u{2000}'..='\u{200a}'
        | '\u{2028}' | '\u{2029}' | '\u{202f}' | '\u{205f}' | '\u{3000}' => true,
        _ => false,
    }
}

/// The words among the first `n` characters of `s`, where `blank[i]` says
/// whether character `i` separates words: the maximal runs of characters that
/// are not separators, in order. A non-separator either lengthens the word
/// just before it or starts a new one.
pub open spec fn words_upto(s: Seq<char>, blank: Seq<bool>, n: int) -> Seq<Seq<char>>
    decreases n,
{
    if n <= 0 {
        Seq::empty()
    } else if blank[n - 1] {
        words_upto(s, blank, n - 1)
    } else {
        let prev = words_upto(s, blank, n - 1);
        if n >= 2 && !blank[n - 2] {
            prev.update(prev.len() - 1, prev.last().push(s[n - 1]))
        } else {
            prev.push(seq![s[n - 1]])
        }
    }
}

/// The words of `s` separated by the characters flagged in `blank`.
pub open spec fn words(s: Seq<char>, blank: Seq<bool>) -> Seq<Seq<char>> {
    words_upto(s, blank, s.len() as int)
}

/// Which characters of `s` are whitespace.
pub open spec fn whitespace_flags(s: Seq<char>) -> Seq<bool> {
    Seq::new(s.len(), |i: int| is_whitespace_char(s[i]))
}

/// `ws` are the words of `s` split at the positions `spans` describe: span `k`
/// runs from position `spans[k].0` up to (not including) `spans[k].1`; it is
/// not empty, holds no flagged position, is bounded by flagged positions or
/// the line's ends, and word `k` is exactly its characters; the spans come in
/// order, and every unflagged position lies in one of them.
pub open spec fn split_by_spans(
    s: Seq<char>,
    blank: Seq<bool>,
    ws: Seq<Seq<char>>,
    spans: Seq<(int, int)>,
) -> bool {
    &&& spans.len() == ws.len()
    &&& forall|k: int|
        0 <= k < spans.len() ==> {
            &&& 0 <= #[trigger] spans[k].0 < spans[k].1 <= s.len()
            &&& ws[k] == s.subrange(spans[k].0, spans[k].1)
            &&& forall|j: int| spans[k].0 <= j < spans[k].1 ==> !blank[j]
            &&& spans[k].0 == 0 || blank[spans[k].0 - 1]
            &&& spans[k].1 == s.len() || blank[spans[k].1]
        }
    &&& forall|k: int, l: int|
        0 <= k < l < spans.len() ==> #[trigger] spans[k].1 < #[trigger] spans[l].0
    &&& forall|j: int|
        0 <= j < s.len() && !blank[j] ==> exists|k: int|
            0 <= k < spans.len() && #[trigger] spans[k].0 <= j < spans[k].1
}

/// `ws` are the words of `s` separated at the positions flagged in `blank`:
/// the maximal runs of unflagged positions, whole and in order.
pub open spec fn is_split(s: Seq<char>, blank: Seq<bool>, ws: Seq<Seq<char>>) -> bool {
    exists|spans: Seq<(int, int)>| split_by_spans(s, blank, ws, spans)
}

/// The words found among the first `n` characters are the maximal free runs
/// of the flags, character for character.
proof fn lemma_words_are_runs(s: Seq<char>, blank: Seq<bool>, n: int)
    requires
        blank.len() == s.len(),
        0 <= n <= s.len(),
    ensures
        words_upto(s, blank, n).len() == runs_upto(blank, n).len(),
        forall|k: int|
            0 <= k < runs_upto(blank, n).len() ==> #[trigger] words_upto(s, blank, n)[k]
                == s.subrange(runs_upto(blank, n)[k].0, runs_upto(blank, n)[k].0 + runs_upto(
                blank,
                n,
            )[k].1),
    decreases n,
{
    if n > 0 {
        lemma_words_are_runs(s, blank, n - 1);
        lemma_runs_upto_maximal(blank, n - 1);
        lemma_runs_upto_maximal(blank, n);
        let pw = words_upto(s, blank, n - 1);
        let pr = runs_upto(blank, n - 1);
        let w = words_upto(s, blank, n);
        let r = runs_upto(blank, n);
        if !blank[n - 1] {
            if n >= 2 && !blank[n - 2] {
                let last = pr.len() - 1;
                assert forall|k: int| 0 <= k < r.len() implies #[trigger] w[k] == s.subrange(
                    r[k].0,
                    r[k].0 + r[k].1,
                ) by {
                    if k == last {
                        assert(pw[last] == s.subrange(pr[last].0, pr[last].0 + pr[last].1));
                        assert(w[k] =~= s.subrange(r[k].0, r[k].0 + r[k].1));
                    } else {
                        assert(w[k] == pw[k]);
                        assert(r[k] == pr[k]);
                    }
                }
            } else {
                assert forall|k: int| 0 <= k < r.len() implies #[trigger] w[k] == s.subrange(
                    r[k].0,
                    r[k].0 + r[k].1,
                ) by {
                    if k == pr.len() {
                        assert(w[k] =~= s.subrange(r[k].0, r[k].0 + r[k].1));
                    } else {
                        assert(w[k] == pw[k]);
                        assert(r[k] == pr[k]);
                    }
                }
            }
        }
    }
}

/// Law: the words of a line are exactly its maximal runs of characters at
/// unflagged positions, each whole, in order, and together covering every
/// unflagged position.
pub proof fn words_are_maximal_runs(s: Seq<char>, blank: Seq<bool>)
    requires
        blank.len() == s.len(),
    ensures
        is_split(s, blank, words(s, blank)),
{
    let n = s.len() as int;
    lemma_words_are_runs(s, blank, n);
    lemma_runs_upto_maximal(blank, n);
    let r = runs_upto(blank, n);
    let spans = Seq::new(r.len(), |k: int| (r[k].0, r[k].0 + r[k].1));
    let ws = words(s, blank);
    assert forall|k: int| 0 <= k < spans.len() implies {
        &&& 0 <= #[trigger] spans[k].0 < spans[k].1 <= s.len()
        &&& ws[k] == s.subrange(spans[k].0, spans[k].1)
        &&& forall|j: int| spans[k].0 <= j < spans[k].1 ==> !blank[j]
        &&& spans[k].0 == 0 || blank[spans[k].0 - 1]
        &&& spans[k].1 == s.len() || blank[spans[k].1]
    } by {
        assert(0 <= r[k].0);
    }
    assert forall|k: int, l: int| 0 <= k < l < spans.len() implies #[trigger] spans[k].1
        < #[trigger] spans[l].0 by {
        assert(r[k].0 + r[k].1 < r[l].0);
    }
    assert forall|j: int| 0 <= j < s.len() && !blank[j] implies exists|k: int|
        0 <= k < spans.len() && #[trigger] spans[k].0 <= j < spans[k].1 by {
        let k = choose|k: int| 0 <= k < r.len() && #[trigger] r[k].0 <= j < r[k].0 + r[k].1;
        assert(spans[k].0 <= j < spans[k].1);
    }
    assert(split_by_spans(s, blank, ws, spans));
}

/// Law: the whitespace-separated words of a line are its maximal runs of
/// characters that are not whitespace (in the sense of `char::is_whitespace`),
/// whole and in order; no word holds a whitespace character.
pub proof fn whitespace_words_are_maximal_runs(s: Seq<char>)
    ensures
        is_split(
            s,
            Seq::new(s.len(), |i: int| is_whitespace_char(s[i])),
            words(s, whitespace_flags(s)),
        ),
        forall|k: int, i: int|
            0 <= k < words(s, whitespace_flags(s)).len() && 0 <= i < words(
                s,
                whitespace_flags(s),
            )[k].len() ==> !is_whitespace_char(#[trigger] words(s, whitespace_flags(s))[k][i]),
{
    let flags = Seq::new(s.len(), |i: int| is_whitespace_char(s[i]));
    assert(whitespace_flags(s) =~= flags);
    words_are_maximal_runs(s, flags);
    let ws = words(s, flags);
    let spans = choose|spans: Seq<(int, int)>| split_by_spans(s, flags, ws, spans);
    assert forall|k: int, i: int| 0 <= k < ws.len() && 0 <= i < ws[k].len() implies !is_whitespace_char(
        #[trigger] ws[k][i],
    ) by {
        assert(0 <= spans[k].0 < spans[k].1);
        assert(ws[k][i] == s[spans[k].0 + i]);
        assert(!flags[spans[k].0 + i]);
    }
}

/// The character sequences of a sequence of strings.
pub open spec fn string_seqs(v: Seq<String>) -> Seq<Seq<char>> {
    Seq::new(v.len(), |i: int| v[i]@)
}

/// Splits `line` into the words separated by the characters flagged in `blank`.
pub fn split_words(line: &Vec<char>, blank: &Vec<bool>) -> (r: Vec<String>)
    requires
        blank@.len() == line@.len(),
    ensures
        string_seqs(r@) == words(line@, blank@),
        is_split(line@, blank@, string_seqs(r@)),
{
    proof {
        words_are_maximal_runs(line@, blank@);
    }
    let ghost s = line@;
    let ghost b = blank@;
    let mut res: Vec<String> = Vec::new();
    let mut cur = String::new();
    let mut in_word = false;
    for i in 0..line.len()
        invariant
            s == line@,
            b == blank@,
            b.len() == s.len(),
            in_word <==> (i > 0 && !b[i - 1]),
            words_upto(s, b, i as int) == if in_word {
                string_seqs(res@).push(cur@)
            } else {
                string_seqs(res@)
            },
            !in_word ==> cur@ == Seq::<char>::empty(),
    {
        let c = line[i];
        let ghost prev = res@;
        if blank[i] {
            if in_word {
                res.push(cur);
                assert(string_seqs(res@) =~= string_seqs(prev).push(res@.last()@));
                cur = String::new();
                in_word = false;
            }
        } else {
            push_char(&mut cur, c);
            in_word = true;
            assert(words_upto(s, b, i + 1) =~= string_seqs(res@).push(cur@));
        }
    }
    if in_word {
        let ghost prev = res@;
        res.push(cur);
        assert(string_seqs(res@) =~= string_seqs(prev).push(res@.last()@));
    }
    res
}

/// Splits a typed line into its whitespace-separated words.
pub fn split_whitespace(line: &Vec<char>) -> (r: Vec<String>)
    ensures
        string_seqs(r@) == words(line@, whitespace_flags(line@)),
        is_split(
            line@,
            Seq::new(line@.len(), |i: int| is_whitespace_char(line@[i])),
            string_seqs(r@),
        ),
{
    proof {
        whitespace_words_are_maximal_runs(line@);
    }
    let mut blank: Vec<bool> = Vec::new();
    for i in 0..line.len()
        invariant
            blank@ == whitespace_flags(line@).take(i as int),
    {
        blank.push(char_is_whitespace(line[i]));
        assert(blank@ =~= whitespace_flags(line@).take(i + 1));
    }
    assert(blank@ =~= whitespace_flags(line@));
    split_words(line, &blank)
}

/// What a key does to the line being typed.
#[derive(Clone, Copy, Debug, PartialEq, Eq, Structural)]
pub enum LineEdit {
    /// Return: the line is complete.
    Finished,
    /// Backspace removed the last character.
    Erased,
    /// Backspace on an empty line: nothing happens.
    Ignored,
    /// The character was added to the line.
    Appended,
}

/// Applies one key of the console's line editor to `line`: return ends the
/// line, backspace (8) removes the last character, anything else is added.
pub fn edit_line(line: &mut Vec<char>, c: char) -> (r: LineEdit)
    ensures
        c == '\n' ==> (r == LineEdit::Finished && final(line)@ == old(line)@),
        (c == '\u{8}' && old(line)@.len() > 0) ==> (r == LineEdit::Erased && final(line)@
            == old(line)@.drop_last()),
        (c == '\u{8}' && old(line)@.len() == 0) ==> (r == LineEdit::Ignored && final(line)@
            == old(line)@),
        (c != '\n' && c != '\u{8}') ==> (r == LineEdit::Appended && final(line)@
            == old(line)@.push(c)),
{
    if c == '\n' {
        return LineEdit::Finished;
    }
    if c == '\u{8}' {
        if line.len() > 0 {
            line.pop();
            return LineEdit::Erased;
        }
        return LineEdit::Ignored;
    }
    line.push(c);
    LineEdit::Appended
}

/// What a key does to the contents typed for a new file.
#[derive(Clone, Copy, Debug, PartialEq, Eq, Structural)]
pub enum ContentEdit {
    /// A second return in a row: the contents are complete.
    Finished,
    /// Backspace removed the last character, if there was one.
    Erased,
    /// The character was added.
    Appended,
}

/// Whether the last character typed is a return.
pub open spec fn ends_with_newline(s: Seq<char>) -> bool {
    s.len() > 0 && s.last() == '\n'
}

/// Law: the contents end with a return exactly when they are not empty and
/// their last character is a return.
pub proof fn ends_with_newline_means_last_is_return(s: Seq<char>)
    ensures
        ends_with_newline(s) <==> (s.len() > 0 && s[s.len() - 1] == '\n'),
{
}

/// Applies one key of the file-contents editor to `content`: backspace (8)
/// removes the last character, a return right after a return ends the input,
/// anything else is added.
pub fn edit_content(content: &mut Vec<char>, c: char) -> (r: ContentEdit)
    ensures
        (c == '\u{8}' && old(content)@.len() > 0) ==> (r == ContentEdit::Erased && final(content)@
            == old(content)@.drop_last()),
        (c == '\u{8}' && old(content)@.len() == 0) ==> (r == ContentEdit::Erased && final(content)@
            == old(content)@),
        (c == '\n' && ends_with_newline(old(content)@)) ==> (r == ContentEdit::Finished
            && final(content)@ == old(content)@),
        (c != '\u{8}' && !(c == '\n' && ends_with_newline(old(content)@))) ==> (r
            == ContentEdit::Appended && final(content)@ == old(content)@.push(c)),
        (r == ContentEdit::Finished) ==> (c == '\n' && old(content)@.len() > 0
            && old(content)@[old(content)@.len() - 1] == '\n'),
        (c == '\n' && !(old(content)@.len() > 0 && old(content)@[old(content)@.len() - 1]
            == '\n')) ==> (r == ContentEdit::Appended && final(content)@ == old(content)@.push(c)),
{
    if c == '\u{8}' {
        content.pop();
        ContentEdit::Erased
    } else if c == '\n' && content.len() > 0 && content[content.len() - 1] == '\n' {
        ContentEdit::Finished
    } else {
        content.push(c);
        ContentEdit::Appended
    }
}

/// Whether the strings `a` and `b` hold the same characters, compared byte by byte.
fn same_str(a: &str, b: &str) -> (r: bool)
    ensures
        r == (a@ == b@),
{
    let x = a.as_bytes();
    let y = b.as_bytes();
    proof {
        encode_utf8_decode_utf8(a@);
        encode_utf8_decode_utf8(b@);
    }
    if x.len() != y.len() {
        return false;
    }
    for i in 0..x.len()
        invariant
            x@ == encode_utf8(a@),
            y@ == encode_utf8(b@),
            decode_utf8(x@) == a@,
            decode_utf8(y@) == b@,
            x@.len() == y@.len(),
            forall|k: int| 0 <= k < i ==> x@[k] == y@[k],
    {
        if x[i] != y[i] {
            return false;
        }
    }
    assert(x@ =~= y@);
    true
}

/// A console command: its name and what runs it.
pub struct Command<H> {
    pub name: &'static str,
    pub handler: H,
}

impl<H> Command<H> {
    pub fn new(name: &'static str, f: H) -> (c: Command<H>)
        ensures
            c.name == name,
            c.handler == f,
    {
        Command { name, handler: f }
    }
}

/// The console's command table.
pub struct Commands<H> {
    pub commands: Vec<Command<H>>,
}

impl<H> Commands<H> {
    /// An empty table.
    pub fn new() -> (r: Commands<H>)
        ensures
            r.commands@ == Seq::<Command<H>>::empty(),
    {
        Commands { commands: Vec::new() }
    }

    /// Adds a command at the end of the table.
    pub fn add(&mut self, name: &'static str, f: H)
        ensures
            final(self).commands@.len() == old(self).commands@.len() + 1,
            final(self).commands@.take(old(self).commands@.len() as int) == old(self).commands@,
            final(self).commands@.last().name == name,
            final(self).commands@.last().handler == f,
    {
        let command = Command::new(name, f);
        self.commands.push(command);
    }

    /// The first command in the table named `name`.
    #[allow(non_snake_case)]
    pub fn getCommand(&self, name: &str) -> (r: Option<&Command<H>>)
        ensures
            match r {
                Some(c) => exists|i: int|
                    0 <= i < self.commands@.len() && self.commands@[i] == *c && c.name@ == name@
                        && forall|j: int| 0 <= j < i ==> (#[trigger] self.commands@[j]).name@ != name@,
                None => forall|j: int|
                    0 <= j < self.commands@.len() ==> (#[trigger] self.commands@[j]).name@ != name@,
            },
    {
        for i in 0..self.commands.len()
            invariant
                forall|j: int| 0 <= j < i ==> (#[trigger] self.commands@[j]).name@ != name@,
        {
            let c = &self.commands[i];
            if same_str(c.name, name) {
                return Some(c);
            }
        }
        None
    }
}

} // verus!
