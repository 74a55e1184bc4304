//! Positions in a line of text, as byte offsets and as character counts.

use crate::text::{
    byte_len, char_len, char_width, extend_chars, from_chars, is_white, lemma_byte_len_push,
    lemma_trim_end_parts, str_len, to_chars, trim_end, trim_end_index,
};
use vstd::prelude::*;

verus! {

/// Byte offset of the character position `k`.
pub open spec fn offset(s: Seq<char>, k: int) -> nat {
    byte_len(s.take(k))
}

/// Whether the byte offset `b` lies between two characters of `s`, at its
/// start or at its end.
pub open spec fn is_boundary(s: Seq<char>, b: int) -> bool {
    exists|k: int| 0 <= k <= s.len() && #[trigger] offset(s, k) == b
}

/// The character position of the byte offset `b`.
pub open spec fn position(s: Seq<char>, b: int) -> int {
    choose|k: int| 0 <= k <= s.len() && #[trigger] offset(s, k) == b
}

pub proof fn lemma_offset_next(s: Seq<char>, k: int)
    requires
        0 <= k < s.len(),
    ensures
        offset(s, k + 1) == offset(s, k) + char_width(s[k]),
{
    assert(s.take(k).push(s[k]) =~= s.take(k + 1));
    lemma_byte_len_push(s.take(k), s[k]);
}

pub proof fn lemma_offset_ends(s: Seq<char>)
    ensures
        offset(s, 0) == 0,
        offset(s, s.len() as int) == byte_len(s),
{
    assert(s.take(0) =~= Seq::<char>::empty());
    assert(s.take(s.len() as int) =~= s);
}

/// A later character has the larger byte offset.
pub proof fn lemma_offset_grows(s: Seq<char>, j: int, k: int)
    requires
        0 <= j < k <= s.len(),
    ensures
        offset(s, j) < offset(s, k),
    decreases k - j,
{
    lemma_offset_next(s, k - 1);
    if j < k - 1 {
        lemma_offset_grows(s, j, k - 1);
    }
}

/// A byte offset belongs to one character position.
pub proof fn lemma_position(s: Seq<char>, k: int)
    requires
        0 <= k <= s.len(),
    ensures
        is_boundary(s, offset(s, k) as int),
        position(s, offset(s, k) as int) == k,
{
    let p = position(s, offset(s, k) as int);
    if p < k {
        lemma_offset_grows(s, p, k);
    } else if k < p {
        lemma_offset_grows(s, k, p);
    }
}

/// Number of characters before the byte offset `byte_pos`.
pub fn char_count_for_bytes(s: &str, byte_pos: usize) -> (n: usize)
    requires
        is_boundary(s@, byte_pos as int),
    ensures
        n <= s@.len(),
        offset(s@, n as int) == byte_pos,
        n == position(s@, byte_pos as int),
{
    let chars = to_chars(s);
    let total = str_len(s);
    let mut n: usize = 0;
    let mut at: usize = 0;
    let ghost goal = position(s@, byte_pos as int);
    proof {
        lemma_offset_ends(s@);
    }
    while at != byte_pos
        invariant
            chars@ == s@,
            total == byte_len(s@),
            0 <= goal <= s@.len(),
            offset(s@, goal) == byte_pos,
            n <= goal,
            at == offset(s@, n as int),
            goal == position(s@, byte_pos as int),
        decreases goal - n,
    {
        proof {
            assert(chars.len() <= usize::MAX);
            lemma_offset_next(s@, n as int);
            lemma_offset_ends(s@);
            if n + 1 < s@.len() {
                lemma_offset_grows(s@, n + 1, s@.len() as int);
            }
        }
        at = at + char_len(chars[n]);
        n = n + 1;
    }
    proof {
        if n < goal {
            lemma_offset_grows(s@, n as int, goal);
        }
    }
    n
}

/// Byte offset of the character position `n`, or the length of `s` where it
/// has no such position.
pub fn char_offset_to_byte(s: &str, n: usize) -> (b: usize)
    ensures
        b == if n < s@.len() {
            offset(s@, n as int)
        } else {
            byte_len(s@)
        },
{
    let chars = to_chars(s);
    let total = str_len(s);
    if n >= chars.len() {
        return total;
    }
    let mut k: usize = 0;
    let mut at: usize = 0;
    proof {
        lemma_offset_ends(s@);
    }
    while k < n
        invariant
            chars@ == s@,
            total == byte_len(s@),
            k <= n < s@.len(),
            at == offset(s@, k as int),
        decreases n - k,
    {
        proof {
            lemma_offset_next(s@, k as int);
            lemma_offset_ends(s@);
            lemma_offset_grows(s@, k + 1, s@.len() as int);
        }
        at = at + char_len(chars[k]);
        k = k + 1;
    }
    at
}

/// The last character boundary before the byte offset `pos`, or the start.
pub fn prev_char_boundary(s: &str, pos: usize) -> (p: usize)
    ensures
        is_boundary(s@, p as int),
        p < pos || p == 0,
        forall|k: int| 0 <= k <= s@.len() && #[trigger] offset(s@, k) < pos ==> offset(s@, k) <= p,
{
    let chars = to_chars(s);
    let total = str_len(s);
    let mut k: usize = 0;
    let mut p: usize = 0;
    proof {
        lemma_offset_ends(s@);
    }
    while k < chars.len() && p + char_len(chars[k]) < pos
        invariant
            chars@ == s@,
            total == byte_len(s@),
            k <= s@.len(),
            p == offset(s@, k as int),
            p < pos || p == 0,
            k < s@.len() ==> p + char_width(s@[k as int]) <= usize::MAX,
        decreases s@.len() - k,
    {
        proof {
            lemma_offset_next(s@, k as int);
            lemma_offset_ends(s@);
            if k + 1 < s@.len() {
                lemma_offset_next(s@, k + 1);
                if k + 2 < s@.len() {
                    lemma_offset_grows(s@, k + 2, s@.len() as int);
                }
            }
        }
        p = p + char_len(chars[k]);
        k = k + 1;
    }
    proof {
        assert forall|j: int| 0 <= j <= s@.len() && #[trigger] offset(s@, j) < pos implies offset(
            s@,
            j,
        ) <= p by {
            if j > k {
                lemma_offset_next(s@, k as int);
                if j > k + 1 {
                    lemma_offset_grows(s@, k + 1, j);
                }
            } else if j < k {
                lemma_offset_grows(s@, j, k as int);
            }
        }
    }
    p
}

/// The first character boundary after the byte offset `pos`; past the end of
/// `s`, the next byte offset.
pub fn next_char_boundary(s: &str, pos: usize) -> (p: usize)
    requires
        pos < usize::MAX,
    ensures
        pos < p,
        pos >= byte_len(s@) ==> p == pos + 1,
        pos < byte_len(s@) ==> is_boundary(s@, p as int) && (forall|k: int|
            0 <= k <= s@.len() && #[trigger] offset(s@, k) > pos ==> p <= offset(s@, k)),
{
    let chars = to_chars(s);
    let total = str_len(s);
    if pos >= total {
        return pos + 1;
    }
    let mut k: usize = 0;
    let mut p: usize = 0;
    proof {
        lemma_offset_ends(s@);
    }
    while p <= pos
        invariant
            chars@ == s@,
            total == byte_len(s@),
            pos < total,
            k <= s@.len(),
            p == offset(s@, k as int),
            p == 0 && k == 0 || (k > 0 && offset(s@, k - 1) <= pos),
        decreases s@.len() - k,
    {
        proof {
            assert(chars.len() <= usize::MAX);
            lemma_offset_ends(s@);
            lemma_offset_next(s@, k as int);
            if k + 1 < s@.len() {
                lemma_offset_grows(s@, k + 1, s@.len() as int);
            }
        }
        p = p + char_len(chars[k]);
        k = k + 1;
    }
    proof {
        assert forall|j: int| 0 <= j <= s@.len() && #[trigger] offset(s@, j) > pos implies p
            <= offset(s@, j) by {
            if j < k - 1 {
                lemma_offset_grows(s@, j, k - 1);
            } else if j > k {
                lemma_offset_grows(s@, k as int, j);
            }
        }
    }
    p
}

/// A line of text and a position in it.
#[verifier::ext_equal]
pub struct LineModel {
    pub text: Seq<char>,
    pub at: int,
}

/// `s` without the characters from `a` up to `b`.
pub open spec fn cut(s: Seq<char>, a: int, b: int) -> Seq<char> {
    s.take(a) + s.skip(b)
}

/// Position after the last `c` in `s`, or its start.
pub open spec fn after_last(s: Seq<char>, c: char) -> int
    decreases s.len(),
{
    if s.len() == 0 {
        0
    } else if s.last() == c {
        s.len() as int
    } else {
        after_last(s.drop_last(), c)
    }
}

/// Where the word before the end of `s` starts: white space at the end does
/// not count, and words are separated by blanks.
pub open spec fn word_start(s: Seq<char>) -> int {
    after_last(trim_end(s), ' ')
}

/// A word starts at or before the end.
pub proof fn lemma_word_start(s: Seq<char>)
    ensures
        0 <= word_start(s) <= s.len(),
{
    lemma_trim_end_len(s);
    lemma_after_last(trim_end(s), ' ');
}

proof fn lemma_trim_end_len(s: Seq<char>)
    ensures
        trim_end(s).len() <= s.len(),
    decreases s.len(),
{
    if s.len() > 0 {
        lemma_trim_end_len(s.drop_last());
    }
}

proof fn lemma_after_last(s: Seq<char>, c: char)
    ensures
        0 <= after_last(s, c) <= s.len(),
    decreases s.len(),
{
    if s.len() > 0 && s.last() != c {
        lemma_after_last(s.drop_last(), c);
    }
}

/// Where the last word starts: behind a blank or at the start of the text, with no
/// blank after it but in the white space at the end of the text.
pub proof fn lemma_word_is_cut(s: Seq<char>)
    ensures
        0 <= word_start(s) <= s.len(),
        s.len() > 0 ==> word_start(s) < s.len(),
        word_start(s) == 0 || s[word_start(s) - 1] == ' ',
        forall|i: int, j: int|
            word_start(s) <= i <= j < s.len() && #[trigger] s[i] == ' ' ==> is_white(
                #[trigger] s[j],
            ),
{
    let t = trim_end(s);
    lemma_word_start(s);
    lemma_trim_end_parts(s);
    lemma_after_last_props(t, ' ');
    let k = word_start(s);
    assert(s.take(t.len() as int) == t);
    if k > 0 {
        assert(t[k - 1] == s[k - 1]);
    }
    if t.len() > 0 {
        assert(!is_white(t.last()));
        assert(is_white(' '));
    }
    assert forall|i: int, j: int|
        k <= i <= j < s.len() && #[trigger] s[i] == ' ' implies is_white(#[trigger] s[j]) by {
        if i < t.len() {
            assert(t[i] == s[i]);
        }
        assert(s.skip(t.len() as int)[j - t.len()] == s[j]);
    }
}

proof fn lemma_after_last_props(s: Seq<char>, c: char)
    ensures
        0 <= after_last(s, c) <= s.len(),
        after_last(s, c) == 0 || s[after_last(s, c) - 1] == c,
        forall|i: int| after_last(s, c) <= i < s.len() ==> #[trigger] s[i] != c,
    decreases s.len(),
{
    if s.len() > 0 && s.last() != c {
        let front = s.drop_last();
        lemma_after_last_props(front, c);
        assert forall|i: int| after_last(s, c) <= i < s.len() implies #[trigger] s[i] != c by {
            if i < front.len() {
                assert(front[i] == s[i]);
            }
        }
    }
}

impl LineModel {
    /// Whether the position lies in the text.
    pub open spec fn wf(self) -> bool {
        0 <= self.at <= self.text.len()
    }

    /// With `c` inserted before the position.
    pub open spec fn inserted(self, c: char) -> LineModel {
        LineModel { text: self.text.insert(self.at, c), at: self.at + 1 }
    }

    /// Without the characters from `a` up to the position.
    pub open spec fn cut_back_to(self, a: int) -> LineModel {
        LineModel { text: cut(self.text, a, self.at), at: a }
    }

    /// Without the character after the position.
    pub open spec fn cut_next(self) -> LineModel {
        LineModel { text: cut(self.text, self.at, self.at + 1), at: self.at }
    }

    /// With another position.
    pub open spec fn moved(self, at: int) -> LineModel {
        LineModel { at, ..self }
    }

    /// Start of the word before the position.
    pub open spec fn word_start(self) -> int {
        word_start(self.text.take(self.at))
    }
}

/// A line that is being edited: its text and the byte offset of the cursor.
pub struct Line {
    buffer: String,
    cursor: usize,
}

impl View for Line {
    type V = LineModel;

    closed spec fn view(&self) -> LineModel {
        LineModel { text: self.buffer@, at: position(self.buffer@, self.cursor as int) }
    }
}

/// The start of the word before the end of `s`.
fn find_word_start(s: &[char]) -> (k: usize)
    ensures
        k == word_start(s@),
        k <= s@.len(),
{
    let mut k: usize = trim_end_index(s);
    while k > 0 && s[k - 1] != ' '
        invariant
            k <= s@.len(),
            after_last(s@.take(k as int), ' ') == word_start(s@),
        decreases k,
    {
        proof {
            assert(s@.take(k as int).drop_last() =~= s@.take(k - 1));
        }
        k = k - 1;
    }
    k
}

impl Line {
    /// Whether the cursor stands between two characters or at an end.
    pub closed spec fn wf(self) -> bool {
        is_boundary(self.buffer@, self.cursor as int)
    }

    /// The byte offset of the cursor.
    pub closed spec fn spec_cursor(self) -> nat {
        self.cursor as nat
    }

    /// What [`Line::wf`] gives: the position lies in the text, and the byte
    /// offset is its offset.
    pub proof fn lemma_wf(self)
        requires
            self.wf(),
        ensures
            self@.wf(),
            self.spec_cursor() == offset(self@.text, self@.at),
    {
    }

    /// The empty line.
    pub fn new() -> (l: Self)
        ensures
            l.wf(),
            l@ == (LineModel { text: Seq::empty(), at: 0 }),
    {
        let l = Line { buffer: String::new(), cursor: 0 };
        proof {
            lemma_offset_ends(l.buffer@);
            lemma_position(l.buffer@, 0);
            assert(l@.text =~= Seq::<char>::empty());
        }
        l
    }

    /// The text.
    pub fn text(&self) -> (s: &str)
        ensures
            s@ == self@.text,
    {
        self.buffer.as_str()
    }

    /// The byte offset of the cursor.
    pub fn cursor(&self) -> (b: usize)
        ensures
            b == self.spec_cursor(),
    {
        self.cursor
    }

    /// Whether there is no text.
    pub fn is_empty(&self) -> (r: bool)
        ensures
            r == (self@.text.len() == 0),
    {
        let chars = to_chars(self.buffer.as_str());
        chars.len() == 0
    }

    /// Number of characters.
    pub fn char_count(&self) -> (n: usize)
        ensures
            n == self@.text.len(),
    {
        let chars = to_chars(self.buffer.as_str());
        chars.len()
    }

    /// Number of characters before the cursor.
    pub fn chars_before(&self) -> (n: usize)
        requires
            self.wf(),
        ensures
            n == self@.at,
            n <= self@.text.len(),
    {
        char_count_for_bytes(self.buffer.as_str(), self.cursor)
    }

    /// Takes the text out and leaves the empty line.
    pub fn take(&mut self) -> (s: String)
        requires
            old(self).wf(),
        ensures
            s@ == old(self)@.text,
            final(self).wf(),
            final(self)@ == (LineModel { text: Seq::empty(), at: 0 }),
    {
        let s = self.buffer.clone();
        *self = Line::new();
        s
    }

    /// Moves the cursor to the character position `k`, or to the end.
    pub fn move_to(&mut self, k: usize)
        ensures
            final(self).wf(),
            final(self)@ == old(self)@.moved(
                if k < old(self)@.text.len() {
                    k as int
                } else {
                    old(self)@.text.len() as int
                },
            ),
    {
        let b = char_offset_to_byte(self.buffer.as_str(), k);
        self.cursor = b;
        proof {
            lemma_offset_ends(self.buffer@);
            if k < self.buffer@.len() {
                lemma_position(self.buffer@, k as int);
            } else {
                lemma_position(self.buffer@, self.buffer@.len() as int);
            }
        }
    }

    /// Moves the cursor to the start.
    pub fn move_to_start(&mut self)
        ensures
            final(self).wf(),
            final(self)@ == old(self)@.moved(0),
    {
        self.move_to(0);
    }

    /// Moves the cursor to the end.
    pub fn move_to_end(&mut self)
        ensures
            final(self).wf(),
            final(self)@ == old(self)@.moved(old(self)@.text.len() as int),
    {
        self.cursor = str_len(self.buffer.as_str());
        proof {
            lemma_offset_ends(self.buffer@);
            lemma_position(self.buffer@, self.buffer@.len() as int);
        }
    }

    /// Inserts `c` before the cursor.
    pub fn insert(&mut self, c: char)
        requires
            old(self).wf(),
        ensures
            final(self).wf(),
            final(self)@ == old(self)@.inserted(c),
    {
        let k = self.chars_before();
        let chars = to_chars(self.buffer.as_str());
        let mut out: Vec<char> = Vec::new();
        extend_chars(&mut out, vstd::slice::slice_subrange(chars.as_slice(), 0, k));
        out.push(c);
        extend_chars(&mut out, vstd::slice::slice_subrange(chars.as_slice(), k, chars.len()));
        let ghost before = self.buffer@;
        self.buffer = from_chars(&out);
        proof {
            assert(self.buffer@ =~= before.insert(k as int, c));
            assert(out.len() <= usize::MAX);
        }
        self.move_to(k + 1);
    }

    /// Removes the characters from position `a` up to position `b`, and moves
    /// the cursor to `a`.
    fn remove(&mut self, a: usize, b: usize)
        requires
            a <= b <= old(self)@.text.len(),
        ensures
            final(self).wf(),
            final(self)@ == (LineModel { text: cut(old(self)@.text, a as int, b as int), at: a as int }),
    {
        let chars = to_chars(self.buffer.as_str());
        let mut out: Vec<char> = Vec::new();
        extend_chars(&mut out, vstd::slice::slice_subrange(chars.as_slice(), 0, a));
        extend_chars(&mut out, vstd::slice::slice_subrange(chars.as_slice(), b, chars.len()));
        let ghost before = self.buffer@;
        self.buffer = from_chars(&out);
        proof {
            assert(self.buffer@ =~= cut(before, a as int, b as int));
        }
        self.move_to(a);
    }

    /// Removes everything before the cursor.
    pub fn cut_to_start(&mut self)
        requires
            old(self).wf(),
        ensures
            final(self).wf(),
            final(self)@ == old(self)@.cut_back_to(0),
    {
        let k = self.chars_before();
        self.remove(0, k);
    }

    /// Removes the word before the cursor; says whether the cursor was not at
    /// the start.
    pub fn cut_word(&mut self) -> (changed: bool)
        requires
            old(self).wf(),
        ensures
            final(self).wf(),
            changed == (old(self)@.at > 0),
            final(self)@ == if changed {
                old(self)@.cut_back_to(old(self)@.word_start())
            } else {
                old(self)@
            },
    {
        let k = self.chars_before();
        if k == 0 {
            return false;
        }
        let chars = to_chars(self.buffer.as_str());
        let before = vstd::slice::slice_subrange(chars.as_slice(), 0, k);
        proof {
            assert(before@ =~= self.buffer@.take(k as int));
        }
        let a = find_word_start(before);
        self.remove(a, k);
        true
    }

    /// Removes the character before the cursor; says whether there was one.
    pub fn cut_previous(&mut self) -> (changed: bool)
        requires
            old(self).wf(),
        ensures
            final(self).wf(),
            changed == (old(self)@.at > 0),
            final(self)@ == if changed {
                old(self)@.cut_back_to(old(self)@.at - 1)
            } else {
                old(self)@
            },
    {
        let k = self.chars_before();
        if k == 0 {
            return false;
        }
        self.remove(k - 1, k);
        true
    }

    /// Removes the character after the cursor; says whether there was one.
    pub fn cut_following(&mut self) -> (changed: bool)
        requires
            old(self).wf(),
        ensures
            final(self).wf(),
            changed == (old(self)@.at < old(self)@.text.len()),
            final(self)@ == if changed {
                old(self)@.cut_next()
            } else {
                old(self)@
            },
    {
        let k = self.chars_before();
        if k >= self.char_count() {
            return false;
        }
        self.remove(k, k + 1);
        true
    }

    /// Moves the cursor one character back, unless it is at the start.
    pub fn move_back(&mut self)
        requires
            old(self).wf(),
        ensures
            final(self).wf(),
            final(self)@ == if old(self)@.at > 0 {
                old(self)@.moved(old(self)@.at - 1)
            } else {
                old(self)@
            },
    {
        if self.cursor > 0 {
            let p = prev_char_boundary(self.buffer.as_str(), self.cursor);
            proof {
                let s = self.buffer@;
                let k = self@.at;
                lemma_offset_ends(s);
                assert(k > 0);
                lemma_offset_next(s, k - 1);
                lemma_position(s, k - 1);
                let j = position(s, p as int);
                assert(offset(s, j) == p);
                if j > k - 1 {
                    if j > k {
                        lemma_offset_grows(s, k, j);
                    }
                } else if j < k - 1 {
                    lemma_offset_grows(s, j, k - 1);
                }
                assert(j == k - 1);
            }
            self.cursor = p;
        } else {
            proof {
                let s = self.buffer@;
                lemma_offset_ends(s);
                if self@.at > 0 {
                    lemma_offset_grows(s, 0, self@.at);
                }
            }
        }
    }

    /// Moves the cursor one character on, unless it is at the end.
    pub fn move_on(&mut self)
        requires
            old(self).wf(),
        ensures
            final(self).wf(),
            final(self)@ == if old(self)@.at < old(self)@.text.len() {
                old(self)@.moved(old(self)@.at + 1)
            } else {
                old(self)@
            },
    {
        proof {
            lemma_offset_ends(self.buffer@);
            if self@.at < self.buffer@.len() {
                lemma_offset_grows(self.buffer@, self@.at, self.buffer@.len() as int);
            }
        }
        if self.cursor < str_len(self.buffer.as_str()) {
            let p = next_char_boundary(self.buffer.as_str(), self.cursor);
            proof {
                let s = self.buffer@;
                let k = self@.at;
                assert(k < s.len());
                lemma_offset_next(s, k);
                lemma_position(s, k + 1);
                let j = position(s, p as int);
                assert(offset(s, j) == p);
                if j > k + 1 {
                    lemma_offset_grows(s, k + 1, j);
                } else if j < k {
                    lemma_offset_grows(s, j, k);
                }
                assert(j == k + 1);
            }
            self.cursor = p;
        }
    }
}

} // verus!
