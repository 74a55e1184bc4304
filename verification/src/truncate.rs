//! Output truncation shared by every tool.

use crate::line::{lemma_offset_ends, lemma_offset_next, offset};
use crate::text::{
    byte_len, char_len, char_views, char_width, decimal, from_chars, join, lemma_byte_len_add,
    lemma_byte_len_one, lemma_join_first, lines, push_chars, push_decimal, slice_text, split_lines, str_len,
    to_chars,
};
use vstd::prelude::*;

verus! {

/// Most lines that are shown.
pub const MAX_OUTPUT_LINES: usize = 2000;

/// Most bytes that are shown.
pub const MAX_OUTPUT_BYTES: usize = 51200;

/// Result of a truncation.
#[derive(Debug)]
pub struct Truncated {
    pub content: String,
    pub was_truncated: bool,
    pub total_lines: usize,
    pub total_bytes: usize,
}

/// What a [`Truncated`] says.
#[verifier::ext_equal]
pub struct TruncatedModel {
    pub content: Seq<char>,
    pub was_truncated: bool,
    pub total_lines: nat,
    pub total_bytes: nat,
}

impl View for Truncated {
    type V = TruncatedModel;

    open spec fn view(&self) -> TruncatedModel {
        TruncatedModel {
            content: self.content@,
            was_truncated: self.was_truncated,
            total_lines: self.total_lines as nat,
            total_bytes: self.total_bytes as nat,
        }
    }
}

/// Lines with line breaks between them.
pub open spec fn unlines(ls: Seq<Seq<char>>) -> Seq<char> {
    join(ls, seq!['\n'])
}

/// Whether a text is short enough to be shown whole.
pub open spec fn fits(input: Seq<char>) -> bool {
    lines(input).len() <= MAX_OUTPUT_LINES && byte_len(input) <= MAX_OUTPUT_BYTES
}

/// How many lines from the first are kept, when the first `k` are: one more is
/// kept while the line count allows it and the text stays short enough, a line
/// break included.
pub open spec fn head_count(ls: Seq<Seq<char>>, k: nat) -> nat
    decreases ls.len() - k,
{
    if k >= ls.len() || k >= MAX_OUTPUT_LINES || byte_len(unlines(ls.take(k as int))) + byte_len(
        ls[k as int],
    ) + 1 > MAX_OUTPUT_BYTES {
        k
    } else {
        head_count(ls, k + 1)
    }
}

/// The first lines of a text, as many as can be shown.
pub open spec fn head_kept(input: Seq<char>) -> Seq<Seq<char>> {
    lines(input).take(head_count(lines(input), 0) as int)
}

/// A text truncated at its end.
pub open spec fn head_truncated(input: Seq<char>) -> TruncatedModel {
    TruncatedModel {
        content: if fits(input) {
            input
        } else {
            unlines(head_kept(input))
        },
        was_truncated: !fits(input),
        total_lines: lines(input).len(),
        total_bytes: byte_len(input),
    }
}

proof fn lemma_join_push(parts: Seq<Seq<char>>, part: Seq<char>, sep: Seq<char>)
    ensures
        join(parts.push(part), sep) == if parts.len() == 0 {
            part
        } else {
            join(parts, sep) + sep + part
        },
{
    assert(parts.push(part).drop_last() =~= parts);
}

/// Number of bytes of the UTF-8 encoding of the characters.
fn chars_byte_len(chars: &[char]) -> (n: usize)
    ensures
        n == byte_len(chars@),
{
    let s = from_chars(chars);
    str_len(s.as_str())
}

/// Keeps the first lines of a text.
pub fn truncate_head_plain(input: &str) -> (t: Truncated)
    ensures
        t@ == head_truncated(input@),
{
    let chars = to_chars(input);
    let rows = split_lines(&chars);
    let total_lines = rows.len();
    let total_bytes = str_len(input);
    let ghost ls = char_views(rows@);
    proof {
        assert(ls.len() == rows@.len());
    }
    if total_lines <= MAX_OUTPUT_LINES && total_bytes <= MAX_OUTPUT_BYTES {
        return Truncated {
            content: input.to_owned(),
            was_truncated: false,
            total_lines,
            total_bytes,
        };
    }
    let mut result = String::new();
    let mut bytes: usize = 0;
    let mut kept: usize = 0;
    proof {
        assert(ls.take(0) =~= Seq::<Seq<char>>::empty());
        assert(result@ =~= Seq::<char>::empty());
        assert(byte_len(Seq::<char>::empty()) == 0);
    }
    while kept < rows.len()
        invariant
            kept <= rows@.len(),
            kept <= MAX_OUTPUT_LINES,
            bytes <= MAX_OUTPUT_BYTES,
            ls == char_views(rows@),
            ls == lines(input@),
            result@ == unlines(ls.take(kept as int)),
            bytes == byte_len(result@),
            head_count(ls, 0) == head_count(ls, kept as nat),
        ensures
            kept <= rows@.len(),
            result@ == unlines(ls.take(kept as int)),
            head_count(ls, 0) == kept,
        decreases rows@.len() - kept,
    {
        let len = chars_byte_len(rows[kept].as_slice());
        proof {
            assert(ls[kept as int] == rows@[kept as int]@);
        }
        if kept >= MAX_OUTPUT_LINES || len >= MAX_OUTPUT_BYTES - bytes {
            break;
        }
        let ghost before = result@;
        proof {
            assert(ls.take(kept as int).push(ls[kept as int]) =~= ls.take(kept + 1));
            lemma_join_push(ls.take(kept as int), ls[kept as int], seq!['\n']);
            lemma_byte_len_add(before, seq!['\n']);
            lemma_byte_len_one('\n');
            lemma_byte_len_add(before + seq!['\n'], ls[kept as int]);
        }
        if kept > 0 {
            result.push('\n');
            bytes = bytes + 1;
            proof {
                assert(result@ =~= before + seq!['\n']);
            }
        }
        push_chars(&mut result, rows[kept].as_slice());
        proof {
            if kept == 0 {
                assert(result@ =~= ls[0]);
            }
        }
        bytes = bytes + len;
        kept = kept + 1;
    }
    Truncated { content: result, was_truncated: true, total_lines, total_bytes }
}

/// The note at the end of a text truncated at its end.
pub open spec fn head_notice(t: TruncatedModel, hint: Seq<char>) -> Seq<char> {
    "\n\n[Showing lines 1-"@ + decimal(lines(t.content).len()) + " of "@ + decimal(t.total_lines)
        + " ("@ + decimal(t.total_bytes) + " bytes total). "@ + hint + "]"@
}

/// A text truncated at its end, with a note.
pub open spec fn head_noticed(input: Seq<char>, hint: Seq<char>) -> TruncatedModel {
    let t = head_truncated(input);
    if t.was_truncated {
        TruncatedModel { content: t.content + head_notice(t, hint), ..t }
    } else {
        t
    }
}

/// Keeps the first lines of a text, with a note on how to go on.
pub fn truncate_head(input: &str) -> (t: Truncated)
    ensures
        t@ == head_noticed(input@, "Use start_line and line_count to continue reading."@),
{
    truncate_head_with_notice(input, "Use start_line and line_count to continue reading.")
}

/// Keeps the first lines of a text, with a note on how to go on.
pub fn truncate_head_with_notice(input: &str, continuation_hint: &str) -> (t: Truncated)
    ensures
        t@ == head_noticed(input@, continuation_hint@),
{
    let truncated = truncate_head_plain(input);
    if !truncated.was_truncated {
        return truncated;
    }
    let ghost plain = truncated@;
    let chars = to_chars(truncated.content.as_str());
    let kept = split_lines(&chars);
    proof {
        assert(char_views(kept@).len() == kept@.len());
    }
    let mut content = truncated.content;
    content.append("\n\n[Showing lines 1-");
    push_decimal(&mut content, kept.len() as u128);
    content.append(" of ");
    push_decimal(&mut content, truncated.total_lines as u128);
    content.append(" (");
    push_decimal(&mut content, truncated.total_bytes as u128);
    content.append(" bytes total). ");
    content.append(continuation_hint);
    content.append("]");
    proof {
        assert(content@ =~= plain.content + head_notice(plain, continuation_hint@));
    }
    Truncated {
        content,
        was_truncated: true,
        total_lines: truncated.total_lines,
        total_bytes: truncated.total_bytes,
    }
}

/// Bytes of the last `k` lines, each with a line break.
pub open spec fn tail_bytes(ls: Seq<Seq<char>>, k: nat) -> nat
    decreases k,
{
    if k == 0 || k > ls.len() {
        0
    } else {
        byte_len(ls[ls.len() - k]) + 1 + tail_bytes(ls, (k - 1) as nat)
    }
}

/// How many lines from the last are kept, when the last `k` are.
pub open spec fn tail_count(ls: Seq<Seq<char>>, k: nat) -> nat
    decreases ls.len() - k,
{
    if k >= ls.len() || k >= MAX_OUTPUT_LINES || tail_bytes(ls, k + 1) > MAX_OUTPUT_BYTES {
        k
    } else {
        tail_count(ls, k + 1)
    }
}

/// The note at the start of a text truncated at its start.
pub open spec fn tail_notice(kept: nat, total_lines: nat, total_bytes: nat) -> Seq<char> {
    "[Showing lines "@ + decimal((total_lines - kept + 1) as nat) + "-"@ + decimal(total_lines)
        + " of "@ + decimal(total_lines) + " ("@ + decimal(total_bytes) + " bytes total)]\n\n"@
}

/// A text truncated at its start.
pub open spec fn tail_truncated(input: Seq<char>) -> TruncatedModel {
    let ls = lines(input);
    let kept = tail_count(ls, 0);
    TruncatedModel {
        content: if fits(input) {
            input
        } else {
            tail_notice(kept, ls.len(), byte_len(input)) + unlines(ls.skip(ls.len() - kept))
        },
        was_truncated: !fits(input),
        total_lines: ls.len(),
        total_bytes: byte_len(input),
    }
}

/// Appends lines from position `from` on, with line breaks between them.
fn push_lines(out: &mut String, rows: &[Vec<char>], from: usize)
    requires
        from <= rows@.len(),
    ensures
        final(out)@ == old(out)@ + unlines(char_views(rows@).skip(from as int)),
{
    let ghost ls = char_views(rows@).skip(from as int);
    let ghost start = out@;
    let mut i: usize = from;
    proof {
        assert(ls.take(0) =~= Seq::<Seq<char>>::empty());
        assert(start + unlines(ls.take(0)) =~= start);
    }
    while i < rows.len()
        invariant
            from <= i <= rows@.len(),
            ls == char_views(rows@).skip(from as int),
            out@ == start + unlines(ls.take(i - from)),
        decreases rows@.len() - i,
    {
        let ghost before = out@;
        let ghost k = i - from;
        if i > from {
            out.push('\n');
        }
        push_chars(out, rows[i].as_slice());
        proof {
            assert(ls[k] == rows@[i as int]@);
            assert(ls.take(k).push(ls[k]) =~= ls.take(k + 1));
            lemma_join_push(ls.take(k), ls[k], seq!['\n']);
            if i > from {
                assert(before.push('\n') =~= before + seq!['\n']);
                assert(out@ =~= start + (unlines(ls.take(k)) + seq!['\n'] + ls[k]));
            } else {
                assert(out@ =~= start + ls[k]);
            }
        }
        i = i + 1;
    }
    proof {
        assert(ls.take(i - from) =~= ls);
    }
}

/// Keeps the last lines of a text, with a note.
pub fn truncate_tail(input: &str) -> (t: Truncated)
    ensures
        t@ == tail_truncated(input@),
{
    let chars = to_chars(input);
    let rows = split_lines(&chars);
    let total_lines = rows.len();
    let total_bytes = str_len(input);
    let ghost ls = char_views(rows@);
    proof {
        assert(ls.len() == rows@.len());
    }
    if total_lines <= MAX_OUTPUT_LINES && total_bytes <= MAX_OUTPUT_BYTES {
        return Truncated {
            content: input.to_owned(),
            was_truncated: false,
            total_lines,
            total_bytes,
        };
    }
    let mut bytes: usize = 0;
    let mut kept: usize = 0;
    while kept < total_lines
        invariant
            total_lines == rows@.len(),
            kept <= total_lines,
            kept <= MAX_OUTPUT_LINES,
            bytes <= MAX_OUTPUT_BYTES,
            ls == char_views(rows@),
            bytes == tail_bytes(ls, kept as nat),
            tail_count(ls, 0) == tail_count(ls, kept as nat),
        ensures
            kept <= total_lines,
            tail_count(ls, 0) == kept,
        decreases total_lines - kept,
    {
        let at: usize = total_lines - kept - 1;
        let len = chars_byte_len(rows[at].as_slice());
        proof {
            assert(ls[at as int] == rows@[at as int]@);
            assert(tail_bytes(ls, (kept + 1) as nat) == len + 1 + bytes);
        }
        if kept >= MAX_OUTPUT_LINES || len >= MAX_OUTPUT_BYTES - bytes {
            break;
        }
        bytes = bytes + len + 1;
        kept = kept + 1;
    }
    let mut content = "[Showing lines ".to_owned();
    push_decimal(&mut content, (total_lines - kept) as u128 + 1);
    content.append("-");
    push_decimal(&mut content, total_lines as u128);
    content.append(" of ");
    push_decimal(&mut content, total_lines as u128);
    content.append(" (");
    push_decimal(&mut content, total_bytes as u128);
    content.append(" bytes total)]\n\n");
    push_lines(&mut content, rows.as_slice(), total_lines - kept);
    Truncated { content, was_truncated: true, total_lines, total_bytes }
}

/// How many characters of `s` take at most `max` bytes.
pub open spec fn chars_within(s: Seq<char>, max: int) -> int
    decreases s.len(),
{
    if s.len() == 0 || char_width(s[0]) > max {
        0
    } else {
        1 + chars_within(s.drop_first(), max - char_width(s[0]))
    }
}

/// A line of at most `max` bytes; a longer one is cut between two characters
/// and marked.
pub open spec fn line_truncated(line: Seq<char>, max: int) -> Seq<char> {
    if byte_len(line) <= max {
        line
    } else {
        line.take(chars_within(line, max)) + "... [truncated]"@
    }
}

/// Truncates a single line.
pub fn truncate_line(line: &str, max: usize) -> (s: String)
    ensures
        s@ == line_truncated(line@, max as int),
{
    if str_len(line) <= max {
        return line.to_owned();
    }
    let chars = to_chars(line);
    let mut k: usize = 0;
    let mut left: usize = max;
    proof {
        assert(line@.skip(0) =~= line@);
    }
    while k < chars.len() && char_len(chars[k]) <= left
        invariant
            k <= chars@.len(),
            chars@ == line@,
            chars_within(line@, max as int) == k + chars_within(line@.skip(k as int), left as int),
        decreases chars@.len() - k,
    {
        proof {
            assert(line@.skip(k as int)[0] == line@[k as int]);
            assert(line@.skip(k as int).drop_first() =~= line@.skip(k + 1));
        }
        left = left - char_len(chars[k]);
        k = k + 1;
    }
    proof {
        if k < chars@.len() {
            assert(line@.skip(k as int)[0] == line@[k as int]);
        }
    }
    let mut s = slice_text(&chars, 0, k);
    proof {
        assert(s@ =~= line@.take(k as int));
    }
    s.append("... [truncated]");
    s
}

// ---------------------------------------------------------------------------
// Laws
// ---------------------------------------------------------------------------

proof fn lemma_head_count(ls: Seq<Seq<char>>, k: nat)
    requires
        k <= ls.len(),
        k <= MAX_OUTPUT_LINES,
        byte_len(unlines(ls.take(k as int))) <= MAX_OUTPUT_BYTES,
    ensures
        k <= head_count(ls, k) <= ls.len(),
        head_count(ls, k) <= MAX_OUTPUT_LINES,
        byte_len(unlines(ls.take(head_count(ls, k) as int))) <= MAX_OUTPUT_BYTES,
    decreases ls.len() - k,
{
    if !(k >= ls.len() || k >= MAX_OUTPUT_LINES || byte_len(unlines(ls.take(k as int))) + byte_len(
        ls[k as int],
    ) + 1 > MAX_OUTPUT_BYTES) {
        let before = unlines(ls.take(k as int));
        assert(ls.take(k as int).push(ls[k as int]) =~= ls.take(k + 1 as int));
        lemma_join_push(ls.take(k as int), ls[k as int], seq!['\n']);
        lemma_byte_len_add(before, seq!['\n']);
        lemma_byte_len_one('\n');
        lemma_byte_len_add(before + seq!['\n'], ls[k as int]);
        lemma_head_count(ls, k + 1);
    }
}

/// What is left of a truncated text stays within both limits and consists of
/// the first lines of the text.
pub proof fn law_head_stays_within_limits(input: Seq<char>)
    ensures
        byte_len(head_truncated(input).content) <= MAX_OUTPUT_BYTES,
        !fits(input) ==> head_kept(input).len() <= MAX_OUTPUT_LINES && head_kept(input)
            == lines(input).take(head_kept(input).len() as int),
{
    let ls = lines(input);
    assert(ls.take(0) =~= Seq::<Seq<char>>::empty());
    assert(byte_len(Seq::<char>::empty()) == 0);
    lemma_head_count(ls, 0);
}

proof fn lemma_tail_count(ls: Seq<Seq<char>>, k: nat)
    requires
        k <= ls.len(),
        k <= MAX_OUTPUT_LINES,
        tail_bytes(ls, k) <= MAX_OUTPUT_BYTES,
    ensures
        k <= tail_count(ls, k) <= ls.len(),
        tail_count(ls, k) <= MAX_OUTPUT_LINES,
        tail_bytes(ls, tail_count(ls, k)) <= MAX_OUTPUT_BYTES,
    decreases ls.len() - k,
{
    if !(k >= ls.len() || k >= MAX_OUTPUT_LINES || tail_bytes(ls, k + 1) > MAX_OUTPUT_BYTES) {
        lemma_tail_count(ls, k + 1);
    }
}

/// What is kept at the end of a text stays within both limits.
pub proof fn law_tail_stays_within_limits(input: Seq<char>)
    ensures
        tail_count(lines(input), 0) <= MAX_OUTPUT_LINES,
        tail_count(lines(input), 0) <= lines(input).len(),
        tail_bytes(lines(input), tail_count(lines(input), 0)) <= MAX_OUTPUT_BYTES,
{
    lemma_tail_count(lines(input), 0);
}

/// A cut line keeps as many whole characters as fit: they take at most `max`
/// bytes, and one more would take more.
pub proof fn law_cut_line_keeps_whole_characters(line: Seq<char>, max: int)
    requires
        max >= 0,
    ensures
        0 <= chars_within(line, max) <= line.len(),
        offset(line, chars_within(line, max)) <= max,
        chars_within(line, max) < line.len() ==> offset(line, chars_within(line, max) + 1) > max,
    decreases line.len(),
{
    lemma_offset_ends(line);
    if line.len() > 0 {
        let w = char_width(line[0]);
        lemma_offset_next(line, 0);
        if w <= max {
            let rest = line.drop_first();
            law_cut_line_keeps_whole_characters(rest, max - w);
            let k = chars_within(rest, max - w);
            lemma_offset_shift(line, k);
            if k < rest.len() {
                lemma_offset_shift(line, k + 1);
            }
        }
    }
}

proof fn lemma_offset_shift(line: Seq<char>, k: int)
    requires
        line.len() > 0,
        0 <= k <= line.len() - 1,
    ensures
        offset(line, k + 1) == char_width(line[0]) + offset(line.drop_first(), k),
{
    let rest = line.drop_first();
    assert(line.take(k + 1) =~= seq![line[0]] + rest.take(k));
    lemma_byte_len_add(seq![line[0]], rest.take(k));
    lemma_byte_len_one(line[0]);
}

/// A text of at most 2000 lines and 51200 bytes is shown as it is.
pub proof fn law_short_texts_are_shown_whole(input: Seq<char>, hint: Seq<char>)
    requires
        lines(input).len() <= 2000,
        byte_len(input) <= 51200,
    ensures
        head_truncated(input).content == input,
        head_noticed(input, hint).content == input,
        tail_truncated(input).content == input,
        !head_truncated(input).was_truncated,
        !head_noticed(input, hint).was_truncated,
        !tail_truncated(input).was_truncated,
{
}

/// Whether the first `k` lines are as many as can be shown: at most 2000 of
/// them, at most 51200 bytes, and no further line would still fit. A single
/// line has to leave room for its line break.
pub open spec fn is_longest_head(ls: Seq<Seq<char>>, k: nat) -> bool {
    &&& k <= ls.len()
    &&& k <= 2000
    &&& k > 0 ==> byte_len(ls[0]) < 51200 && byte_len(unlines(ls.take(k as int))) <= 51200
    &&& k == ls.len() || k == 2000 || if k == 0 {
        byte_len(ls[0]) >= 51200
    } else {
        byte_len(unlines(ls.take(k + 1 as int))) > 51200
    }
}

proof fn lemma_head_grows(ls: Seq<Seq<char>>, k: int)
    requires
        0 < k < ls.len(),
    ensures
        byte_len(unlines(ls.take(k + 1))) == byte_len(unlines(ls.take(k))) + byte_len(ls[k]) + 1,
{
    let before = unlines(ls.take(k));
    assert(ls.take(k).push(ls[k]) =~= ls.take(k + 1));
    lemma_join_push(ls.take(k), ls[k], seq!['\n']);
    lemma_byte_len_add(before, seq!['\n']);
    lemma_byte_len_one('\n');
    lemma_byte_len_add(before + seq!['\n'], ls[k]);
}

proof fn lemma_head_is_monotone(ls: Seq<Seq<char>>, j: int, k: int)
    requires
        0 < j <= k <= ls.len(),
    ensures
        byte_len(unlines(ls.take(j))) <= byte_len(unlines(ls.take(k))),
    decreases k - j,
{
    if j < k {
        lemma_head_is_monotone(ls, j, k - 1);
        lemma_head_grows(ls, k - 1);
    }
}

proof fn lemma_longest_head(ls: Seq<Seq<char>>, j: nat, k: nat)
    requires
        is_longest_head(ls, k),
        j <= k,
    ensures
        head_count(ls, j) == k,
    decreases k - j,
{
    assert(ls.take(0) =~= Seq::<Seq<char>>::empty());
    assert(byte_len(Seq::<char>::empty()) == 0);
    if j < k {
        if j > 0 {
            lemma_head_grows(ls, j as int);
            lemma_head_is_monotone(ls, j + 1 as int, k as int);
        }
        lemma_longest_head(ls, j + 1, k);
    } else if 0 < k < ls.len() {
        lemma_head_grows(ls, k as int);
    }
}

/// A longer text is cut after as many of its first lines as can be shown. The
/// note behind them says how many these are of how many, how long the whole text
/// is, and how to go on.
pub proof fn law_long_texts_keep_their_first_lines(input: Seq<char>, hint: Seq<char>, k: nat)
    requires
        lines(input).len() > 2000 || byte_len(input) > 51200,
        is_longest_head(lines(input), k),
    ensures
        head_truncated(input).content == unlines(lines(input).take(k as int)),
        head_truncated(input).was_truncated,
        head_truncated(input).total_lines == lines(input).len(),
        head_truncated(input).total_bytes == byte_len(input),
        head_noticed(input, hint).was_truncated,
        lines(unlines(lines(input).take(k as int))).len() == k ==> head_noticed(
            input,
            hint,
        ).content == unlines(lines(input).take(k as int)) + "\n\n[Showing lines 1-"@ + decimal(k)
            + " of "@ + decimal(lines(input).len()) + " ("@ + decimal(byte_len(input))
            + " bytes total). "@ + hint + "]"@,
{
    lemma_longest_head(lines(input), 0, k);
    let t = head_truncated(input);
    assert(t.content + head_notice(t, hint) =~= t.content + "\n\n[Showing lines 1-"@ + decimal(
        lines(t.content).len(),
    ) + " of "@ + decimal(t.total_lines) + " ("@ + decimal(t.total_bytes) + " bytes total). "@
        + hint + "]"@);
}

/// Whether the last `k` lines are as many as can be shown: at most 2000 of
/// them, less than 51200 bytes, and no further line would still fit.
pub open spec fn is_longest_tail(ls: Seq<Seq<char>>, k: nat) -> bool {
    &&& k <= ls.len()
    &&& k <= 2000
    &&& k > 0 ==> byte_len(unlines(ls.skip(ls.len() - k))) < 51200
    &&& k == ls.len() || k == 2000 || byte_len(unlines(ls.skip(ls.len() - k - 1))) >= 51200
}

proof fn lemma_tail_bytes(ls: Seq<Seq<char>>, k: nat)
    requires
        0 < k <= ls.len(),
    ensures
        tail_bytes(ls, k) == byte_len(unlines(ls.skip(ls.len() - k))) + 1,
    decreases k,
{
    let at = ls.len() - k;
    let tail = ls.skip(at);
    let nl = seq!['\n'];
    if k == 1 {
        assert(tail.drop_last() =~= Seq::<Seq<char>>::empty());
        assert(tail.last() == ls[at]);
        assert(unlines(tail) == ls[at]);
        assert(tail_bytes(ls, 0) == 0);
    } else {
        lemma_tail_bytes(ls, (k - 1) as nat);
        lemma_join_first(tail, nl);
        assert(tail.drop_first() =~= ls.skip(at + 1));
        assert(tail[0] == ls[at]);
        lemma_byte_len_add(ls[at], nl);
        lemma_byte_len_one('\n');
        lemma_byte_len_add(ls[at] + nl, unlines(ls.skip(at + 1)));
    }
}

proof fn lemma_tail_is_monotone(ls: Seq<Seq<char>>, j: nat, k: nat)
    requires
        j <= k <= ls.len(),
    ensures
        tail_bytes(ls, j) <= tail_bytes(ls, k),
    decreases k,
{
    if j < k {
        lemma_tail_is_monotone(ls, j, (k - 1) as nat);
    }
}

proof fn lemma_longest_tail(ls: Seq<Seq<char>>, j: nat, k: nat)
    requires
        is_longest_tail(ls, k),
        j <= k,
    ensures
        tail_count(ls, j) == k,
    decreases k - j,
{
    if j < k {
        lemma_tail_bytes(ls, k);
        lemma_tail_is_monotone(ls, j + 1, k);
        lemma_longest_tail(ls, j + 1, k);
    } else if k < ls.len() {
        lemma_tail_bytes(ls, k + 1);
    }
}

/// Cut at its start, a longer text keeps as many of its last lines as can be
/// shown. The note before them says which these are of how many, and how long
/// the whole text is.
pub proof fn law_long_texts_keep_their_last_lines(input: Seq<char>, k: nat)
    requires
        lines(input).len() > 2000 || byte_len(input) > 51200,
        is_longest_tail(lines(input), k),
    ensures
        tail_truncated(input).was_truncated,
        tail_truncated(input).total_lines == lines(input).len(),
        tail_truncated(input).total_bytes == byte_len(input),
        tail_truncated(input).content == "[Showing lines "@ + decimal(
            (lines(input).len() - k + 1) as nat,
        ) + "-"@ + decimal(lines(input).len()) + " of "@ + decimal(lines(input).len()) + " ("@
            + decimal(byte_len(input)) + " bytes total)]\n\n"@ + unlines(
            lines(input).skip(lines(input).len() - k),
        ),
{
    lemma_longest_tail(lines(input), 0, k);
}

/// A line of at most `max` bytes stays as it is; of a longer one the characters
/// up to the first that no longer fits are left, with a mark behind them.
pub proof fn law_long_lines_are_cut_and_marked(kept: Seq<char>, rest: Seq<char>, max: int)
    requires
        byte_len(kept) <= max,
        rest.len() > 0 ==> byte_len(kept) + char_width(rest[0]) > max,
    ensures
        line_truncated(kept + rest, max) == if rest.len() == 0 {
            kept
        } else {
            kept + "... [truncated]"@
        },
{
    let line = kept + rest;
    lemma_byte_len_add(kept, rest);
    if rest.len() == 0 {
        assert(line =~= kept);
    } else {
        lemma_byte_len_add(seq![rest[0]], rest.drop_first());
        lemma_byte_len_one(rest[0]);
        assert(seq![rest[0]] + rest.drop_first() =~= rest);
        lemma_chars_within(kept, rest, max);
        assert(line.take(kept.len() as int) =~= kept);
    }
}

proof fn lemma_chars_within(kept: Seq<char>, rest: Seq<char>, max: int)
    requires
        rest.len() > 0,
        byte_len(kept) <= max,
        byte_len(kept) + char_width(rest[0]) > max,
    ensures
        chars_within(kept + rest, max) == kept.len(),
    decreases kept.len(),
{
    let line = kept + rest;
    if kept.len() == 0 {
        assert(line =~= rest);
        assert(byte_len(kept) == 0);
    } else {
        let tail = kept.drop_first();
        assert(seq![kept[0]] + tail =~= kept);
        lemma_byte_len_add(seq![kept[0]], tail);
        lemma_byte_len_one(kept[0]);
        assert(line[0] == kept[0]);
        assert(line.drop_first() =~= tail + rest);
        lemma_chars_within(tail, rest, max - char_width(kept[0]));
    }
}

} // verus!
