//! The `edit` and `write` tools: targeted replacements in a file, and
//! overwriting one.

use crate::cbor::{
    argument_array, argument_text, cbor_map_int, cbor_map_text, entry_models, first_array,
    first_integer, first_text, lemma_table_model, make_text_entry, models, text_entry,
    CborInteger, CborModel, CborValue,
};
use crate::path::{parent, parent_of};
use crate::text::{
    byte_len, decimal, extend_chars, from_chars, join, matches_at, occurs_at, push_decimal, str_len,
    to_chars,
};
use vstd::prelude::*;

verus! {

// ---------------------------------------------------------------------------
// Finding
// ---------------------------------------------------------------------------

/// The first position from `from` on at which `p` stands in `s`.
pub open spec fn next_match(s: Seq<char>, p: Seq<char>, from: int) -> Option<int>
    decreases s.len() + 1 - from,
{
    if from < 0 || from + p.len() > s.len() {
        None
    } else if occurs_at(s, p, from) {
        Some(from)
    } else {
        next_match(s, p, from + 1)
    }
}

/// The positions at which `p` stands in `s`, from `from` on and from left to
/// right, none of them overlapping the one before.
pub open spec fn match_positions(s: Seq<char>, p: Seq<char>, from: int) -> Seq<int>
    decreases s.len() - from,
    via match_positions_decreases
{
    if p.len() == 0 {
        Seq::empty()
    } else {
        match next_match(s, p, from) {
            Some(k) => seq![k] + match_positions(s, p, k + p.len()),
            None => Seq::empty(),
        }
    }
}

#[via_fn]
proof fn match_positions_decreases(s: Seq<char>, p: Seq<char>, from: int) {
    lemma_next_match(s, p, from);
}

proof fn lemma_next_match(s: Seq<char>, p: Seq<char>, from: int)
    ensures
        next_match(s, p, from) matches Some(k) ==> from <= k && 0 <= k && k + p.len() <= s.len()
            && occurs_at(s, p, k),
    decreases s.len() + 1 - from,
{
    if !(from < 0 || from + p.len() > s.len()) && !occurs_at(s, p, from) {
        lemma_next_match(s, p, from + 1);
    }
}

// ---------------------------------------------------------------------------
// Replacements
// ---------------------------------------------------------------------------

/// Replace what stands from `start` up to `end` by `text`.
#[verifier::ext_equal]
pub struct Replacement {
    pub start: int,
    pub end: int,
    pub text: Seq<char>,
}

/// The replacements of one edit.
pub open spec fn replacements_at(positions: Seq<int>, len: nat, text: Seq<char>) -> Seq<
    Replacement,
> {
    Seq::new(
        positions.len(),
        |i: int| Replacement { start: positions[i], end: positions[i] + len, text },
    )
}

/// `sorted` with `x` put behind everything that does not start after it.
pub open spec fn insert_by_start(sorted: Seq<Replacement>, x: Replacement) -> Seq<Replacement>
    decreases sorted.len(),
{
    if sorted.len() == 0 || sorted.last().start <= x.start {
        sorted.push(x)
    } else {
        insert_by_start(sorted.drop_last(), x).push(sorted.last())
    }
}

/// The replacements in the order of their starts.
pub open spec fn by_start(all: Seq<Replacement>) -> Seq<Replacement>
    decreases all.len(),
{
    if all.len() == 0 {
        Seq::empty()
    } else {
        insert_by_start(by_start(all.drop_last()), all.last())
    }
}

/// Whether two of the replacements touch the same character.
pub open spec fn overlapping(all: Seq<Replacement>) -> bool {
    exists|i: int, j: int|
        0 <= i < j < all.len() && (#[trigger] all[i]).start < (#[trigger] all[j]).end
            && all[j].start < all[i].end
}

/// The text with the replacements made, given in the order of their starts: up
/// to the last one as the others make it, then the new text, then the rest.
pub open spec fn spliced(s: Seq<char>, sorted: Seq<Replacement>) -> Seq<char>
    decreases sorted.len(),
{
    if sorted.len() == 0 {
        s
    } else {
        let r = sorted.last();
        spliced(s.take(r.start), sorted.drop_last()) + r.text + s.skip(r.end)
    }
}

// ---------------------------------------------------------------------------
// Edits
// ---------------------------------------------------------------------------

/// What one edit asks for: the old text, the new text, and how often the old
/// one stands in the file.
pub struct EditModel {
    pub old_text: Seq<char>,
    pub new_text: Seq<char>,
    pub expected: int,
}

/// One edit, or why it is none.
pub open spec fn edit_of(edit: CborModel) -> Result<EditModel, Seq<char>> {
    match first_text(edit.entries(), "oldText"@) {
        None => Err("each edit must have a string oldText"@),
        Some(old_text) => match first_text(edit.entries(), "newText"@) {
            None => Err("each edit must have a string newText"@),
            Some(new_text) => match first_integer(
                edit.entries(),
                "expected_matches"@,
                i64::MIN as int,
                i64::MAX as int,
            ) {
                Some(n) if n < 0 => Err("expected_matches must not be negative"@),
                Some(n) if n > usize::MAX => Err("expected_matches is too large"@),
                Some(n) => if old_text.len() == 0 {
                    Err("oldText must not be empty"@)
                } else {
                    Ok(EditModel { old_text, new_text, expected: n })
                },
                None => if old_text.len() == 0 {
                    Err("oldText must not be empty"@)
                } else {
                    Ok(EditModel { old_text, new_text, expected: 1 })
                },
            },
        },
    }
}

/// The replacements of one edit in a text, or why it cannot be made.
pub open spec fn edit_replacements(original: Seq<char>, edit: CborModel) -> Result<
    Seq<Replacement>,
    Seq<char>,
> {
    match edit_of(edit) {
        Err(e) => Err(e),
        Ok(m) => {
            let positions = match_positions(original, m.old_text, 0);
            if positions.len() != m.expected {
                Err(
                    "matches: expected "@ + decimal(m.expected as nat) + ", found "@ + decimal(
                        positions.len(),
                    ),
                )
            } else {
                Ok(replacements_at(positions, m.old_text.len(), m.new_text))
            }
        },
    }
}

/// The replacements of the first `n` edits, or why one cannot be made; the
/// first such edit counts.
pub open spec fn all_replacements(original: Seq<char>, edits: Seq<CborModel>, n: nat) -> Result<
    Seq<Replacement>,
    Seq<char>,
>
    decreases n,
{
    if n == 0 {
        Ok(Seq::empty())
    } else {
        match all_replacements(original, edits, (n - 1) as nat) {
            Err(e) => Err(e),
            Ok(before) => match edit_replacements(original, edits[n - 1]) {
                Err(e) => Err(e),
                Ok(more) => Ok(before + more),
            },
        }
    }
}

/// The new text and the number of replacements, or why the edits cannot be
/// made.
pub open spec fn edited(original: Seq<char>, edits: Seq<CborModel>) -> Result<
    (Seq<char>, nat),
    Seq<char>,
> {
    if edits.len() == 0 {
        Err("edits array must not be empty"@)
    } else {
        match all_replacements(original, edits, edits.len()) {
            Err(e) => Err(e),
            Ok(all) => if overlapping(all) {
                Err("overlapping edits"@)
            } else {
                Ok((spliced(original, by_start(all)), all.len()))
            },
        }
    }
}

/// What the edit tool has to write.
#[verifier::ext_equal]
pub struct EditPlanModel {
    pub path: Seq<char>,
    pub content: Seq<char>,
    pub edits_applied: nat,
}

/// What the edit tool has to write, or why it cannot. `original` is the content
/// of the file, or why it cannot be read.
pub open spec fn edit_plan(arguments: CborModel, original: Result<Seq<char>, Seq<char>>) -> Result<
    EditPlanModel,
    Seq<char>,
> {
    match first_text(arguments.entries(), "path"@) {
        None => Err("missing string argument: "@ + "path"@),
        Some(path) => match original {
            Err(e) => Err(e),
            Ok(text) => match first_array(arguments.entries(), "edits"@) {
                None => Err("missing array argument: "@ + "edits"@),
                Some(edits) => match edited(text, edits) {
                    Err(e) => Err(e),
                    Ok((content, n)) => Ok(EditPlanModel { path, content, edits_applied: n }),
                },
            },
        },
    }
}

// ---------------------------------------------------------------------------
// Making edits
// ---------------------------------------------------------------------------

/// A replacement in a vector of characters.
pub struct Splice {
    start: usize,
    end: usize,
    text: Vec<char>,
}

impl View for Splice {
    type V = Replacement;

    closed spec fn view(&self) -> Replacement {
        Replacement { start: self.start as int, end: self.end as int, text: self.text@ }
    }
}

/// What the splices of a list do.
pub open spec fn splice_views(v: Seq<Splice>) -> Seq<Replacement> {
    Seq::new(v.len(), |i: int| v[i]@)
}

/// The positions as numbers.
pub open spec fn position_views(v: Seq<usize>) -> Seq<int> {
    Seq::new(v.len(), |i: int| v[i] as int)
}

/// The positions at which `p` stands in `s`.
pub fn find_matches(s: &[char], p: &[char]) -> (out: Vec<usize>)
    requires
        p@.len() > 0,
    ensures
        position_views(out@) == match_positions(s@, p@, 0),
        forall|i: int| 0 <= i < out@.len() ==> (#[trigger] out@[i]) + p@.len() <= s@.len(),
{
    let mut out: Vec<usize> = Vec::new();
    let mut pos: usize = 0;
    let ghost goal = match_positions(s@, p@, 0);
    proof {
        assert(position_views(out@) + match_positions(s@, p@, 0) =~= goal);
    }
    while pos <= s.len() && p.len() <= s.len() - pos
        invariant
            p@.len() > 0,
            goal == match_positions(s@, p@, 0),
            pos <= s@.len(),
            position_views(out@) + match_positions(s@, p@, pos as int) == goal,
            forall|i: int| 0 <= i < out@.len() ==> (#[trigger] out@[i]) + p@.len() <= s@.len(),
        decreases s@.len() - pos,
    {
        if matches_at(s, p, pos) {
            let ghost before = out@;
            out.push(pos);
            proof {
                assert(next_match(s@, p@, pos as int) == Some(pos as int));
                let rest = match_positions(s@, p@, pos + p@.len());
                assert(position_views(out@) =~= position_views(before) + seq![pos as int]);
                assert(position_views(out@) + rest =~= position_views(before) + (seq![pos as int]
                    + rest));
            }
            pos = pos + p.len();
        } else {
            proof {
                assert(next_match(s@, p@, pos as int) == next_match(s@, p@, pos + 1));
            }
            pos = pos + 1;
        }
    }
    proof {
        assert(next_match(s@, p@, pos as int) is None);
        assert(match_positions(s@, p@, pos as int) =~= Seq::<int>::empty());
        assert(position_views(out@) =~= goal);
    }
    out
}

/// The characters as a new vector.
fn copy_chars(s: &[char]) -> (v: Vec<char>)
    ensures
        v@ == s@,
{
    let mut v: Vec<char> = Vec::new();
    extend_chars(&mut v, s);
    proof {
        assert(v@ =~= s@);
    }
    v
}

fn mismatch_message(expected: usize, found: usize) -> (s: String)
    ensures
        s@ == "matches: expected "@ + decimal(expected as nat) + ", found "@ + decimal(
            found as nat,
        ),
{
    let mut s = "matches: expected ".to_owned();
    push_decimal(&mut s, expected as u128);
    s.append(", found ");
    push_decimal(&mut s, found as u128);
    s
}

/// Appends the replacements of one edit; the error says why it cannot be made.
fn push_edit(splices: &mut Vec<Splice>, original: &[char], edit: &CborValue) -> (e: Option<String>)
    requires
        forall|i: int|
            0 <= i < old(splices)@.len() ==> 0 <= (#[trigger] old(splices)@[i])@.start
                < old(splices)@[i]@.end <= original@.len(),
    ensures
        match e {
            None => edit_replacements(original@, edit.model()) matches Ok(more)
                && splice_views(final(splices)@) == splice_views(old(splices)@) + more,
            Some(e) => edit_replacements(original@, edit.model()) == Err::<
                Seq<Replacement>,
                Seq<char>,
            >(e@),
        },
        forall|i: int|
            0 <= i < final(splices)@.len() ==> 0 <= (#[trigger] final(splices)@[i])@.start
                < final(splices)@[i]@.end <= original@.len(),
{
    let old_text = match cbor_map_text(edit, "oldText") {
        Some(t) => to_chars(t),
        None => {
            return Some("each edit must have a string oldText".to_owned());
        },
    };
    let new_text = match cbor_map_text(edit, "newText") {
        Some(t) => to_chars(t),
        None => {
            return Some("each edit must have a string newText".to_owned());
        },
    };
    let expected: usize = match cbor_map_int(edit, "expected_matches") {
        Some(n) => {
            if n < 0 {
                return Some("expected_matches must not be negative".to_owned());
            }
            if n as u64 > usize::MAX as u64 {
                return Some("expected_matches is too large".to_owned());
            }
            n as usize
        },
        None => 1,
    };
    if old_text.len() == 0 {
        return Some("oldText must not be empty".to_owned());
    }
    let positions = find_matches(original, &old_text);
    if positions.len() != expected {
        proof {
            assert(position_views(positions@).len() == positions@.len());
        }
        return Some(mismatch_message(expected, positions.len()));
    }
    let ghost start = splice_views(splices@);
    let ghost more = replacements_at(position_views(positions@), old_text@.len(), new_text@);
    let mut i: usize = 0;
    proof {
        assert(start + more.take(0) =~= start);
    }
    while i < positions.len()
        invariant
            i <= positions@.len(),
            more == replacements_at(position_views(positions@), old_text@.len(), new_text@),
            splice_views(splices@) == start + more.take(i as int),
            old_text@.len() > 0,
            forall|j: int|
                0 <= j < positions@.len() ==> (#[trigger] positions@[j]) + old_text@.len()
                    <= original@.len(),
            forall|j: int|
                0 <= j < splices@.len() ==> 0 <= (#[trigger] splices@[j])@.start < splices@[j]@.end
                    <= original@.len(),
        decreases positions@.len() - i,
    {
        let ghost before = splices@;
        let at: usize = positions[i];
        proof {
            assert(positions@[i as int] + old_text@.len() <= original@.len());
            assert(original.len() <= usize::MAX);
        }
        let splice = Splice {
            start: at,
            end: at + old_text.len(),
            text: copy_chars(new_text.as_slice()),
        };
        splices.push(splice);
        proof {
            assert(splice@ == more[i as int]);
            assert(splice_views(splices@) =~= splice_views(before).push(splice@));
            assert(splice_views(splices@) =~= start + more.take(i + 1));
            assert forall|j: int| 0 <= j < splices@.len() implies 0 <= (
            #[trigger] splices@[j])@.start < splices@[j]@.end <= original@.len() by {
                if j < before.len() {
                    assert(splices@[j] == before[j]);
                }
            }
        }
        i = i + 1;
    }
    proof {
        assert(more.take(i as int) =~= more);
    }
    None
}

proof fn lemma_insert_by_start_at(sorted: Seq<Replacement>, x: Replacement, k: int)
    requires
        0 <= k <= sorted.len(),
        forall|j: int| k <= j < sorted.len() ==> (#[trigger] sorted[j]).start > x.start,
        k > 0 ==> sorted[k - 1].start <= x.start,
    ensures
        insert_by_start(sorted, x) == sorted.insert(k, x),
    decreases sorted.len(),
{
    if k < sorted.len() {
        let front = sorted.drop_last();
        assert(sorted[sorted.len() - 1].start > x.start);
        assert forall|j: int| k <= j < front.len() implies (#[trigger] front[j]).start
            > x.start by {
            assert(front[j] == sorted[j]);
        }
        lemma_insert_by_start_at(front, x, k);
        assert(front.insert(k, x).push(sorted.last()) =~= sorted.insert(k, x));
    } else {
        assert(sorted.insert(k, x) =~= sorted.push(x));
    }
}

/// Sorts the replacements by their starts.
fn sort_splices(splices: Vec<Splice>) -> (out: Vec<Splice>)
    ensures
        splice_views(out@) == by_start(splice_views(splices@)),
{
    let ghost all = splice_views(splices@);
    let mut left = splices;
    let mut out: Vec<Splice> = Vec::new();
    let count = left.len();
    let mut done: usize = 0;
    proof {
        assert(all.take(0) =~= Seq::<Replacement>::empty());
        assert(splice_views(out@) =~= Seq::<Replacement>::empty());
        assert(all.skip(0) =~= all);
    }
    while done < count
        invariant
            done <= count,
            count == all.len(),
            splice_views(left@) == all.skip(done as int),
            left@.len() == count - done,
            splice_views(out@) == by_start(all.take(done as int)),
        decreases count - done,
    {
        let ghost rest = left@;
        let x = left.remove(0);
        proof {
            assert(splice_views(rest)[0] == x@);
            assert(all.skip(done as int)[0] == all[done as int]);
            assert(splice_views(left@) =~= all.skip(done + 1)) by {
                assert(splice_views(rest).skip(1) =~= splice_views(left@));
                assert(all.skip(done as int).skip(1) =~= all.skip(done + 1));
            }
            assert(all.take(done + 1).drop_last() =~= all.take(done as int));
            assert(all.take(done + 1).last() == x@);
        }
        let mut k: usize = out.len();
        let ghost sorted = splice_views(out@);
        while k > 0 && out[k - 1].start > x.start
            invariant
                k <= out@.len(),
                sorted == splice_views(out@),
                forall|j: int| k <= j < sorted.len() ==> (#[trigger] sorted[j]).start > x@.start,
            decreases k,
        {
            k = k - 1;
            proof {
                assert(sorted[k as int] == out@[k as int]@);
            }
        }
        proof {
            if k > 0 {
                assert(sorted[k - 1] == out@[k - 1]@);
            }
            lemma_insert_by_start_at(sorted, x@, k as int);
        }
        out.insert(k, x);
        proof {
            assert(splice_views(out@) =~= sorted.insert(k as int, x@));
        }
        done = done + 1;
    }
    proof {
        assert(all.take(done as int) =~= all);
    }
    out
}

/// Whether the starts do not decrease.
pub open spec fn starts_ordered(s: Seq<Replacement>) -> bool {
    forall|i: int, j: int|
        0 <= i < j < s.len() ==> (#[trigger] s[i]).start <= (#[trigger] s[j]).start
}

/// Whether every replacement ends before the next one starts.
pub open spec fn chained(s: Seq<Replacement>) -> bool {
    forall|i: int, j: int|
        0 <= i < j < s.len() ==> (#[trigger] s[i]).end <= (#[trigger] s[j]).start
}

/// Whether every replacement takes away at least one character of a text of the
/// given length.
pub open spec fn proper(s: Seq<Replacement>, len: int) -> bool {
    forall|i: int|
        0 <= i < s.len() ==> 0 <= (#[trigger] s[i]).start < s[i].end <= len
}

proof fn lemma_insert_by_start(sorted: Seq<Replacement>, x: Replacement)
    requires
        starts_ordered(sorted),
    ensures
        starts_ordered(insert_by_start(sorted, x)),
        insert_by_start(sorted, x).to_multiset() == sorted.to_multiset().insert(x),
        insert_by_start(sorted, x).len() == sorted.len() + 1,
    decreases sorted.len(),
{
    broadcast use vstd::seq_lib::group_to_multiset_ensures;

    let out = insert_by_start(sorted, x);
    if sorted.len() == 0 || sorted.last().start <= x.start {
        assert forall|i: int, j: int| 0 <= i < j < out.len() implies (#[trigger] out[i]).start <= (
        #[trigger] out[j]).start by {
            if j == sorted.len() && i < sorted.len() - 1 {
                assert(sorted[i].start <= sorted[sorted.len() - 1].start);
            }
        }
    } else {
        let front = sorted.drop_last();
        let last = sorted.last();
        assert(starts_ordered(front)) by {
            assert forall|i: int, j: int| 0 <= i < j < front.len() implies (
            #[trigger] front[i]).start <= (#[trigger] front[j]).start by {
                assert(front[i] == sorted[i]);
                assert(front[j] == sorted[j]);
            }
        }
        lemma_insert_by_start(front, x);
        let inner = insert_by_start(front, x);
        assert(sorted =~= front.push(last));
        assert(front.to_multiset().insert(x).insert(last) =~= front.to_multiset().insert(
            last,
        ).insert(x));
        lemma_starts_below(front, x, last.start);
        assert forall|i: int, j: int| 0 <= i < j < out.len() implies (#[trigger] out[i]).start <= (
        #[trigger] out[j]).start by {
            assert(out[i] == inner[i]);
            if j < inner.len() {
                assert(out[j] == inner[j]);
            }
        }
    }
}

proof fn lemma_starts_below(sorted: Seq<Replacement>, x: Replacement, high: int)
    requires
        x.start <= high,
        forall|i: int| 0 <= i < sorted.len() ==> (#[trigger] sorted[i]).start <= high,
    ensures
        forall|i: int|
            0 <= i < insert_by_start(sorted, x).len() ==> (#[trigger] insert_by_start(
                sorted,
                x,
            )[i]).start <= high,
    decreases sorted.len(),
{
    if !(sorted.len() == 0 || sorted.last().start <= x.start) {
        let front = sorted.drop_last();
        assert forall|i: int| 0 <= i < front.len() implies (#[trigger] front[i]).start <= high by {
            assert(front[i] == sorted[i]);
        }
        lemma_starts_below(front, x, high);
        let inner = insert_by_start(front, x);
        assert forall|i: int| 0 <= i < insert_by_start(sorted, x).len() implies (
        #[trigger] insert_by_start(sorted, x)[i]).start <= high by {
            if i < inner.len() {
                assert(insert_by_start(sorted, x)[i] == inner[i]);
            } else {
                assert(sorted[sorted.len() - 1].start <= high);
            }
        }
    } else {
        assert forall|i: int| 0 <= i < insert_by_start(sorted, x).len() implies (
        #[trigger] insert_by_start(sorted, x)[i]).start <= high by {
            if i < sorted.len() {
                assert(insert_by_start(sorted, x)[i] == sorted[i]);
            }
        }
    }
}

/// Sorting neither loses nor adds a replacement.
pub proof fn lemma_by_start(all: Seq<Replacement>)
    ensures
        starts_ordered(by_start(all)),
        by_start(all).to_multiset() == all.to_multiset(),
        by_start(all).len() == all.len(),
    decreases all.len(),
{
    broadcast use vstd::seq_lib::group_to_multiset_ensures;

    if all.len() > 0 {
        let front = all.drop_last();
        lemma_by_start(front);
        lemma_insert_by_start(by_start(front), all.last());
        assert(all =~= front.push(all.last()));
    }
}

/// A property of all members carries over to a sequence with the same members.
proof fn lemma_same_members(a: Seq<Replacement>, b: Seq<Replacement>, len: int)
    requires
        a.to_multiset() == b.to_multiset(),
        proper(a, len),
    ensures
        proper(b, len),
{
    broadcast use vstd::seq_lib::group_to_multiset_ensures;

    assert forall|i: int| 0 <= i < b.len() implies 0 <= (#[trigger] b[i]).start < b[i].end
        <= len by {
        assert(b.contains(b[i]));
        assert(b.to_multiset().count(b[i]) > 0);
        assert(a.contains(b[i]));
        let k = choose|k: int| 0 <= k < a.len() && a[k] == b[i];
        assert(a[k].start < a[k].end);
    }
}

/// Replacements of which none overlap are chained once they are sorted, and the
/// other way round.
proof fn lemma_overlap_sorted(all: Seq<Replacement>, len: int)
    requires
        proper(all, len),
    ensures
        overlapping(all) == !chained(by_start(all)),
    decreases all.len(),
{
    if all.len() == 0 {
        assert(!overlapping(all));
    } else {
        let front = all.drop_last();
        let x = all.last();
        assert(proper(front, len)) by {
            assert forall|i: int| 0 <= i < front.len() implies 0 <= (#[trigger] front[i]).start
                < front[i].end <= len by {
                assert(front[i] == all[i]);
            }
        }
        lemma_overlap_sorted(front, len);
        lemma_by_start(front);
        let sorted = by_start(front);
        lemma_same_members(front, sorted, len);
        assert(x == all[all.len() - 1]);
        lemma_overlap_insert(sorted, x, len);
        // Whether the last one meets one of the others does not depend on order.
        assert(meets(front, x) == meets(sorted, x)) by {
            lemma_meets_members(front, sorted, x);
            lemma_meets_members(sorted, front, x);
        }
        lemma_overlap_push(front, x);
        assert(front.push(x) =~= all);
    }
}

/// Whether `x` touches a character of one of the replacements.
spec fn meets(s: Seq<Replacement>, x: Replacement) -> bool {
    exists|i: int|
        0 <= i < s.len() && (#[trigger] s[i]).start < x.end && x.start < s[i].end
}

proof fn lemma_meets_members(a: Seq<Replacement>, b: Seq<Replacement>, x: Replacement)
    requires
        a.to_multiset() == b.to_multiset(),
    ensures
        meets(a, x) ==> meets(b, x),
{
    broadcast use vstd::seq_lib::group_to_multiset_ensures;

    if meets(a, x) {
        let i = choose|i: int|
            0 <= i < a.len() && (#[trigger] a[i]).start < x.end && x.start < a[i].end;
        assert(a.contains(a[i]));
        assert(a.to_multiset().count(a[i]) > 0);
        assert(b.contains(a[i]));
        let k = choose|k: int| 0 <= k < b.len() && b[k] == a[i];
        assert(b[k].start < x.end && x.start < b[k].end);
    }
}

proof fn lemma_overlap_push(front: Seq<Replacement>, x: Replacement)
    ensures
        overlapping(front.push(x)) == (overlapping(front) || meets(front, x)),
{
    let all = front.push(x);
    if overlapping(front) {
        let (i, j) = choose|i: int, j: int|
            0 <= i < j < front.len() && (#[trigger] front[i]).start < (#[trigger] front[j]).end
                && front[j].start < front[i].end;
        assert(all[i] == front[i] && all[j] == front[j]);
    }
    if meets(front, x) {
        let i = choose|i: int|
            0 <= i < front.len() && (#[trigger] front[i]).start < x.end && x.start < front[i].end;
        assert(all[i] == front[i]);
        assert(all[front.len() as int] == x);
    }
    if overlapping(all) {
        let (i, j) = choose|i: int, j: int|
            0 <= i < j < all.len() && (#[trigger] all[i]).start < (#[trigger] all[j]).end
                && all[j].start < all[i].end;
        assert(all[i] == front[i]);
        if j < front.len() {
            assert(all[j] == front[j]);
            assert(front[i].start < front[j].end && front[j].start < front[i].end);
        } else {
            assert(front[i].start < x.end && x.start < front[i].end);
        }
    }
}

/// Inserting keeps a sorted sequence chained exactly when the new one meets
/// none of the others.
proof fn lemma_overlap_insert(sorted: Seq<Replacement>, x: Replacement, len: int)
    requires
        starts_ordered(sorted),
        proper(sorted, len),
        0 <= x.start < x.end <= len,
    ensures
        chained(insert_by_start(sorted, x)) == (chained(sorted) && !meets(sorted, x)),
{
    let k = insertion_point(sorted, x);
    lemma_insertion_point(sorted, x);
    lemma_insert_by_start_at(sorted, x, k);
    let out = sorted.insert(k, x);
    if chained(out) {
        assert forall|i: int, j: int| 0 <= i < j < sorted.len() implies (
        #[trigger] sorted[i]).end <= (#[trigger] sorted[j]).start by {
            let a = if i < k {
                i
            } else {
                i + 1
            };
            let b = if j < k {
                j
            } else {
                j + 1
            };
            assert(out[a] == sorted[i]);
            assert(out[b] == sorted[j]);
        }
        if meets(sorted, x) {
            let i = choose|i: int|
                0 <= i < sorted.len() && (#[trigger] sorted[i]).start < x.end && x.start
                    < sorted[i].end;
            assert(out[k] == x);
            if i < k {
                assert(out[i] == sorted[i]);
            } else {
                assert(out[i + 1] == sorted[i]);
            }
            assert(false);
        }
    }
    if chained(sorted) && !meets(sorted, x) {
        assert forall|i: int, j: int| 0 <= i < j < out.len() implies (#[trigger] out[i]).end <= (
        #[trigger] out[j]).start by {
            if i == k {
                let m = j - 1;
                assert(out[j] == sorted[m]);
                assert(sorted[m].start > x.start);
                assert(!(sorted[m].start < x.end && x.start < sorted[m].end));
            } else if j == k {
                assert(out[i] == sorted[i]);
                assert(sorted[i].start <= x.start);
                assert(!(sorted[i].start < x.end && x.start < sorted[i].end));
            } else {
                let a = if i < k {
                    i
                } else {
                    i - 1
                };
                let b = if j < k {
                    j
                } else {
                    j - 1
                };
                assert(out[i] == sorted[a]);
                assert(out[j] == sorted[b]);
            }
        }
    }
}

/// Where `x` goes in a sorted sequence.
spec fn insertion_point(sorted: Seq<Replacement>, x: Replacement) -> int
    decreases sorted.len(),
{
    if sorted.len() == 0 || sorted.last().start <= x.start {
        sorted.len() as int
    } else {
        insertion_point(sorted.drop_last(), x)
    }
}

proof fn lemma_insertion_point(sorted: Seq<Replacement>, x: Replacement)
    requires
        starts_ordered(sorted),
    ensures
        0 <= insertion_point(sorted, x) <= sorted.len(),
        forall|j: int|
            insertion_point(sorted, x) <= j < sorted.len() ==> (#[trigger] sorted[j]).start
                > x.start,
        forall|j: int|
            0 <= j < insertion_point(sorted, x) ==> (#[trigger] sorted[j]).start <= x.start,
    decreases sorted.len(),
{
    if sorted.len() == 0 || sorted.last().start <= x.start {
        assert forall|j: int| 0 <= j < sorted.len() implies (#[trigger] sorted[j]).start
            <= x.start by {
            if j < sorted.len() - 1 {
                assert(sorted[j].start <= sorted[sorted.len() - 1].start);
            }
        }
    } else {
        let front = sorted.drop_last();
        assert(starts_ordered(front)) by {
            assert forall|i: int, j: int| 0 <= i < j < front.len() implies (
            #[trigger] front[i]).start <= (#[trigger] front[j]).start by {
                assert(front[i] == sorted[i]);
                assert(front[j] == sorted[j]);
            }
        }
        lemma_insertion_point(front, x);
        let k = insertion_point(front, x);
        assert forall|j: int| k <= j < sorted.len() implies (#[trigger] sorted[j]).start
            > x.start by {
            if j < front.len() {
                assert(sorted[j] == front[j]);
            }
        }
        assert forall|j: int| 0 <= j < k implies (#[trigger] sorted[j]).start <= x.start by {
            assert(sorted[j] == front[j]);
        }
    }
}

/// Whether every one of the sorted replacements ends before the next one starts.
fn is_chained(splices: &[Splice]) -> (r: bool)
    requires
        starts_ordered(splice_views(splices@)),
    ensures
        r == chained(splice_views(splices@)),
{
    let ghost all = splice_views(splices@);
    let mut i: usize = 1;
    while i < splices.len()
        invariant
            1 <= i,
            all == splice_views(splices@),
            starts_ordered(all),
            forall|a: int, b: int|
                0 <= a < b < i && b < all.len() ==> (#[trigger] all[a]).end <= (
                #[trigger] all[b]).start,
        decreases splices@.len() - i,
    {
        proof {
            assert(all[i as int] == splices@[i as int]@);
            assert(all[i - 1] == splices@[i - 1]@);
        }
        if splices[i - 1].end > splices[i].start {
            return false;
        }
        proof {
            assert forall|a: int, b: int| 0 <= a < b < i + 1 && b < all.len() implies (
            #[trigger] all[a]).end <= (#[trigger] all[b]).start by {
                if b == i && a < i - 1 {
                    assert(all[a].end <= all[i - 1].start);
                    assert(all[i - 1].start <= all[i as int].start);
                }
            }
        }
        i = i + 1;
    }
    true
}

proof fn lemma_spliced_forward(
    s: Seq<char>,
    sorted: Seq<Replacement>,
    n: nat,
)
    requires
        0 < n <= sorted.len(),
        chained(sorted),
        proper(sorted, s.len() as int),
    ensures
        spliced(s.take(sorted[n - 1].start), sorted.take(n - 1)) == if n == 1 {
            s.take(sorted[0].start)
        } else {
            spliced(s.take(sorted[n - 2].start), sorted.take(n - 2)) + sorted[n - 2].text
                + s.subrange(sorted[n - 2].end, sorted[n - 1].start)
        },
{
    let upto = s.take(sorted[n - 1].start);
    let front = sorted.take(n - 1);
    if n > 1 {
        let r = sorted[n - 2];
        assert(front.last() == r);
        assert(front.drop_last() =~= sorted.take(n - 2));
        assert(r.end <= sorted[n - 1].start);
        assert(upto.take(r.start) =~= s.take(r.start));
        assert(upto.skip(r.end) =~= s.subrange(r.end, sorted[n - 1].start));
    }
}

/// Makes the sorted replacements.
fn splice_all(s: &[char], splices: &[Splice]) -> (out: Vec<char>)
    requires
        chained(splice_views(splices@)),
        proper(splice_views(splices@), s@.len() as int),
    ensures
        out@ == spliced(s@, splice_views(splices@)),
{
    let ghost sorted = splice_views(splices@);
    let mut out: Vec<char> = Vec::new();
    let mut pos: usize = 0;
    let mut i: usize = 0;
    while i < splices.len()
        invariant
            i <= splices@.len(),
            sorted == splice_views(splices@),
            chained(sorted),
            proper(sorted, s@.len() as int),
            i == 0 ==> pos == 0 && out@.len() == 0,
            i > 0 ==> pos == sorted[i - 1].end && out@ == spliced(
                s@.take(sorted[i - 1].start),
                sorted.take(i - 1),
            ) + sorted[i - 1].text,
        decreases splices@.len() - i,
    {
        let ghost before = out@;
        proof {
            assert(sorted[i as int] == splices@[i as int]@);
            assert(0 <= sorted[i as int].start < sorted[i as int].end <= s@.len());
            if i > 0 {
                assert(sorted[i - 1].end <= sorted[i as int].start);
            }
            lemma_spliced_forward(s@, sorted, (i + 1) as nat);
        }
        extend_chars(&mut out, vstd::slice::slice_subrange(s, pos, splices[i].start));
        proof {
            if i == 0 {
                assert(out@ =~= s@.take(sorted[0].start));
            }
        }
        extend_chars(&mut out, splices[i].text.as_slice());
        pos = splices[i].end;
        i = i + 1;
    }
    let ghost before = out@;
    proof {
        if i > 0 {
            assert(0 <= sorted[i - 1].start < sorted[i - 1].end <= s@.len());
        }
    }
    extend_chars(&mut out, vstd::slice::slice_subrange(s, pos, s.len()));
    proof {
        if i == 0 {
            assert(out@ =~= s@);
            assert(sorted.len() == 0);
        } else {
            let r = sorted[i - 1];
            assert(sorted.last() == r);
            assert(sorted.drop_last() =~= sorted.take(i - 1));
            assert(out@ =~= before + s@.skip(r.end));
        }
    }
    out
}

/// What the edit tool has to write.
#[derive(Debug)]
pub struct EditPlan {
    pub path: String,
    pub content: String,
    pub edits_applied: usize,
}

impl View for EditPlan {
    type V = EditPlanModel;

    open spec fn view(&self) -> EditPlanModel {
        EditPlanModel {
            path: self.path@,
            content: self.content@,
            edits_applied: self.edits_applied as nat,
        }
    }
}

/// The texts of an outcome.
pub open spec fn text_view(r: Result<String, String>) -> Result<Seq<char>, Seq<char>> {
    match r {
        Ok(s) => Ok(s@),
        Err(e) => Err(e@),
    }
}

/// Applies the edits to a text.
pub fn apply_edits(original: &str, edits: &[CborValue]) -> (r: Result<(String, usize), String>)
    ensures
        match r {
            Ok((content, n)) => edited(original@, models(edits@)) == Ok::<
                (Seq<char>, nat),
                Seq<char>,
            >((content@, n as nat)),
            Err(e) => edited(original@, models(edits@)) == Err::<(Seq<char>, nat), Seq<char>>(e@),
        },
{
    if edits.len() == 0 {
        return Err("edits array must not be empty".to_owned());
    }
    let chars = to_chars(original);
    let mut splices: Vec<Splice> = Vec::new();
    let mut i: usize = 0;
    let ghost all = models(edits@);
    proof {
        assert(splice_views(splices@) =~= Seq::<Replacement>::empty());
    }
    while i < edits.len()
        invariant
            i <= edits@.len(),
            chars@ == original@,
            all == models(edits@),
            edits@.len() > 0,
            all_replacements(original@, all, i as nat) == Ok::<Seq<Replacement>, Seq<char>>(
                splice_views(splices@),
            ),
            forall|j: int|
                0 <= j < splices@.len() ==> 0 <= (#[trigger] splices@[j])@.start < splices@[j]@.end
                    <= original@.len(),
        decreases edits@.len() - i,
    {
        proof {
            assert(all[i as int] == edits@[i as int].model());
        }
        if let Some(e) = push_edit(&mut splices, &chars, &edits[i]) {
            proof {
                lemma_error_stays(original@, all, (i + 1) as nat, all.len());
            }
            return Err(e);
        }
        i = i + 1;
    }
    let ghost found = splice_views(splices@);
    proof {
        assert(proper(found, original@.len() as int)) by {
            assert forall|j: int| 0 <= j < found.len() implies 0 <= (#[trigger] found[j]).start
                < found[j].end <= original@.len() by {
                assert(found[j] == splices@[j]@);
            }
        }
        lemma_by_start(found);
        lemma_same_members(found, by_start(found), original@.len() as int);
        lemma_overlap_sorted(found, original@.len() as int);
    }
    let sorted = sort_splices(splices);
    let count = sorted.len();
    proof {
        assert(splice_views(sorted@).len() == count);
    }
    if !is_chained(sorted.as_slice()) {
        return Err("overlapping edits".to_owned());
    }
    let result = splice_all(&chars, sorted.as_slice());
    Ok((from_chars(&result), count))
}

proof fn lemma_error_stays(original: Seq<char>, edits: Seq<CborModel>, k: nat, n: nat)
    requires
        k <= n,
        all_replacements(original, edits, k) is Err,
    ensures
        all_replacements(original, edits, n) == all_replacements(original, edits, k),
    decreases n,
{
    if k < n {
        lemma_error_stays(original, edits, k, (n - 1) as nat);
    }
}

/// The edit tool up to writing: `original` is the content of the file, or why
/// it cannot be read.
pub fn plan_edit(arguments: &CborValue, original: Result<String, String>) -> (r: Result<
    EditPlan,
    String,
>)
    ensures
        match r {
            Ok(plan) => edit_plan(arguments.model(), text_view(original)) == Ok::<
                EditPlanModel,
                Seq<char>,
            >(plan@),
            Err(e) => edit_plan(arguments.model(), text_view(original)) == Err::<
                EditPlanModel,
                Seq<char>,
            >(e@),
        },
{
    let path = match argument_text(arguments, "path") {
        Ok(path) => path,
        Err(e) => {
            return Err(e);
        },
    };
    let original = match original {
        Ok(text) => text,
        Err(e) => {
            return Err(e);
        },
    };
    let edits = match argument_array(arguments, "edits") {
        Ok(edits) => edits,
        Err(e) => {
            return Err(e);
        },
    };
    match apply_edits(original.as_str(), edits) {
        Ok((content, edits_applied)) => Ok(EditPlan { path, content, edits_applied }),
        Err(e) => Err(e),
    }
}

/// The result of a tool that changed a file: the path, a count and the
/// difference.
pub open spec fn change_result(
    path: Seq<char>,
    count_name: Seq<char>,
    count: nat,
    diff: CborModel,
) -> CborModel {
    CborModel::Table(
        seq![
            text_entry("path"@, path),
            (CborModel::Text(count_name), CborModel::Integer(count as int)),
            (CborModel::Text("diff"@), diff),
        ],
    )
}

fn make_change_result(path: &str, count_name: &str, count: usize, diff: CborValue) -> (v: CborValue)
    ensures
        v.model() == change_result(path@, count_name@, count as nat, diff.model()),
{
    let table = vec![
        make_text_entry("path", path),
        (
            CborValue::Text(count_name.to_owned()),
            CborValue::Integer(CborInteger::from_u64(count as u64)),
        ),
        (CborValue::Text("diff".to_owned()), diff),
    ];
    proof {
        lemma_table_model(table);
        assert(entry_models(table@) =~= change_result(
            path@,
            count_name@,
            count as nat,
            diff.model(),
        )->Table_0);
    }
    CborValue::Table(table)
}

/// The result of the edit tool, once the file was written.
pub fn edit_result(plan: &EditPlan, diff: CborValue) -> (v: CborValue)
    ensures
        v.model() == change_result(
            plan@.path,
            "edits_applied"@,
            plan@.edits_applied,
            diff.model(),
        ),
{
    make_change_result(plan.path.as_str(), "edits_applied", plan.edits_applied, diff)
}

/// What the write tool has to write, and the directory that has to be there
/// before.
#[derive(Debug)]
pub struct WritePlan {
    pub path: String,
    pub content: String,
    pub directory: Option<String>,
}

/// The write tool up to writing.
pub fn plan_write(arguments: &CborValue) -> (r: Result<WritePlan, String>)
    ensures
        match r {
            Ok(plan) => first_text(arguments.model().entries(), "path"@) == Some(plan.path@)
                && first_text(arguments.model().entries(), "content"@) == Some(plan.content@)
                && match plan.directory {
                Some(d) => parent(plan.path@) == Some(d@),
                None => parent(plan.path@) is None,
            },
            Err(e) => if first_text(arguments.model().entries(), "path"@) is None {
                e@ == "missing string argument: "@ + "path"@
            } else {
                first_text(arguments.model().entries(), "content"@) is None && e@
                    == "missing string argument: "@ + "content"@
            },
        },
{
    let path = match argument_text(arguments, "path") {
        Ok(path) => path,
        Err(e) => {
            return Err(e);
        },
    };
    let content = match argument_text(arguments, "content") {
        Ok(content) => content,
        Err(e) => {
            return Err(e);
        },
    };
    let directory = parent_of(path.as_str());
    Ok(WritePlan { path, content, directory })
}

/// The result of the write tool, once the file was written.
pub fn write_result(plan: &WritePlan, diff: CborValue) -> (v: CborValue)
    ensures
        v.model() == change_result(
            plan.path@,
            "bytes_written"@,
            byte_len(plan.content@),
            diff.model(),
        ),
{
    let bytes_written = str_len(plan.content.as_str());
    make_change_result(plan.path.as_str(), "bytes_written", bytes_written, diff)
}

// ---------------------------------------------------------------------------
// Laws
// ---------------------------------------------------------------------------

/// Sorted replacements that do not meet change nothing before the first one and
/// nothing after the last one.
pub proof fn law_text_outside_edits_is_kept(s: Seq<char>, sorted: Seq<Replacement>)
    requires
        sorted.len() > 0,
        chained(sorted),
        proper(sorted, s.len() as int),
    ensures
        spliced(s, sorted).len() >= sorted[0].start,
        spliced(s, sorted).take(sorted[0].start) == s.take(sorted[0].start),
        spliced(s, sorted).len() >= s.len() - sorted.last().end,
        spliced(s, sorted).skip(spliced(s, sorted).len() - (s.len() - sorted.last().end))
            == s.skip(sorted.last().end),
    decreases sorted.len(),
{
    let r = sorted.last();
    let front = sorted.drop_last();
    let head = spliced(s.take(r.start), front);
    let out = spliced(s, sorted);
    assert(0 <= r.start < r.end <= s.len());
    assert(out =~= head + r.text + s.skip(r.end));
    assert(out.skip(out.len() - (s.len() - r.end)) =~= s.skip(r.end));
    if front.len() == 0 {
        assert(head == s.take(r.start));
        assert(out.take(r.start) =~= s.take(r.start));
    } else {
        let t = s.take(r.start);
        assert(chained(front)) by {
            assert forall|i: int, j: int| 0 <= i < j < front.len() implies (
            #[trigger] front[i]).end <= (#[trigger] front[j]).start by {
                assert(front[i] == sorted[i]);
                assert(front[j] == sorted[j]);
            }
        }
        assert(proper(front, t.len() as int)) by {
            assert forall|i: int| 0 <= i < front.len() implies 0 <= (#[trigger] front[i]).start
                < front[i].end <= t.len() by {
                assert(front[i] == sorted[i]);
                assert(sorted[i].end <= sorted[sorted.len() - 1].start);
            }
        }
        law_text_outside_edits_is_kept(t, front);
        let a = sorted[0].start;
        assert(front[0] == sorted[0]);
        assert(sorted[0].end <= sorted[sorted.len() - 1].start);
        assert(out.take(a) =~= head.take(a));
        assert(t.take(a) =~= s.take(a));
    }
}

/// Sorted replacements that do not meet and put back what they take leave the
/// text as it is.
pub proof fn law_replacing_by_itself_changes_nothing(s: Seq<char>, sorted: Seq<Replacement>)
    requires
        chained(sorted),
        proper(sorted, s.len() as int),
        forall|i: int|
            0 <= i < sorted.len() ==> (#[trigger] sorted[i]).text == s.subrange(
                sorted[i].start,
                sorted[i].end,
            ),
    ensures
        spliced(s, sorted) == s,
    decreases sorted.len(),
{
    if sorted.len() > 0 {
        let r = sorted[sorted.len() - 1];
        let front = sorted.drop_last();
        let t = s.take(r.start);
        assert forall|i: int| 0 <= i < front.len() implies (#[trigger] front[i]).text
            == t.subrange(front[i].start, front[i].end) && 0 <= front[i].start < front[i].end
            <= t.len() by {
            assert(front[i] == sorted[i]);
            assert(sorted[i].end <= r.start);
            assert(t.subrange(front[i].start, front[i].end) =~= s.subrange(
                front[i].start,
                front[i].end,
            ));
        }
        assert(chained(front)) by {
            assert forall|i: int, j: int| 0 <= i < j < front.len() implies (
            #[trigger] front[i]).end <= (#[trigger] front[j]).start by {
                assert(front[i] == sorted[i]);
                assert(front[j] == sorted[j]);
            }
        }
        law_replacing_by_itself_changes_nothing(t, front);
        assert(t + r.text + s.skip(r.end) =~= s);
    }
}

/// The positions of the matches of an edit never overlap, so an edit alone is
/// never refused for overlapping.
pub proof fn law_matches_do_not_overlap(s: Seq<char>, p: Seq<char>, from: int, i: int, j: int)
    requires
        from >= 0,
        p.len() > 0,
        0 <= i < j < match_positions(s, p, from).len(),
    ensures
        match_positions(s, p, from)[i] + p.len() <= match_positions(s, p, from)[j],
    decreases s.len() - from,
{
    lemma_next_match(s, p, from);
    let k = next_match(s, p, from)->0;
    let rest = match_positions(s, p, k + p.len());
    if i == 0 {
        lemma_positions_from(s, p, k + p.len(), j - 1);
    } else {
        law_matches_do_not_overlap(s, p, k + p.len(), i - 1, j - 1);
    }
}

proof fn lemma_positions_from(s: Seq<char>, p: Seq<char>, from: int, i: int)
    requires
        from >= 0,
        p.len() > 0,
        0 <= i < match_positions(s, p, from).len(),
    ensures
        match_positions(s, p, from)[i] >= from,
        occurs_at(s, p, match_positions(s, p, from)[i]),
    decreases s.len() - from,
{
    lemma_next_match(s, p, from);
    let k = next_match(s, p, from)->0;
    if i > 0 {
        lemma_positions_from(s, p, k + p.len(), i - 1);
    }
}

proof fn lemma_edit_proper(s: Seq<char>, edit: CborModel)
    ensures
        edit_replacements(s, edit) matches Ok(more) ==> proper(more, s.len() as int) && forall|
            i: int,
        |
            0 <= i < more.len() ==> first_text(edit.entries(), "oldText"@) == Some(
                s.subrange((#[trigger] more[i]).start, more[i].end),
            ) && first_text(edit.entries(), "newText"@) == Some(more[i].text),
{
    if let Ok(more) = edit_replacements(s, edit) {
        let m = edit_of(edit)->Ok_0;
        assert(m.old_text.len() > 0);
        let positions = match_positions(s, m.old_text, 0);
        assert forall|i: int| 0 <= i < more.len() implies 0 <= (#[trigger] more[i]).start
            < more[i].end <= s.len() && first_text(edit.entries(), "oldText"@) == Some(
            s.subrange(more[i].start, more[i].end),
        ) && first_text(edit.entries(), "newText"@) == Some(more[i].text) by {
            lemma_positions_from(s, m.old_text, 0, i);
            assert(occurs_at(s, m.old_text, positions[i]));
        }
    }
}

proof fn lemma_all_proper(s: Seq<char>, edits: Seq<CborModel>, n: nat)
    requires
        n <= edits.len(),
    ensures
        all_replacements(s, edits, n) matches Ok(all) ==> proper(all, s.len() as int) && forall|
            i: int,
        |
            0 <= i < all.len() ==> is_asked_for(s, edits, #[trigger] all[i]),
    decreases n,
{
    if n > 0 {
        lemma_all_proper(s, edits, (n - 1) as nat);
        lemma_edit_proper(s, edits[n - 1]);
        if let Ok(all) = all_replacements(s, edits, n) {
            let before = all_replacements(s, edits, (n - 1) as nat)->Ok_0;
            let more = edit_replacements(s, edits[n - 1])->Ok_0;
            assert(all == before + more);
            assert forall|i: int| 0 <= i < all.len() implies is_asked_for(s, edits, #[trigger] all[i])
                && 0 <= all[i].start < all[i].end <= s.len() by {
                if i < before.len() {
                    assert(all[i] == before[i]);
                } else {
                    assert(all[i] == more[i - before.len()]);
                    assert(edits[n - 1] == edits[n - 1]);
                }
            }
        }
    }
}

/// Whether a replacement is one that an edit asks for: it takes the old text of the
/// edit out of `s`, and puts in the new text as it is given.
pub open spec fn is_asked_for(s: Seq<char>, edits: Seq<CborModel>, r: Replacement) -> bool {
    exists|e: int|
        0 <= e < edits.len() && first_text((#[trigger] edits[e]).entries(), "oldText"@) == Some(
            s.subrange(r.start, r.end),
        ) && first_text(edits[e].entries(), "newText"@) == Some(r.text)
}

/// Edits that succeed put in nothing but their new texts, character for character,
/// and take out nothing but their old texts, at places that do not meet.
pub proof fn law_edits_replace_what_they_say(s: Seq<char>, edits: Seq<CborModel>)
    ensures
        edited(s, edits) matches Ok((out, n)) ==> exists|sorted: Seq<Replacement>| #[trigger]
            chained(sorted) && proper(sorted, s.len() as int) && sorted.len() == n && out
                == spliced(s, sorted) && forall|i: int|
                0 <= i < sorted.len() ==> is_asked_for(s, edits, #[trigger] sorted[i]),
{
    broadcast use vstd::seq_lib::group_to_multiset_ensures;

    if let Ok((out, n)) = edited(s, edits) {
        lemma_all_proper(s, edits, edits.len());
        let all = all_replacements(s, edits, edits.len())->Ok_0;
        let sorted = by_start(all);
        lemma_overlap_sorted(all, s.len() as int);
        lemma_by_start(all);
        lemma_same_members(all, sorted, s.len() as int);
        assert forall|i: int| 0 <= i < sorted.len() implies is_asked_for(
            s,
            edits,
            #[trigger] sorted[i],
        ) by {
            assert(sorted.contains(sorted[i]));
            assert(sorted.to_multiset().count(sorted[i]) > 0);
            assert(all.contains(sorted[i]));
            let k = choose|k: int| 0 <= k < all.len() && all[k] == sorted[i];
            assert(is_asked_for(s, edits, all[k]));
        }
        assert(chained(sorted));
    }
}

/// Edits whose new text is their old text leave any file as it is.
pub proof fn law_edits_to_the_same_text_change_nothing(s: Seq<char>, edits: Seq<CborModel>)
    requires
        forall|e: int|
            0 <= e < edits.len() ==> first_text((#[trigger] edits[e]).entries(), "newText"@)
                == first_text(edits[e].entries(), "oldText"@),
    ensures
        edited(s, edits) matches Ok((out, _)) ==> out == s,
{
    if let Ok((out, n)) = edited(s, edits) {
        law_edits_replace_what_they_say(s, edits);
        let sorted = choose|sorted: Seq<Replacement>| #[trigger]
            chained(sorted) && proper(sorted, s.len() as int) && sorted.len() == n && out
                == spliced(s, sorted) && forall|i: int|
                0 <= i < sorted.len() ==> is_asked_for(s, edits, #[trigger] sorted[i]);
        assert forall|i: int| 0 <= i < sorted.len() implies (#[trigger] sorted[i]).text
            == s.subrange(sorted[i].start, sorted[i].end) by {
            assert(is_asked_for(s, edits, sorted[i]));
        }
        law_replacing_by_itself_changes_nothing(s, sorted);
    }
}

proof fn lemma_match_found(s: Seq<char>, p: Seq<char>, from: int, k: int)
    requires
        0 <= from <= k,
        forall|j: int| from <= j < k ==> !occurs_at(s, p, j),
        occurs_at(s, p, k),
    ensures
        next_match(s, p, from) == Some(k),
    decreases k - from,
{
    if from < k {
        assert(!occurs_at(s, p, from));
        lemma_match_found(s, p, from + 1, k);
    }
}

proof fn lemma_no_match(s: Seq<char>, p: Seq<char>, from: int)
    requires
        0 <= from,
        forall|j: int| from <= j ==> !occurs_at(s, p, j),
    ensures
        next_match(s, p, from) is None,
    decreases s.len() + 1 - from,
{
    if from + p.len() <= s.len() {
        assert(!occurs_at(s, p, from));
        lemma_no_match(s, p, from + 1);
    }
}

proof fn lemma_join_split(parts: Seq<Seq<char>>, sep: Seq<char>, i: int)
    requires
        0 < i < parts.len(),
    ensures
        join(parts, sep) == join(parts.take(i), sep) + sep + join(parts.skip(i), sep),
    decreases parts.len(),
{
    let front = parts.drop_last();
    let tail = parts.skip(i);
    if i == parts.len() - 1 {
        assert(parts.take(i) =~= front);
        assert(tail.len() == 1 && tail[0] == parts.last());
    } else {
        lemma_join_split(front, sep, i);
        assert(front.take(i) =~= parts.take(i));
        assert(tail.drop_last() =~= front.skip(i));
        assert(tail.last() == parts.last());
        assert(join(parts, sep) =~= join(parts.take(i), sep) + sep + join(tail, sep));
    }
}

/// Whether the texts are what `p` cuts a text into: `p` stands in none of them, nor
/// before the end of one with `p` behind it.
pub open spec fn cut_by(pieces: Seq<Seq<char>>, p: Seq<char>) -> bool {
    &&& pieces.len() > 0
    &&& forall|i: int, j: int|
        0 <= i < pieces.len() - 1 && 0 <= j < pieces[i].len() ==> !(#[trigger] occurs_at(
            pieces[i] + p,
            p,
            j,
        ))
    &&& forall|j: int| 0 <= j ==> !(#[trigger] occurs_at(pieces.last(), p, j))
}

/// Where `p` stands between the pieces.
spec fn cuts(pieces: Seq<Seq<char>>, p: Seq<char>) -> Seq<int> {
    Seq::new((pieces.len() - 1) as nat, |i: int| join(pieces.take(i + 1), p).len() as int)
}

proof fn lemma_cut_positions(pieces: Seq<Seq<char>>, p: Seq<char>, i: int)
    requires
        p.len() > 0,
        cut_by(pieces, p),
        0 <= i < pieces.len(),
    ensures
        match_positions(
            join(pieces, p),
            p,
            if i == 0 {
                0
            } else {
                (join(pieces.take(i), p).len() + p.len()) as int
            },
        ) == cuts(pieces, p).skip(i),
    decreases pieces.len() - i,
{
    let s = join(pieces, p);
    let pre = if i == 0 {
        Seq::empty()
    } else {
        join(pieces.take(i), p) + p
    };
    let from = pre.len() as int;
    let rest = pieces.skip(i);
    if i > 0 {
        lemma_join_split(pieces, p, i);
    } else {
        assert(rest =~= pieces);
    }
    assert(s =~= pre + join(rest, p));
    if i == pieces.len() - 1 {
        let last = pieces.last();
        assert(rest.len() == 1 && rest[0] == last);
        assert forall|j: int| from <= j implies !occurs_at(s, p, j) by {
            if occurs_at(s, p, j) {
                assert(last.subrange(j - from, j - from + p.len()) =~= s.subrange(
                    j,
                    j + p.len(),
                ));
                assert(occurs_at(pieces.last(), p, j - from));
            }
        }
        lemma_no_match(s, p, from);
        assert(cuts(pieces, p).skip(i) =~= Seq::<int>::empty());
    } else {
        let first = pieces[i];
        assert(rest[0] == first);
        crate::text::lemma_join_first(rest, p);
        let k = from + first.len();
        assert(s =~= pre + (first + p) + join(rest.drop_first(), p));
        assert forall|j: int| from <= j < k implies !occurs_at(s, p, j) by {
            if occurs_at(s, p, j) {
                assert((first + p).subrange(j - from, j - from + p.len()) =~= s.subrange(
                    j,
                    j + p.len(),
                ));
                assert(occurs_at(pieces[i] + p, p, j - from));
            }
        }
        assert(s.subrange(k, k + p.len()) =~= p);
        lemma_match_found(s, p, from, k);
        let upto = pieces.take(i + 1);
        assert(join(upto, p).len() == k) by {
            if i > 0 {
                assert(upto.drop_last() =~= pieces.take(i));
                assert(upto.last() == first);
            } else {
                assert(upto[0] == first);
            }
        }
        lemma_cut_positions(pieces, p, i + 1);
        assert(cuts(pieces, p)[i] == k);
        assert(cuts(pieces, p).skip(i) =~= seq![k] + cuts(pieces, p).skip(i + 1));
    }
}

proof fn lemma_spliced_cuts(pieces: Seq<Seq<char>>, p: Seq<char>, text: Seq<char>)
    requires
        pieces.len() > 0,
    ensures
        spliced(join(pieces, p), replacements_at(cuts(pieces, p), p.len(), text)) == join(
            pieces,
            text,
        ),
    decreases pieces.len(),
{
    let all = replacements_at(cuts(pieces, p), p.len(), text);
    if pieces.len() > 1 {
        let front = pieces.drop_last();
        lemma_spliced_cuts(front, p, text);
        let s = join(pieces, p);
        let r = all.last();
        assert(pieces.take(pieces.len() - 1) =~= front);
        assert(r.start == join(front, p).len());
        assert(s.take(r.start) =~= join(front, p));
        assert(s.skip(r.end) =~= pieces.last());
        assert(all.drop_last() =~= replacements_at(cuts(front, p), p.len(), text)) by {
            assert forall|i: int| 0 <= i < front.len() - 1 implies cuts(pieces, p)[i] == cuts(
                front,
                p,
            )[i] by {
                assert(pieces.take(i + 1) =~= front.take(i + 1));
            }
        }
    }
}

proof fn lemma_sorted_stays(all: Seq<Replacement>)
    requires
        starts_ordered(all),
    ensures
        by_start(all) == all,
    decreases all.len(),
{
    if all.len() > 0 {
        let front = all.drop_last();
        assert forall|i: int, j: int| 0 <= i < j < front.len() implies (#[trigger] front[i]).start
            <= (#[trigger] front[j]).start by {
            assert(front[i] == all[i]);
            assert(front[j] == all[j]);
        }
        lemma_sorted_stays(front);
        if front.len() > 0 {
            assert(all[all.len() - 2].start <= all[all.len() - 1].start);
        }
        assert(front.push(all.last()) =~= all);
    } else {
        assert(by_start(all) =~= all);
    }
}

/// One edit puts its new text wherever the old one stands: a text that is made of
/// pieces with the old text between them becomes the pieces with the new text between
/// them. The edit is expected to match that often.
pub proof fn law_edit_replaces_every_match(
    pieces: Seq<Seq<char>>,
    edit: CborModel,
    old_text: Seq<char>,
    new_text: Seq<char>,
)
    requires
        first_text(edit.entries(), "oldText"@) == Some(old_text),
        first_text(edit.entries(), "newText"@) == Some(new_text),
        old_text.len() > 0,
        cut_by(pieces, old_text),
        pieces.len() - 1 <= usize::MAX,
        match first_integer(
            edit.entries(),
            "expected_matches"@,
            i64::MIN as int,
            i64::MAX as int,
        ) {
            Some(n) => n == pieces.len() - 1,
            None => pieces.len() == 2,
        },
    ensures
        edited(join(pieces, old_text), seq![edit]) == Ok::<(Seq<char>, nat), Seq<char>>(
            (join(pieces, new_text), (pieces.len() - 1) as nat),
        ),
{
    let s = join(pieces, old_text);
    let edits = seq![edit];
    let positions = match_positions(s, old_text, 0);
    lemma_cut_positions(pieces, old_text, 0);
    assert(positions =~= cuts(pieces, old_text));
    let all = replacements_at(positions, old_text.len(), new_text);
    assert(edit_replacements(s, edit) == Ok::<Seq<Replacement>, Seq<char>>(all));
    assert(all_replacements(s, edits, 0) == Ok::<Seq<Replacement>, Seq<char>>(Seq::empty()));
    assert(edits[0] == edit);
    assert(Seq::<Replacement>::empty() + all =~= all);
    assert(all_replacements(s, edits, 1) == Ok::<Seq<Replacement>, Seq<char>>(all));
    assert(chained(all)) by {
        assert forall|i: int, j: int| 0 <= i < j < all.len() implies (#[trigger] all[i]).end <= (
        #[trigger] all[j]).start by {
            law_matches_do_not_overlap(s, old_text, 0, i, j);
        }
    }
    assert(!overlapping(all));
    assert(starts_ordered(all)) by {
        assert forall|i: int, j: int| 0 <= i < j < all.len() implies (#[trigger] all[i]).start <= (
        #[trigger] all[j]).start by {
            assert(all[i].end <= all[j].start);
        }
    }
    lemma_sorted_stays(all);
    lemma_spliced_cuts(pieces, old_text, new_text);
}

/// An edit whose old text stands in the file once puts its new text exactly there and
/// keeps everything before and after it.
pub proof fn law_edit_replaces_its_one_match(
    s: Seq<char>,
    edit: CborModel,
    old_text: Seq<char>,
    new_text: Seq<char>,
    k: int,
)
    requires
        first_text(edit.entries(), "oldText"@) == Some(old_text),
        first_text(edit.entries(), "newText"@) == Some(new_text),
        old_text.len() > 0,
        occurs_at(s, old_text, k),
        forall|j: int| #[trigger] occurs_at(s, old_text, j) ==> j == k,
        match first_integer(
            edit.entries(),
            "expected_matches"@,
            i64::MIN as int,
            i64::MAX as int,
        ) {
            Some(n) => n == 1,
            None => true,
        },
    ensures
        edited(s, seq![edit]) == Ok::<(Seq<char>, nat), Seq<char>>(
            (s.take(k) + new_text + s.skip(k + old_text.len()), 1),
        ),
{
    let a = s.take(k);
    let b = s.skip(k + old_text.len());
    let pieces = seq![a, b];
    assert(s =~= a + old_text + b);
    assert(cut_by(pieces, old_text)) by {
        assert forall|i: int, j: int|
            0 <= i < pieces.len() - 1 && 0 <= j < pieces[i].len() implies !(#[trigger] occurs_at(
            pieces[i] + old_text,
            old_text,
            j,
        )) by {
            let t = a + old_text;
            assert(pieces[i] == a);
            if occurs_at(t, old_text, j) {
                assert(s.subrange(j, j + old_text.len()) =~= t.subrange(j, j + old_text.len()));
                assert(occurs_at(s, old_text, j));
            }
        }
        assert forall|j: int| 0 <= j implies !(#[trigger] occurs_at(pieces.last(), old_text, j)) by {
            assert(pieces.last() == b);
            if occurs_at(b, old_text, j) {
                let at = k + old_text.len() + j;
                assert(s.subrange(at, at + old_text.len()) =~= b.subrange(j, j + old_text.len()));
                assert(occurs_at(s, old_text, at));
            }
        }
    }
    law_edit_replaces_every_match(pieces, edit, old_text, new_text);
    assert(pieces.drop_last() =~= seq![a]);
    assert(seq![a][0] == a);
    assert(join(pieces.drop_last(), old_text) == a);
    assert(join(pieces.drop_last(), new_text) == a);
    assert(pieces.last() == b);
    assert(join(pieces, old_text) == a + old_text + b);
    assert(join(pieces, new_text) == a + new_text + b);
}

/// Two edits with one match each are both made, in whatever order they are given,
/// where the matches do not meet, also where one follows directly on the other. Where
/// they meet, the edits are refused.
pub proof fn law_two_edits_are_made_side_by_side(
    s: Seq<char>,
    edits: Seq<CborModel>,
    old_texts: Seq<Seq<char>>,
    new_texts: Seq<Seq<char>>,
    at: Seq<int>,
)
    requires
        edits.len() == 2,
        old_texts.len() == 2,
        new_texts.len() == 2,
        at.len() == 2,
        forall|e: int|
            0 <= e < 2 ==> first_text((#[trigger] edits[e]).entries(), "oldText"@) == Some(
                old_texts[e],
            ) && first_text(edits[e].entries(), "newText"@) == Some(new_texts[e])
                && old_texts[e].len() > 0 && first_integer(
                edits[e].entries(),
                "expected_matches"@,
                i64::MIN as int,
                i64::MAX as int,
            ) is None && occurs_at(s, old_texts[e], at[e]),
        forall|e: int, j: int|
            0 <= e < 2 && #[trigger] occurs_at(s, old_texts[e], j) ==> j == at[e],
    ensures
        ({
            let a = if at[0] <= at[1] {
                0int
            } else {
                1int
            };
            let b = 1 - a;
            if at[a] + old_texts[a].len() <= at[b] {
                edited(s, edits) == Ok::<(Seq<char>, nat), Seq<char>>(
                    (
                        s.take(at[a]) + new_texts[a] + s.subrange(
                            at[a] + old_texts[a].len(),
                            at[b],
                        ) + new_texts[b] + s.skip(at[b] + old_texts[b].len()),
                        2,
                    ),
                )
            } else {
                edited(s, edits) == Err::<(Seq<char>, nat), Seq<char>>("overlapping edits"@)
            }
        }),
{
    assert forall|e: int| 0 <= e < 2 implies edit_replacements(s, #[trigger] edits[e]) == Ok::<
        Seq<Replacement>,
        Seq<char>,
    >(
        seq![
            Replacement {
                start: at[e],
                end: at[e] + old_texts[e].len(),
                text: new_texts[e],
            },
        ],
    ) by {
        let p = old_texts[e];
        let k = at[e];
        assert(occurs_at(s, p, k));
        lemma_match_found(s, p, 0, k);
        lemma_no_match(s, p, k + p.len());
        assert(match_positions(s, p, k + p.len()) =~= Seq::<int>::empty());
        assert(match_positions(s, p, 0) =~= seq![k]);
        assert(replacements_at(seq![k], p.len(), new_texts[e]) =~= seq![
            Replacement { start: k, end: k + p.len(), text: new_texts[e] },
        ]);
    }
    let x = Replacement { start: at[0], end: at[0] + old_texts[0].len(), text: new_texts[0] };
    let y = Replacement { start: at[1], end: at[1] + old_texts[1].len(), text: new_texts[1] };
    let all = seq![x, y];
    assert(edits[0] == edits[0] && edits[1] == edits[1]);
    assert(all_replacements(s, edits, 0) == Ok::<Seq<Replacement>, Seq<char>>(Seq::empty()));
    assert(Seq::<Replacement>::empty() + seq![x] =~= seq![x]);
    assert(all_replacements(s, edits, 1) == Ok::<Seq<Replacement>, Seq<char>>(seq![x]));
    assert(seq![x] + seq![y] =~= all);
    assert(all_replacements(s, edits, 2) == Ok::<Seq<Replacement>, Seq<char>>(all));
    let none = Seq::<Replacement>::empty();
    assert(all.drop_last() =~= seq![x]);
    assert(seq![x].drop_last() =~= none);
    assert(by_start(none) =~= none);
    assert(none.push(x) =~= seq![x]);
    assert(by_start(seq![x]) == seq![x]);
    assert(all[0] == x && all[1] == y);
    assert(overlapping(all) <==> x.start < y.end && y.start < x.end);
    let sorted = by_start(all);
    assert(sorted == insert_by_start(seq![x], y));
    if x.start <= y.start {
        assert(sorted =~= seq![x, y]);
        lemma_two_spliced(s, x, y);
    } else {
        assert(insert_by_start(none, y) =~= seq![y]);
        assert(sorted =~= seq![y, x]);
        lemma_two_spliced(s, y, x);
    }
}

proof fn lemma_two_spliced(s: Seq<char>, x: Replacement, y: Replacement)
    requires
        0 <= x.start <= x.end,
        y.start <= y.end <= s.len(),
    ensures
        x.end <= y.start ==> spliced(s, seq![x, y]) == s.take(x.start) + x.text + s.subrange(
            x.end,
            y.start,
        ) + y.text + s.skip(y.end),
{
    if x.end <= y.start {
        let both = seq![x, y];
        let none = Seq::<Replacement>::empty();
        assert(both.drop_last() =~= seq![x]);
        assert(seq![x].drop_last() =~= none);
        let t = s.take(y.start);
        assert(spliced(t.take(x.start), none) == t.take(x.start));
        assert(spliced(t, seq![x]) == t.take(x.start) + x.text + t.skip(x.end));
        assert(t.take(x.start) =~= s.take(x.start));
        assert(t.skip(x.end) =~= s.subrange(x.end, y.start));
    }
}

/// An edit whose old text stands in the file another number of times than expected is
/// refused, and so are no edits at all.
pub proof fn law_edits_with_other_matches_are_refused(
    s: Seq<char>,
    edits: Seq<CborModel>,
    e: int,
)
    requires
        edits.len() == 0 || (0 <= e < edits.len() && match edit_of(edits[e]) {
            Err(_) => true,
            Ok(m) => match_positions(s, m.old_text, 0).len() != m.expected,
        }),
    ensures
        edited(s, edits) is Err,
{
    if edits.len() > 0 {
        lemma_refused(s, edits, e, edits.len());
    }
}

proof fn lemma_refused(s: Seq<char>, edits: Seq<CborModel>, e: int, n: nat)
    requires
        0 <= e < n <= edits.len(),
        edit_replacements(s, edits[e]) is Err,
    ensures
        all_replacements(s, edits, n) is Err,
    decreases n,
{
    if e < n - 1 {
        lemma_refused(s, edits, e, (n - 1) as nat);
    }
}

/// The edit tool writes the edited content to the file that its arguments name,
/// and counts the replacements. Where the file cannot be read, or the edits cannot
/// be made, it writes nothing and says why.
pub proof fn law_edited_file_is_written(
    arguments: CborModel,
    text: Seq<char>,
    path: Seq<char>,
    edits: Seq<CborModel>,
    reason: Seq<char>,
)
    requires
        first_text(arguments.entries(), "path"@) == Some(path),
    ensures
        first_array(arguments.entries(), "edits"@) == Some(edits) ==> match edited(text, edits) {
            Ok((content, n)) => edit_plan(arguments, Ok(text)) == Ok::<EditPlanModel, Seq<char>>(
                EditPlanModel { path, content, edits_applied: n },
            ),
            Err(e) => edit_plan(arguments, Ok(text)) == Err::<EditPlanModel, Seq<char>>(e),
        },
        edit_plan(arguments, Err(reason)) == Err::<EditPlanModel, Seq<char>>(reason),
        first_array(arguments.entries(), "edits"@) is None ==> edit_plan(arguments, Ok(text)) is Err,
{
}

/// The result of a change tells the path, the count under its name, and the
/// difference.
pub proof fn law_result_tells_what_changed(
    path: Seq<char>,
    count_name: Seq<char>,
    count: nat,
    diff: CborModel,
)
    requires
        count_name != "path"@,
    ensures
        ({
            let entries = change_result(path, count_name, count, diff).entries();
            &&& first_text(entries, "path"@) == Some(path)
            &&& first_integer(entries, count_name, 0, count as int) == Some(count as int)
            &&& entries.contains((CborModel::Text("diff"@), diff))
        }),
{
    let entries = change_result(path, count_name, count, diff).entries();
    let rest = entries.drop_first();
    assert(rest[0] == entries[1]);
    assert(entries[2] == (CborModel::Text("diff"@), diff));
    reveal_with_fuel(first_integer, 3);
    reveal_with_fuel(first_text, 2);
}

} // verus!
